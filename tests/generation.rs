use maze_solver::{create_maze, pick_farther_half, sort_by_distance, CellState, Maze};
use rand::rngs::StdRng;
use rand::SeedableRng;
use std::collections::VecDeque;

fn distances_from(m: &Maze, from: (usize, usize)) -> Vec<Option<usize>> {
    let mut dist = vec![None; m.width * m.height];
    let mut queue = VecDeque::new();
    dist[from.1 * m.width + from.0] = Some(0);
    queue.push_back(from);
    while let Some((x, y)) = queue.pop_front() {
        let d = dist[y * m.width + x].unwrap();
        let mut next = vec![];
        if y + 1 < m.height {
            next.push((x, y + 1));
        }
        if y > 0 {
            next.push((x, y - 1));
        }
        if x + 1 < m.width {
            next.push((x + 1, y));
        }
        if x > 0 {
            next.push((x - 1, y));
        }
        for (nx, ny) in next {
            let i = ny * m.width + nx;
            if m.cells[i] != CellState::WALL && dist[i].is_none() {
                dist[i] = Some(d + 1);
                queue.push_back((nx, ny));
            }
        }
    }
    dist
}

fn count(m: &Maze, s: CellState) -> usize {
    m.cells.iter().filter(|c| **c == s).count()
}

#[test]
fn every_open_cell_is_reachable_from_start() {
    for seed in 0..20u64 {
        for &(w, h) in &[(5usize, 5usize), (10, 7), (30, 30), (4, 9), (1, 6), (2, 2)] {
            let mut rng = StdRng::seed_from_u64(seed);
            let m = create_maze(w, h, &mut rng);
            let dist = distances_from(&m, m.start);
            for i in 0..w * h {
                if m.cells[i] != CellState::WALL {
                    assert!(dist[i].is_some(), "seed {} size {}x{} cell {}", seed, w, h, i);
                }
            }
        }
    }
}

#[test]
fn one_start_and_one_end_after_generation() {
    for seed in 0..20u64 {
        for &(w, h) in &[(3usize, 3usize), (7, 5), (30, 30), (3, 1), (1, 3)] {
            let mut rng = StdRng::seed_from_u64(seed);
            let m = create_maze(w, h, &mut rng);
            assert!(m.is_valid());
            assert_eq!(m.width, w);
            assert_eq!(m.height, h);
            assert_eq!(m.cells.len(), w * h);
            assert_eq!(count(&m, CellState::START), 1);
            assert_eq!(count(&m, CellState::END), 1);
            assert_ne!(m.start, m.end);
            assert_eq!(m.cells[m.start.1 * w + m.start.0], CellState::START);
            assert_eq!(m.cells[m.end.1 * w + m.end.0], CellState::END);
            assert_eq!(m.start.0 % 2, 0);
            assert_eq!(m.start.1 % 2, 0);
        }
    }
}

#[test]
fn generated_cells_are_walls_or_unexplored() {
    let mut rng = StdRng::seed_from_u64(7);
    let m = create_maze(15, 11, &mut rng);
    assert_eq!(
        count(&m, CellState::EXPLORED) + count(&m, CellState::PATH),
        0
    );
    assert!(count(&m, CellState::WALL) > 0);
    assert!(count(&m, CellState::UNEXPLORED) > 0);
}

#[test]
fn single_cell_maze_marks_start() {
    let mut rng = StdRng::seed_from_u64(1);
    let m = create_maze(1, 1, &mut rng);
    assert_eq!(m.start, (0, 0));
    assert_eq!(m.end, (0, 0));
    assert_eq!(m.cells, vec![CellState::START]);
    assert!(m.is_valid());
}

#[test]
fn two_by_two_maze_has_only_its_start_open() {
    let mut rng = StdRng::seed_from_u64(3);
    let m = create_maze(2, 2, &mut rng);
    assert_eq!(m.start, (0, 0));
    assert_eq!(m.end, m.start);
    assert_eq!(count(&m, CellState::START), 1);
    assert_eq!(count(&m, CellState::WALL), 3);
}

#[test]
fn end_is_far_from_start() {
    for seed in 0..10u64 {
        let mut rng = StdRng::seed_from_u64(seed);
        let m = create_maze(21, 21, &mut rng);
        let dist = distances_from(&m, m.start);
        let d_end = dist[m.end.1 * m.width + m.end.0].unwrap();
        assert!(d_end >= 2, "seed {} end distance {}", seed, d_end);
    }
}

#[test]
fn different_seeds_give_different_mazes() {
    let mut a = StdRng::seed_from_u64(11);
    let mut b = StdRng::seed_from_u64(12);
    let m1 = create_maze(21, 21, &mut a);
    let m2 = create_maze(21, 21, &mut b);
    assert!(m1.cells != m2.cells || m1.start != m2.start);
}

#[test]
fn same_seed_gives_same_maze() {
    let mut a = StdRng::seed_from_u64(5);
    let mut b = StdRng::seed_from_u64(5);
    let m1 = create_maze(17, 13, &mut a);
    let m2 = create_maze(17, 13, &mut b);
    assert_eq!(m1.cells, m2.cells);
    assert_eq!(m1.start, m2.start);
    assert_eq!(m1.end, m2.end);
}

#[test]
fn sort_by_distance_orders_nearest_first() {
    let points = vec![(4, 4), (0, 1), (2, 0), (3, 3), (1, 1)];
    let sorted = sort_by_distance(&points, (0, 0), 5, 5);
    assert_eq!(sorted, vec![(0, 1), (2, 0), (1, 1), (3, 3), (4, 4)]);
}

#[test]
fn sort_by_distance_keeps_ties_in_order() {
    let points = vec![(2, 2), (1, 0), (0, 1), (2, 2)];
    let sorted = sort_by_distance(&points, (1, 1), 3, 3);
    assert_eq!(sorted, vec![(1, 0), (0, 1), (2, 2), (2, 2)]);
}

#[test]
fn sort_by_distance_of_nothing_is_empty() {
    let sorted = sort_by_distance(&vec![], (0, 0), 1, 1);
    assert!(sorted.is_empty());
}

#[test]
fn every_even_cell_is_carved_and_every_odd_cell_is_a_wall() {
    for seed in 0..10u64 {
        for &(w, h) in &[(9usize, 7usize), (10, 10), (1, 9), (13, 2)] {
            let mut rng = StdRng::seed_from_u64(seed);
            let m = create_maze(w, h, &mut rng);
            for y in 0..h {
                for x in 0..w {
                    let c = m.cells[y * w + x];
                    if x % 2 == 0 && y % 2 == 0 {
                        assert_ne!(c, CellState::WALL, "({}, {})", x, y);
                    }
                    if x % 2 == 1 && y % 2 == 1 {
                        assert_eq!(c, CellState::WALL, "({}, {})", x, y);
                    }
                }
            }
        }
    }
}

#[test]
fn pick_farther_half_indexes_from_the_middle() {
    let sorted = vec![(0, 1), (1, 1), (2, 1), (3, 3), (4, 4)];
    assert_eq!(pick_farther_half(&sorted, 0), (2, 1));
    assert_eq!(pick_farther_half(&sorted, 2), (4, 4));
    let two = vec![(0, 1), (5, 5)];
    assert_eq!(pick_farther_half(&two, 0), (5, 5));
}
