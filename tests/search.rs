use maze_solver::{accuracy_fraction, create_maze, AStar, CellState, Djikstras, Maze, Solver, DFS};
use rand::rngs::StdRng;
use rand::SeedableRng;
use std::collections::VecDeque;

fn open_grid(width: usize, height: usize, start: (usize, usize), end: (usize, usize)) -> Maze {
    let mut cells = vec![CellState::UNEXPLORED; width * height];
    cells[start.1 * width + start.0] = CellState::START;
    if start != end {
        cells[end.1 * width + end.0] = CellState::END;
    }
    Maze { start, end, width, height, cells }
}

fn shortest_moves(m: &Maze) -> Option<usize> {
    let mut dist = vec![None; m.width * m.height];
    let mut queue = VecDeque::new();
    dist[m.start.1 * m.width + m.start.0] = Some(0usize);
    queue.push_back(m.start);
    while let Some((x, y)) = queue.pop_front() {
        let d = dist[y * m.width + x].unwrap();
        let cand = [
            (x as isize, y as isize + 1),
            (x as isize, y as isize - 1),
            (x as isize + 1, y as isize),
            (x as isize - 1, y as isize),
        ];
        for (nx, ny) in cand {
            if nx < 0 || ny < 0 || nx >= m.width as isize || ny >= m.height as isize {
                continue;
            }
            let i = ny as usize * m.width + nx as usize;
            if m.cells[i] != CellState::WALL && dist[i].is_none() {
                dist[i] = Some(d + 1);
                queue.push_back((nx as usize, ny as usize));
            }
        }
    }
    dist[m.end.1 * m.width + m.end.0]
}

fn assert_route(m: &Maze, path: &[(usize, usize)]) {
    assert!(!path.is_empty());
    assert_eq!(path[0], m.start);
    assert_eq!(*path.last().unwrap(), m.end);
    for p in path {
        assert!(p.0 < m.width && p.1 < m.height);
        assert_ne!(m.cells[p.1 * m.width + p.0], CellState::WALL);
    }
    for w in path.windows(2) {
        let dx = (w[0].0 as isize - w[1].0 as isize).abs();
        let dy = (w[0].1 as isize - w[1].1 as isize).abs();
        assert_eq!(dx + dy, 1, "{:?} -> {:?}", w[0], w[1]);
    }
}

fn run_dfs(m: &mut Maze) -> DFS {
    let mut s = DFS::new(m);
    while !s.is_solved() && !s.is_exhausted() {
        s.iterate(m);
    }
    s
}

fn run_dijkstra(m: &mut Maze) -> Djikstras {
    let mut s = Djikstras::new(m);
    while !s.is_solved() && !s.is_exhausted() {
        s.iterate(m);
    }
    s
}

fn run_a_star(m: &mut Maze) -> AStar {
    let mut s = AStar::new(m);
    while !s.is_solved() && !s.is_exhausted() {
        s.iterate(m);
    }
    s
}

#[test]
fn open_three_by_three_shortest_paths_have_five_cells() {
    let mut m = open_grid(3, 3, (0, 0), (2, 2));
    assert_eq!(shortest_moves(&m), Some(4));
    let d = run_dijkstra(&mut m);
    assert!(d.is_solved());
    let dp = d.get_path(&m);
    assert_eq!(dp.len(), 5);
    assert_route(&m, &dp);

    let mut m2 = open_grid(3, 3, (0, 0), (2, 2));
    let a = run_a_star(&mut m2);
    assert!(a.is_solved());
    let ap = a.get_path(&m2);
    assert_eq!(ap.len(), 5);
    assert_route(&m2, &ap);
}

#[test]
fn open_three_by_three_depth_first_path_is_a_route() {
    let mut m = open_grid(3, 3, (0, 0), (2, 2));
    let s = run_dfs(&mut m);
    assert!(s.is_solved());
    let p = s.get_path(&m);
    assert!(p.len() >= 5);
    assert_route(&m, &p);
}

#[test]
fn every_search_finds_a_route_in_generated_mazes() {
    for seed in 0..15u64 {
        let mut rng = StdRng::seed_from_u64(seed);
        let base = create_maze(19, 15, &mut rng);
        let mut m1 = Maze { cells: base.cells.clone(), ..base };
        let base = Maze { cells: m1.cells.clone(), ..m1 };
        let d = run_dfs(&mut m1);
        assert_route(&base, &d.get_path(&m1));
        let mut m2 = Maze { cells: base.cells.clone(), ..base };
        let j = run_dijkstra(&mut m2);
        assert_route(&base, &j.get_path(&m2));
        let mut m3 = Maze { cells: base.cells.clone(), ..base };
        let a = run_a_star(&mut m3);
        assert_route(&base, &a.get_path(&m3));
    }
}

#[test]
fn dijkstra_and_a_star_find_shortest_routes() {
    for seed in 0..15u64 {
        let mut rng = StdRng::seed_from_u64(seed);
        let base = create_maze(25, 25, &mut rng);
        let best = shortest_moves(&base).unwrap();
        let mut m2 = Maze { cells: base.cells.clone(), ..base };
        let base = Maze { cells: m2.cells.clone(), ..m2 };
        let j = run_dijkstra(&mut m2);
        let mut m3 = Maze { cells: base.cells.clone(), ..base };
        let a = run_a_star(&mut m3);
        let jp = j.get_path(&m2);
        let ap = a.get_path(&m3);
        assert_eq!(jp.len(), best + 1);
        assert_eq!(ap.len(), jp.len());
    }
}

#[test]
fn depth_first_path_is_never_shorter_than_shortest() {
    for seed in 0..15u64 {
        let mut rng = StdRng::seed_from_u64(seed);
        let mut m = create_maze(21, 17, &mut rng);
        let best = shortest_moves(&m).unwrap();
        let s = run_dfs(&mut m);
        assert!(s.get_path(&m).len() >= best + 1);
    }
}

#[test]
fn searches_never_relabel_start_end_or_walls() {
    let mut rng = StdRng::seed_from_u64(9);
    let base = create_maze(15, 15, &mut rng);
    let mut m = Maze { cells: base.cells.clone(), ..base };
    let base = Maze { cells: m.cells.clone(), ..m };
    run_a_star(&mut m);
    for i in 0..m.cells.len() {
        match base.cells[i] {
            CellState::WALL | CellState::START | CellState::END => assert_eq!(m.cells[i], base.cells[i]),
            _ => assert!(m.cells[i] == CellState::UNEXPLORED || m.cells[i] == CellState::EXPLORED),
        }
    }
    assert!(m.is_valid());
}

#[test]
fn stepping_a_solved_search_changes_nothing() {
    let mut m = open_grid(4, 4, (0, 0), (3, 3));
    let mut d = run_dfs(&mut m);
    let path = d.get_path(&m);
    let cells = m.cells.clone();
    let t = d.traversed_cells();
    d.iterate(&mut m);
    d.iterate(&mut m);
    assert_eq!(d.get_path(&m), path);
    assert_eq!(d.traversed_cells(), t);
    assert_eq!(m.cells, cells);

    let mut m = open_grid(4, 4, (0, 0), (3, 3));
    let mut j = run_dijkstra(&mut m);
    let path = j.get_path(&m);
    let cells = m.cells.clone();
    j.iterate(&mut m);
    assert_eq!(j.get_path(&m), path);
    assert_eq!(m.cells, cells);
    assert!(j.is_solved());

    let mut m = open_grid(4, 4, (0, 0), (3, 3));
    let mut a = run_a_star(&mut m);
    let path = a.get_path(&m);
    let cells = m.cells.clone();
    let t = a.traversed_cells();
    a.iterate(&mut m);
    a.iterate(&mut m);
    assert_eq!(a.get_path(&m), path);
    assert_eq!(a.traversed_cells(), t);
    assert_eq!(m.cells, cells);
}

#[test]
fn fresh_instance_is_independent_of_the_old_one() {
    let mut m = open_grid(5, 5, (0, 0), (4, 4));
    let mut old = DFS::new(&m);
    for _ in 0..4 {
        old.iterate(&mut m);
    }
    let t_old = old.traversed_cells();
    let mut fresh = old.get_new_solver(&m);
    assert_eq!(fresh.traversed_cells(), 0);
    assert!(!fresh.is_solved());
    m.reset_explored_paths();
    while !fresh.is_solved() {
        fresh.iterate(&mut m);
    }
    assert_eq!(old.traversed_cells(), t_old);
    assert!(!old.is_solved());

    let mut m = open_grid(5, 5, (0, 0), (4, 4));
    let mut old = AStar::new(&m);
    old.iterate(&mut m);
    let mut fresh = old.get_new_solver(&m);
    assert_eq!(fresh.traversed_cells(), 0);
    m.reset_explored_paths();
    while !fresh.is_solved() {
        fresh.iterate(&mut m);
    }
    assert_eq!(old.traversed_cells(), 1);
    assert!(!old.is_solved());

    let mut m = open_grid(5, 5, (0, 0), (4, 4));
    let mut old = Djikstras::new(&m);
    old.iterate(&mut m);
    let mut fresh = old.get_new_solver(&m);
    m.reset_explored_paths();
    while !fresh.is_solved() {
        fresh.iterate(&mut m);
    }
    assert_eq!(old.traversed_cells(), 1);
    assert!(!old.is_solved());
    assert_eq!(fresh.get_path(&m).len(), 9);
}

#[test]
fn unsolved_searches_report_empty_paths() {
    let m = open_grid(3, 3, (0, 0), (2, 2));
    assert!(DFS::new(&m).get_path(&m).is_empty());
    assert!(Djikstras::new(&m).get_path(&m).is_empty());
    assert!(AStar::new(&m).get_path(&m).is_empty());
    assert_eq!(DFS::new(&m).get_accuracy(&m), (0, 1));
    assert_eq!(AStar::new(&m).get_accuracy(&m), (0, 1));
}

#[test]
fn walled_off_end_exhausts_the_frontier() {
    let mut m = open_grid(3, 1, (0, 0), (2, 0));
    m.cells[1] = CellState::WALL;
    let s = run_dfs(&mut m);
    assert!(!s.is_solved());
    assert!(s.is_exhausted());
    let j = run_dijkstra(&mut m);
    assert!(!j.is_solved());
    assert!(j.is_exhausted());
    let a = run_a_star(&mut m);
    assert!(!a.is_solved());
    assert!(a.is_exhausted());
    assert_eq!(a.traversed_cells(), 1);
}

#[test]
fn single_cell_search_solves_without_traversal() {
    let mut rng = StdRng::seed_from_u64(2);
    let mut m = create_maze(1, 1, &mut rng);
    let s = run_dfs(&mut m);
    assert!(s.is_solved());
    assert_eq!(s.get_path(&m), vec![(0, 0)]);
    assert_eq!(s.traversed_cells(), 0);
    assert_eq!(s.get_accuracy(&m), (1, 1));
    let j = run_dijkstra(&mut m);
    assert_eq!(j.get_path(&m), vec![(0, 0)]);
    assert_eq!(j.get_accuracy(&m), (1, 1));
    let a = run_a_star(&mut m);
    assert_eq!(a.get_path(&m), vec![(0, 0)]);
    let (n, d) = a.get_accuracy(&m);
    let acc = n as f32 / d as f32;
    assert!(acc.is_finite());
    assert_eq!(acc, 1.0);
    assert_eq!(m.cells, vec![CellState::START]);
}

#[test]
fn accuracy_is_path_over_traversed() {
    let mut m = open_grid(3, 1, (0, 0), (2, 0));
    let s = run_dfs(&mut m);
    assert_eq!(s.get_path(&m), vec![(0, 0), (1, 0), (2, 0)]);
    assert_eq!(s.traversed_cells(), 2);
    assert_eq!(s.get_accuracy(&m), (3, 2));
}

#[test]
fn accuracy_fraction_guards_zero_traversal() {
    assert_eq!(accuracy_fraction(5, 10), (5, 10));
    assert_eq!(accuracy_fraction(1, 0), (1, 1));
    assert_eq!(accuracy_fraction(0, 0), (0, 1));
    assert_eq!(accuracy_fraction(0, 3), (0, 3));
}

#[test]
fn depth_first_marks_expanded_cells_explored() {
    let mut m = open_grid(3, 1, (0, 0), (2, 0));
    let mut s = DFS::new(&m);
    s.iterate(&mut m);
    assert_eq!(s.traversed_cells(), 1);
    assert_eq!(m.cells, vec![CellState::START, CellState::UNEXPLORED, CellState::END]);
    s.iterate(&mut m);
    assert_eq!(m.cells, vec![CellState::START, CellState::EXPLORED, CellState::END]);
    s.iterate(&mut m);
    assert!(s.is_solved());
}

#[test]
fn repeated_path_queries_agree_after_solving() {
    let mut rng = StdRng::seed_from_u64(21);
    let base = create_maze(15, 15, &mut rng);
    let mut m = Maze { cells: base.cells.clone(), ..base };
    let mut j = run_dijkstra(&mut m);
    let p1 = j.get_path(&m);
    j.iterate(&mut m);
    assert_eq!(j.get_path(&m), p1);
    assert_eq!(j.get_accuracy(&m).0, p1.len());
    let mut m2 = Maze { cells: m.cells.clone(), ..m };
    m2.reset_explored_paths();
    let mut a = run_a_star(&mut m2);
    let p2 = a.get_path(&m2);
    a.iterate(&mut m2);
    assert_eq!(a.get_path(&m2), p2);
    assert_eq!(a.get_accuracy(&m2).0, p2.len());
}

#[test]
fn depth_first_path_repeats_no_cell() {
    for seed in 0..10u64 {
        let mut rng = StdRng::seed_from_u64(seed);
        let mut m = create_maze(17, 17, &mut rng);
        let s = run_dfs(&mut m);
        let p = s.get_path(&m);
        let mut seen = std::collections::HashSet::new();
        for c in &p {
            assert!(seen.insert(*c));
        }
    }
}

#[test]
fn each_step_changes_at_most_one_cell() {
    let mut rng = StdRng::seed_from_u64(4);
    let mut m = create_maze(11, 11, &mut rng);
    let mut s = AStar::new(&m);
    while !s.is_solved() && !s.is_exhausted() {
        let before = m.cells.clone();
        s.iterate(&mut m);
        let changed = before.iter().zip(m.cells.iter()).filter(|(a, b)| a != b).count();
        assert!(changed <= 1);
    }
    assert!(s.is_solved());
}

#[test]
fn solver_enum_runs_each_search() {
    for kind in 0..3 {
        let mut m = open_grid(4, 3, (0, 0), (3, 2));
        let mut s = match kind {
            0 => Solver::AStar(AStar::new(&m)),
            1 => Solver::Dfs(DFS::new(&m)),
            _ => Solver::Djikstras(Djikstras::new(&m)),
        };
        while !s.is_solved() {
            s.iterate(&mut m);
        }
        let p = s.get_path(&m);
        assert_route(&m, &p);
        if kind != 1 {
            assert_eq!(p.len(), 6);
        }
        let fresh = s.get_new_solver(&m);
        assert!(!fresh.is_solved());
        assert_eq!(fresh.traversed_cells(), 0);
    }
}

#[test]
fn solver_reports_exhaustion_on_a_walled_off_end() {
    let mut m = open_grid(3, 1, (0, 0), (2, 0));
    m.cells[1] = CellState::WALL;
    let mut s = Solver::Dfs(DFS::new(&m));
    assert!(!s.is_exhausted());
    while !s.is_solved() && !s.is_exhausted() {
        s.iterate(&mut m);
    }
    assert!(s.is_exhausted());
    assert!(!s.is_solved());
    assert!(s.get_path(&m).is_empty());
}
