use maze_solver::walks::{copy_path, neighbour, reversed};
use maze_solver::{trace_path, CellState, Maze};

fn open_grid(width: usize, height: usize, start: (usize, usize), end: (usize, usize)) -> Maze {
    let mut cells = vec![CellState::UNEXPLORED; width * height];
    cells[start.1 * width + start.0] = CellState::START;
    if start != end {
        cells[end.1 * width + end.0] = CellState::END;
    }
    Maze { start, end, width, height, cells }
}

#[test]
fn get_reads_row_major_cells() {
    let mut m = open_grid(3, 2, (0, 0), (2, 1));
    m.cells[1 * 3 + 1] = CellState::WALL;
    assert_eq!(*m.get(1, 1), CellState::WALL);
    assert_eq!(*m.get(0, 0), CellState::START);
    assert_eq!(*m.get(2, 1), CellState::END);
    assert_eq!(*m.get(1, 0), CellState::UNEXPLORED);
}

#[test]
fn set_changes_one_cell() {
    let mut m = open_grid(3, 3, (0, 0), (2, 2));
    m.set(2, 0, CellState::WALL);
    assert_eq!(m.cells[2], CellState::WALL);
    let walls = m.cells.iter().filter(|c| **c == CellState::WALL).count();
    assert_eq!(walls, 1);
    assert_eq!(*m.get(0, 2), CellState::UNEXPLORED);
}

#[test]
fn reset_clears_explored_and_path_only() {
    let mut m = open_grid(3, 1, (0, 0), (2, 0));
    m.cells[1] = CellState::EXPLORED;
    let mut n = open_grid(4, 1, (0, 0), (3, 0));
    n.cells[1] = CellState::PATH;
    n.cells[2] = CellState::WALL;
    m.reset_explored_paths();
    n.reset_explored_paths();
    assert_eq!(m.cells, vec![CellState::START, CellState::UNEXPLORED, CellState::END]);
    assert_eq!(
        n.cells,
        vec![CellState::START, CellState::UNEXPLORED, CellState::WALL, CellState::END]
    );
}

#[test]
fn is_valid_accepts_a_sound_grid() {
    assert!(open_grid(3, 3, (0, 0), (2, 2)).is_valid());
    assert!(open_grid(1, 1, (0, 0), (0, 0)).is_valid());
}

#[test]
fn is_valid_rejects_broken_grids() {
    let mut two_starts = open_grid(3, 3, (0, 0), (2, 2));
    two_starts.cells[4] = CellState::START;
    assert!(!two_starts.is_valid());

    let mut no_end = open_grid(3, 3, (0, 0), (2, 2));
    no_end.cells[8] = CellState::UNEXPLORED;
    assert!(!no_end.is_valid());

    let mut short = open_grid(3, 3, (0, 0), (2, 2));
    short.cells.pop();
    assert!(!short.is_valid());

    let mut outside = open_grid(3, 3, (0, 0), (2, 2));
    outside.end = (3, 2);
    assert!(!outside.is_valid());

    let empty = Maze { start: (0, 0), end: (0, 0), width: 0, height: 0, cells: vec![] };
    assert!(!empty.is_valid());
}

#[test]
fn explore_keeps_start_end_and_walls() {
    let mut m = open_grid(3, 1, (0, 0), (2, 0));
    m.explore(0, 0);
    m.explore(1, 0);
    m.explore(2, 0);
    assert_eq!(m.cells, vec![CellState::START, CellState::EXPLORED, CellState::END]);
}

#[test]
fn trace_path_marks_path_and_clears_explored() {
    let mut m = open_grid(3, 2, (0, 0), (2, 0));
    m.cells[3] = CellState::EXPLORED;
    m.cells[4] = CellState::EXPLORED;
    m.cells[1] = CellState::EXPLORED;
    trace_path(&vec![(0, 0), (1, 0), (2, 0)], &mut m);
    assert_eq!(
        m.cells,
        vec![
            CellState::START,
            CellState::PATH,
            CellState::END,
            CellState::UNEXPLORED,
            CellState::UNEXPLORED,
            CellState::UNEXPLORED,
        ]
    );
}

#[test]
fn trace_path_keeps_start_when_it_is_the_end() {
    let mut m = open_grid(1, 1, (0, 0), (0, 0));
    trace_path(&vec![(0, 0)], &mut m);
    assert_eq!(m.cells, vec![CellState::START]);
}

#[test]
fn neighbours_follow_down_up_right_left() {
    assert_eq!(neighbour((1, 1), 0, 3, 3), Some((1, 2)));
    assert_eq!(neighbour((1, 1), 1, 3, 3), Some((1, 0)));
    assert_eq!(neighbour((1, 1), 2, 3, 3), Some((2, 1)));
    assert_eq!(neighbour((1, 1), 3, 3, 3), Some((0, 1)));
    assert_eq!(neighbour((0, 0), 1, 3, 3), None);
    assert_eq!(neighbour((0, 0), 3, 3, 3), None);
    assert_eq!(neighbour((2, 2), 0, 3, 3), None);
    assert_eq!(neighbour((2, 2), 2, 3, 3), None);
}

#[test]
fn copy_and_reverse_paths() {
    let p = vec![(0, 0), (1, 0), (1, 1)];
    assert_eq!(copy_path(&p), p);
    assert_eq!(reversed(&p), vec![(1, 1), (1, 0), (0, 0)]);
    assert!(reversed(&vec![]).is_empty());
}
