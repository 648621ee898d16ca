//! The grid of cells that generation builds and the searches relabel.
use vstd::prelude::*;
use crate::walks::{open_in, reachable};

verus! {

/// A grid coordinate, `(x, y)`.
pub type Coord = (usize, usize);

/// What a single cell of the grid currently shows.
#[derive(Debug, Hash, PartialEq, Eq, Clone, Copy, Structural)]
pub enum CellState {
    START,
    UNEXPLORED,
    EXPLORED,
    WALL,
    PATH,
    END,
}

/// One cell as handed to a renderer: where it is and what it shows.
pub struct Cell {
    pub position: (usize, usize),
    pub type_: CellState,
}

/// The side length of one rendered cell, in pixels.
pub struct CellSize(pub usize);

/// A `width` x `height` grid stored row by row, with its start and end cells.
pub struct Maze {
    pub start: Coord,
    pub end: Coord,
    pub width: usize,
    pub height: usize,
    pub cells: Vec<CellState>,
}

/// Row-major position of `(x, y)` in a grid `w` cells wide.
pub open spec fn index_of(w: int, x: int, y: int) -> int {
    y * w + x
}

/// `(x, y)` lies inside a `w` x `h` grid.
pub open spec fn in_grid(w: int, h: int, x: int, y: int) -> bool {
    0 <= x < w && 0 <= y < h
}

pub proof fn lemma_index_in_range(w: int, h: int, x: int, y: int)
    requires
        in_grid(w, h, x, y),
    ensures
        0 <= index_of(w, x, y) < w * h,
{
    assert(0 <= y * w) by (nonlinear_arith)
        requires
            0 <= y,
            0 < w,
    ;
    assert(y * w + x < w * h) by (nonlinear_arith)
        requires
            0 <= x < w,
            0 <= y < h,
    ;
}

pub proof fn lemma_index_injective(w: int, h: int, x1: int, y1: int, x2: int, y2: int)
    requires
        in_grid(w, h, x1, y1),
        in_grid(w, h, x2, y2),
        index_of(w, x1, y1) == index_of(w, x2, y2),
    ensures
        x1 == x2,
        y1 == y2,
{
    if y1 < y2 {
        assert(y1 * w + w <= y2 * w) by (nonlinear_arith)
            requires
                y1 < y2,
                0 < w,
        ;
    } else if y2 < y1 {
        assert(y2 * w + w <= y1 * w) by (nonlinear_arith)
            requires
                y2 < y1,
                0 < w,
        ;
    }
}

impl Maze {
    pub open spec fn in_bounds(&self, p: (int, int)) -> bool {
        in_grid(self.width as int, self.height as int, p.0, p.1)
    }

    /// The state of the cell at `(x, y)`.
    pub open spec fn cell(&self, x: int, y: int) -> CellState {
        self.cells@[index_of(self.width as int, x, y)]
    }

    /// The dimensions are positive and the cell sequence has one entry per cell.
    pub open spec fn dims_ok(&self) -> bool {
        &&& self.width > 0
        &&& self.height > 0
        &&& self.width * self.height <= usize::MAX
        &&& self.cells@.len() == self.width * self.height
    }

    /// A usable grid: sound dimensions, start and end inside it, exactly one
    /// `START` cell (at `start`) and exactly one `END` cell (at `end`), except
    /// that a grid whose end is its start shows only the `START` cell.
    pub open spec fn wf(&self) -> bool {
        &&& self.dims_ok()
        &&& self.in_bounds((self.start.0 as int, self.start.1 as int))
        &&& self.in_bounds((self.end.0 as int, self.end.1 as int))
        &&& forall|x: int, y: int|
            #![trigger self.cell(x, y)]
            self.in_bounds((x, y)) ==> (self.cell(x, y) == CellState::START <==> (x
                == self.start.0 && y == self.start.1))
        &&& forall|x: int, y: int|
            #![trigger self.cell(x, y)]
            self.in_bounds((x, y)) ==> (self.cell(x, y) == CellState::END <==> (x == self.end.0
                && y == self.end.1 && self.start != self.end))
    }

    /// One flag per cell, `true` where the cell is a wall.
    pub open spec fn wall_map(&self) -> Seq<bool> {
        self.cells@.map_values(|c: CellState| c == CellState::WALL)
    }

    /// The cells once the cell at `c` is marked `EXPLORED`; a wall, the start
    /// and the end keep their marks.
    pub open spec fn cells_explored_at(&self, c: Coord) -> Seq<CellState> {
        let s = self.cell(c.0 as int, c.1 as int);
        if s == CellState::WALL || s == CellState::START || s == CellState::END {
            self.cells@
        } else {
            self.cells@.update(index_of(self.width as int, c.0 as int, c.1 as int), CellState::EXPLORED)
        }
    }

    /// At most one cell differs from `before`.
    pub open spec fn at_most_one_changed(&self, before: Maze) -> bool {
        forall|i: int, j: int|
            0 <= i < self.cells@.len() && 0 <= j < self.cells@.len() && i != j && #[trigger] self.cells@[i]
                != before.cells@[i] ==> #[trigger] self.cells@[j] == before.cells@[j]
    }

    /// Every open cell can be reached from the start cell.
    pub open spec fn connected(&self) -> bool {
        forall|c: Coord|
            #[trigger] open_in(self.wall_map(), self.width as int, self.height as int, c) ==> reachable(
                self.wall_map(),
                self.width as int,
                self.height as int,
                self.start,
                c,
            )
    }

    /// `self` is `before` with some open cells relabelled `EXPLORED`: the
    /// dimensions, start, end and walls are the same, and the start and end
    /// cells keep their marks.
    pub open spec fn explored_from(&self, before: Maze) -> bool {
        &&& self.width == before.width
        &&& self.height == before.height
        &&& self.start == before.start
        &&& self.end == before.end
        &&& self.wall_map() == before.wall_map()
        &&& self.cells@.len() == before.cells@.len()
        &&& forall|i: int|
            0 <= i < self.cells@.len() ==> #[trigger] self.cells@[i] == before.cells@[i] || (
            self.cells@[i] == CellState::EXPLORED && before.cells@[i] != CellState::START
                && before.cells@[i] != CellState::END && before.cells@[i] != CellState::WALL)
    }

    /// The start and end cells of a usable grid are open.
    pub proof fn lemma_start_end_open(&self)
        requires
            self.wf(),
        ensures
            open_in(self.wall_map(), self.width as int, self.height as int, self.start),
            open_in(self.wall_map(), self.width as int, self.height as int, self.end),
    {
        let w = self.width as int;
        let h = self.height as int;
        lemma_index_in_range(w, h, self.start.0 as int, self.start.1 as int);
        lemma_index_in_range(w, h, self.end.0 as int, self.end.1 as int);
        assert(self.cell(self.start.0 as int, self.start.1 as int) == CellState::START);
        let e = self.cell(self.end.0 as int, self.end.1 as int);
        assert(e == CellState::END || e == CellState::START);
    }

    /// Whether the grid is usable (see `wf`).
    pub fn is_valid(&self) -> (r: bool)
        ensures
            r == self.wf(),
    {
        if self.width == 0 || self.height == 0 {
            return false;
        }
        if self.width > usize::MAX / self.height {
            proof {
                assert(self.width * self.height > usize::MAX) by (nonlinear_arith)
                    requires
                        self.width > usize::MAX / self.height,
                        self.height > 0,
                ;
            }
            return false;
        }
        proof {
            assert(self.width * self.height <= usize::MAX) by (nonlinear_arith)
                requires
                    self.width <= usize::MAX / self.height,
                    self.height > 0,
            ;
        }
        if self.cells.len() != self.width * self.height {
            return false;
        }
        if self.start.0 >= self.width || self.start.1 >= self.height || self.end.0 >= self.width
            || self.end.1 >= self.height {
            return false;
        }
        let same = self.start.0 == self.end.0 && self.start.1 == self.end.1;
        let ghost w = self.width as int;
        let ghost h = self.height as int;
        let mut y: usize = 0;
        while y < self.height
            invariant
                self.dims_ok(),
                w == self.width,
                h == self.height,
                0 <= y <= h,
                same == (self.start == self.end),
                forall|a: int, b: int|
                    #![trigger self.cell(a, b)]
                    0 <= a < w && 0 <= b < y ==> (self.cell(a, b) == CellState::START <==> (a
                        == self.start.0 && b == self.start.1)) && (self.cell(a, b) == CellState::END
                        <==> (a == self.end.0 && b == self.end.1 && self.start != self.end)),
            decreases h - y,
        {
            let mut x: usize = 0;
            while x < self.width
                invariant
                    self.dims_ok(),
                    w == self.width,
                    h == self.height,
                    0 <= y < h,
                    0 <= x <= w,
                    same == (self.start == self.end),
                    forall|a: int, b: int|
                        #![trigger self.cell(a, b)]
                        0 <= a < w && 0 <= b < y ==> (self.cell(a, b) == CellState::START <==> (a
                            == self.start.0 && b == self.start.1)) && (self.cell(a, b)
                            == CellState::END <==> (a == self.end.0 && b == self.end.1 && self.start
                            != self.end)),
                    forall|a: int|
                        #![trigger self.cell(a, y as int)]
                        0 <= a < x ==> (self.cell(a, y as int) == CellState::START <==> (a
                            == self.start.0 && y == self.start.1)) && (self.cell(a, y as int)
                            == CellState::END <==> (a == self.end.0 && y == self.end.1 && self.start
                            != self.end)),
                decreases w - x,
            {
                let c = *self.get(x, y);
                let is_start = x == self.start.0 && y == self.start.1;
                let is_end = x == self.end.0 && y == self.end.1 && !same;
                if (c == CellState::START) != is_start || (c == CellState::END) != is_end {
                    return false;
                }
                x += 1;
            }
            y += 1;
        }
        true
    }

    /// Relabelling open cells `EXPLORED` keeps every open cell reachable from
    /// the start.
    pub proof fn lemma_explored_keeps_connected(&self, before: Maze)
        requires
            before.connected(),
            self.explored_from(before),
        ensures
            self.connected(),
    {
    }

    /// The state of the cell at `(x, y)`.
    pub fn get(&self, x: usize, y: usize) -> (r: &CellState)
        requires
            self.dims_ok(),
            x < self.width,
            y < self.height,
        ensures
            *r == self.cell(x as int, y as int),
    {
        proof {
            lemma_index_in_range(self.width as int, self.height as int, x as int, y as int);
        }
        &self.cells[y * self.width + x]
    }

    /// Relabels the cell at `(x, y)`; every other cell and field is kept.
    pub fn set(&mut self, x: usize, y: usize, state: CellState)
        requires
            old(self).dims_ok(),
            x < old(self).width,
            y < old(self).height,
        ensures
            final(self).cells@ == old(self).cells@.update(
                index_of(old(self).width as int, x as int, y as int),
                state,
            ),
            final(self).dims_ok(),
            final(self).width == old(self).width,
            final(self).height == old(self).height,
            final(self).start == old(self).start,
            final(self).end == old(self).end,
    {
        proof {
            lemma_index_in_range(self.width as int, self.height as int, x as int, y as int);
        }
        let i = y * self.width + x;
        self.cells.set(i, state);
    }

    /// Marks the cell at `(x, y)` `EXPLORED`, unless it is a wall, the start
    /// or the end, which are kept. The walls, the start and the end cells stay
    /// as they were.
    pub fn explore(&mut self, x: usize, y: usize)
        requires
            old(self).wf(),
            x < old(self).width,
            y < old(self).height,
        ensures
            final(self).wf(),
            final(self).wall_map() == old(self).wall_map(),
            final(self).width == old(self).width,
            final(self).height == old(self).height,
            final(self).start == old(self).start,
            final(self).end == old(self).end,
            final(self).cells@ == old(self).cells_explored_at((x, y)),
    {
        let c = *self.get(x, y);
        if c != CellState::WALL && c != CellState::START && c != CellState::END {
            let ghost m0 = *self;
            self.set(x, y, CellState::EXPLORED);
            proof {
                let w = self.width as int;
                let h = self.height as int;
                lemma_index_in_range(w, h, x as int, y as int);
                assert(self.wall_map() =~= m0.wall_map());
                assert forall|a: int, b: int| #[trigger] self.in_bounds((a, b)) implies (self.cell(a, b)
                    == CellState::START <==> (a == self.start.0 && b == self.start.1)) && (self.cell(a, b)
                    == CellState::END <==> (a == self.end.0 && b == self.end.1 && self.start != self.end)) by {
                    lemma_index_in_range(w, h, a, b);
                    if index_of(w, a, b) == index_of(w, x as int, y as int) {
                        lemma_index_injective(w, h, a, b, x as int, y as int);
                    }
                    assert(m0.in_bounds((a, b)));
                    let c0 = m0.cell(a, b);
                    assert(c0 == CellState::START <==> (a == self.start.0 && b == self.start.1));
                    assert(c0 == CellState::END <==> (a == self.end.0 && b == self.end.1 && self.start != self.end));
                }
            }
        }
    }

    /// Turns every `EXPLORED` or `PATH` cell back into `UNEXPLORED`.
    pub fn reset_explored_paths(&mut self)
        ensures
            final(self).cells@.len() == old(self).cells@.len(),
            forall|i: int|
                0 <= i < old(self).cells@.len() ==> final(self).cells@[i] == reset_state(
                    old(self).cells@[i],
                ),
            final(self).width == old(self).width,
            final(self).height == old(self).height,
            final(self).start == old(self).start,
            final(self).end == old(self).end,
    {
        let n = self.cells.len();
        let mut i: usize = 0;
        while i < n
            invariant
                n == old(self).cells@.len(),
                self.cells@.len() == n,
                0 <= i <= n,
                forall|j: int| 0 <= j < i ==> self.cells@[j] == reset_state(old(self).cells@[j]),
                forall|j: int| i <= j < n ==> self.cells@[j] == old(self).cells@[j],
                self.width == old(self).width,
                self.height == old(self).height,
                self.start == old(self).start,
                self.end == old(self).end,
            decreases n - i,
        {
            let c = self.cells[i];
            if c == CellState::EXPLORED || c == CellState::PATH {
                self.cells.set(i, CellState::UNEXPLORED);
            }
            i += 1;
        }
    }
}

/// What the cell at `c` shows once `path` is drawn over a grid that showed
/// `before` there: the start and end keep their marks, path cells become
/// `PATH`, explored cells off the path go back to `UNEXPLORED`.
pub open spec fn traced_state(m: Maze, path: Seq<Coord>, c: Coord, before: CellState) -> CellState {
    if c == m.start {
        CellState::START
    } else if c == m.end {
        CellState::END
    } else if path.contains(c) {
        CellState::PATH
    } else if before == CellState::EXPLORED {
        CellState::UNEXPLORED
    } else {
        before
    }
}

/// Draws a found path over the grid: explored cells are cleared, the cells
/// of `path` are marked `PATH`, and the start and end cells keep their marks.
pub fn trace_path(path: &Vec<Coord>, maze: &mut Maze)
    requires
        old(maze).wf(),
        forall|i: int|
            0 <= i < path@.len() ==> (#[trigger] path@[i]).0 < old(maze).width && path@[i].1 < old(
                maze,
            ).height,
    ensures
        final(maze).width == old(maze).width,
        final(maze).height == old(maze).height,
        final(maze).start == old(maze).start,
        final(maze).end == old(maze).end,
        final(maze).cells@.len() == old(maze).cells@.len(),
        forall|x: int, y: int|
            #![trigger final(maze).cell(x, y)]
            old(maze).in_bounds((x, y)) ==> final(maze).cell(x, y) == traced_state(
                *old(maze),
                path@,
                (x as usize, y as usize),
                old(maze).cell(x, y),
            ),
{
    let ghost m0 = *maze;
    let ghost w = maze.width as int;
    let ghost h = maze.height as int;
    let mut y: usize = 0;
    while y < maze.height
        invariant
            maze.dims_ok(),
            maze.width == m0.width,
            maze.height == m0.height,
            maze.start == m0.start,
            maze.end == m0.end,
            w == maze.width,
            h == maze.height,
            0 <= y <= h,
            forall|a: int, b: int|
                #![trigger maze.cell(a, b)]
                0 <= a < w && 0 <= b < h ==> maze.cell(a, b) == if b < y && m0.cell(a, b)
                    == CellState::EXPLORED {
                    CellState::UNEXPLORED
                } else {
                    m0.cell(a, b)
                },
        decreases h - y,
    {
        let mut x: usize = 0;
        while x < maze.width
            invariant
                maze.dims_ok(),
                maze.width == m0.width,
                maze.height == m0.height,
                maze.start == m0.start,
                maze.end == m0.end,
                w == maze.width,
                h == maze.height,
                0 <= y < h,
                0 <= x <= w,
                forall|a: int, b: int|
                    #![trigger maze.cell(a, b)]
                    0 <= a < w && 0 <= b < h ==> maze.cell(a, b) == if (b < y || (b == y && a < x))
                        && m0.cell(a, b) == CellState::EXPLORED {
                        CellState::UNEXPLORED
                    } else {
                        m0.cell(a, b)
                    },
            decreases w - x,
        {
            if *maze.get(x, y) == CellState::EXPLORED {
                let ghost mb = *maze;
                maze.set(x, y, CellState::UNEXPLORED);
                proof {
                    assert forall|a: int, b: int| 0 <= a < w && 0 <= b < h implies #[trigger] maze.cell(a, b)
                        == if (b < y || (b == y && a <= x)) && m0.cell(a, b) == CellState::EXPLORED {
                        CellState::UNEXPLORED
                    } else {
                        m0.cell(a, b)
                    } by {
                        lemma_index_in_range(w, h, a, b);
                        if index_of(w, a, b) == index_of(w, x as int, y as int) {
                            lemma_index_injective(w, h, a, b, x as int, y as int);
                        } else {
                            lemma_index_in_range(w, h, x as int, y as int);
                        }
                        assert(mb.cell(a, b) == if (b < y || (b == y && a < x)) && m0.cell(a, b)
                            == CellState::EXPLORED {
                            CellState::UNEXPLORED
                        } else {
                            m0.cell(a, b)
                        });
                    }
                }
            }
            x += 1;
        }
        y += 1;
    }
    let ghost m1 = *maze;
    let mut i: usize = 0;
    while i < path.len()
        invariant
            maze.dims_ok(),
            maze.width == m0.width,
            maze.height == m0.height,
            maze.start == m0.start,
            maze.end == m0.end,
            w == maze.width,
            h == maze.height,
            0 <= i <= path@.len(),
            forall|j: int|
                0 <= j < path@.len() ==> (#[trigger] path@[j]).0 < m0.width && path@[j].1 < m0.height,
            forall|a: int, b: int|
                #![trigger maze.cell(a, b)]
                0 <= a < w && 0 <= b < h ==> maze.cell(a, b) == if path@.subrange(0, i as int).contains(
                    (a as usize, b as usize),
                ) {
                    CellState::PATH
                } else {
                    m1.cell(a, b)
                },
        decreases path@.len() - i,
    {
        let (px, py) = path[i];
        let ghost mb = *maze;
        maze.set(px, py, CellState::PATH);
        proof {
            assert forall|a: int, b: int| 0 <= a < w && 0 <= b < h implies #[trigger] maze.cell(a, b)
                == if path@.subrange(0, i + 1).contains((a as usize, b as usize)) {
                CellState::PATH
            } else {
                m1.cell(a, b)
            } by {
                lemma_index_in_range(w, h, a, b);
                let pre = path@.subrange(0, i as int);
                let post = path@.subrange(0, i + 1);
                assert(post =~= pre.push(path@[i as int]));
                if index_of(w, a, b) == index_of(w, px as int, py as int) {
                    lemma_index_injective(w, h, a, b, px as int, py as int);
                    assert(post[i as int] == (a as usize, b as usize));
                } else {
                    lemma_index_in_range(w, h, px as int, py as int);
                    assert(mb.cell(a, b) == maze.cell(a, b));
                    if post.contains((a as usize, b as usize)) {
                        let k = choose|k: int| 0 <= k < post.len() && post[k] == (a as usize, b as usize);
                        if k < i {
                            assert(pre[k] == post[k]);
                        }
                    }
                    if pre.contains((a as usize, b as usize)) {
                        let k = choose|k: int| 0 <= k < pre.len() && pre[k] == (a as usize, b as usize);
                        assert(post[k] == pre[k]);
                    }
                }
            }
        }
        i += 1;
    }
    proof {
        assert(path@.subrange(0, path@.len() as int) =~= path@);
        lemma_index_in_range(w, h, maze.end.0 as int, maze.end.1 as int);
        lemma_index_in_range(w, h, maze.start.0 as int, maze.start.1 as int);
    }
    let ghost m2 = *maze;
    let end = maze.end;
    let start = maze.start;
    maze.set(end.0, end.1, CellState::END);
    let ghost m3 = *maze;
    maze.set(start.0, start.1, CellState::START);
    proof {
        assert forall|x: int, y: int| #[trigger] m0.in_bounds((x, y)) implies maze.cell(x, y)
            == traced_state(m0, path@, (x as usize, y as usize), m0.cell(x, y)) by {
            lemma_index_in_range(w, h, x, y);
            let ci = index_of(w, x, y);
            let si = index_of(w, start.0 as int, start.1 as int);
            let ei = index_of(w, end.0 as int, end.1 as int);
            if ci == si {
                lemma_index_injective(w, h, x, y, start.0 as int, start.1 as int);
            } else if ci == ei {
                lemma_index_injective(w, h, x, y, end.0 as int, end.1 as int);
                assert(m3.cell(x, y) == CellState::END);
            } else {
                assert(maze.cell(x, y) == m2.cell(x, y));
                assert(m2.cell(x, y) == if path@.contains((x as usize, y as usize)) {
                    CellState::PATH
                } else {
                    m1.cell(x, y)
                });
                assert((x as usize, y as usize) != start);
                assert((x as usize, y as usize) != end);
            }
        }
    }
}

/// What a cell shows after explored and path marks are cleared.
pub open spec fn reset_state(c: CellState) -> CellState {
    match c {
        CellState::EXPLORED | CellState::PATH => CellState::UNEXPLORED,
        _ => c,
    }
}

} // verus!
