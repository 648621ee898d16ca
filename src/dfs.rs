//! Depth-first search, one popped cell per step.
use vstd::prelude::*;
use crate::maze::{Coord, CellState, Maze, in_grid, index_of, lemma_index_in_range, lemma_index_injective};
use crate::walks::{links, reachable, adjacent, dir_of, lemma_dir_of, open_in, shortest_walk_len, lemma_route_not_shorter, neighbour, step_of, copy_path, lemma_links_push, lemma_links_single};
use crate::accuracy::{accuracy_of, accuracy_fraction};
use crate::djikstras::lemma_first_unexplored;
use crate::counting::{count_true, lemma_count_true_set, lemma_count_true_none, lemma_count_true_le};

verus! {

/// The entries that expanding `u`, reached by the walk `p`, stacks after
/// trying its first `k` neighbours (down, up, right, left): each open
/// neighbour not yet visited, with `p` extended by it.
pub open spec fn dfs_pushes(m: Maze, visited: Seq<bool>, u: Coord, p: Seq<Coord>, k: int) -> Seq<(Coord, Seq<Coord>)>
    decreases k,
{
    if k <= 0 {
        Seq::empty()
    } else {
        let rest = dfs_pushes(m, visited, u, p, k - 1);
        let st = step_of(u, k - 1);
        let w = m.width as int;
        if in_grid(w, m.height as int, st.0, st.1) && !m.wall_map()[index_of(w, st.0, st.1)]
            && !visited[index_of(w, st.0, st.1)] {
            let n: Coord = (st.0 as usize, st.1 as usize);
            rest.push((n, p.push(n)))
        } else {
            rest
        }
    }
}

/// Some stacked entry is for the cell `c`.
pub open spec fn stacked(f: Seq<(Coord, Seq<Coord>)>, c: Coord) -> bool {
    exists|j: int| 0 <= j < f.len() && (#[trigger] f[j]).0 == c
}

/// The cell `c` is owed a stack entry: it is open and not visited, and it
/// is the start or next to a visited cell.
pub open spec fn owed(m: Maze, v: Seq<bool>, c: Coord) -> bool {
    let w = m.width as int;
    let h = m.height as int;
    &&& open_in(m.wall_map(), w, h, c)
    &&& !v[index_of(w, c.0 as int, c.1 as int)]
    &&& (c == m.start || exists|b: Coord|
        in_grid(w, h, b.0 as int, b.1 as int) && adjacent(b, c) && #[trigger] v[index_of(w, b.0 as int, b.1 as int)])
}

/// Expanding a cell stacks at most one entry per direction tried.
proof fn lemma_pushes_len(m: Maze, v: Seq<bool>, u: Coord, p: Seq<Coord>, k: int)
    requires
        0 <= k,
    ensures
        dfs_pushes(m, v, u, p, k).len() <= k,
    decreases k,
{
    if k > 0 {
        lemma_pushes_len(m, v, u, p, k - 1);
    }
}

/// Expanding `u` stacks every open, unvisited neighbour among its first `k`
/// directions.
proof fn lemma_pushes_contain(m: Maze, v: Seq<bool>, u: Coord, p: Seq<Coord>, k: int, c: Coord)
    requires
        0 <= k <= 4,
        adjacent(u, c),
        dir_of(u, c) < k,
        open_in(m.wall_map(), m.width as int, m.height as int, c),
        !v[index_of(m.width as int, c.0 as int, c.1 as int)],
    ensures
        stacked(dfs_pushes(m, v, u, p, k), c),
    decreases k,
{
    lemma_dir_of(u, c);
    let prev = dfs_pushes(m, v, u, p, k - 1);
    if dir_of(u, c) == k - 1 {
        assert(step_of(u, k - 1) == (c.0 as int, c.1 as int));
        assert(dfs_pushes(m, v, u, p, k) == prev.push((c, p.push(c))));
        assert(dfs_pushes(m, v, u, p, k)[prev.len() as int].0 == c);
    } else {
        lemma_pushes_contain(m, v, u, p, k - 1, c);
        let j = choose|j: int| 0 <= j < prev.len() && (#[trigger] prev[j]).0 == c;
        let st = step_of(u, k - 1);
        if in_grid(m.width as int, m.height as int, st.0, st.1) && !m.wall_map()[index_of(m.width as int, st.0, st.1)]
            && !v[index_of(m.width as int, st.0, st.1)] {
            assert(dfs_pushes(m, v, u, p, k)[j] == prev[j]);
        }
    }
}

/// Every cell owed a stack entry has one.
#[verifier::opaque]
pub open spec fn covers(m: Maze, v: Seq<bool>, f: Seq<(Coord, Seq<Coord>)>) -> bool {
    forall|c: Coord| #[trigger] owed(m, v, c) ==> stacked(f, c)
}

proof fn lemma_covers_fresh(m: Maze, v: Seq<bool>, f: Seq<(Coord, Seq<Coord>)>)
    requires
        m.wf(),
        v.len() == m.width * m.height,
        forall|i: int| 0 <= i < v.len() ==> !v[i],
        f.len() == 1,
        f[0].0 == m.start,
    ensures
        covers(m, v, f),
{
    reveal(covers);
    assert forall|c: Coord| #[trigger] owed(m, v, c) implies stacked(f, c) by {
        if c != m.start {
            let b = choose|b: Coord|
                in_grid(m.width as int, m.height as int, b.0 as int, b.1 as int) && adjacent(b, c) && #[trigger] v[index_of(
                    m.width as int,
                    b.0 as int,
                    b.1 as int,
                )];
            lemma_index_in_range(m.width as int, m.height as int, b.0 as int, b.1 as int);
        }
        assert(f[0].0 == c);
    }
}

proof fn lemma_covers_skip(m: Maze, v: Seq<bool>, f: Seq<(Coord, Seq<Coord>)>)
    requires
        covers(m, v, f),
        f.len() > 0,
        v[index_of(m.width as int, f.last().0.0 as int, f.last().0.1 as int)],
    ensures
        covers(m, v, f.drop_last()),
{
    reveal(covers);
    assert forall|c: Coord| #[trigger] owed(m, v, c) implies stacked(f.drop_last(), c) by {
        let j = choose|j: int| 0 <= j < f.len() && (#[trigger] f[j]).0 == c;
        assert(f.drop_last()[j] == f[j]);
    }
}

proof fn lemma_covers_expand(
    m0: Maze,
    m1: Maze,
    v0: Seq<bool>,
    v1: Seq<bool>,
    f: Seq<(Coord, Seq<Coord>)>,
    u: Coord,
    p: Seq<Coord>,
)
    requires
        m0.wf(),
        covers(m0, v0, f),
        f.len() > 0,
        f.last() == (u, p),
        in_grid(m0.width as int, m0.height as int, u.0 as int, u.1 as int),
        v0.len() == m0.width * m0.height,
        v1 == v0.update(index_of(m0.width as int, u.0 as int, u.1 as int), true),
        m1.wall_map() == m0.wall_map(),
        m1.start == m0.start,
        m1.width == m0.width,
        m1.height == m0.height,
    ensures
        covers(m1, v1, f.drop_last() + dfs_pushes(m0, v1, u, p, 4)),
{
    reveal(covers);
    let w = m0.width as int;
    let h = m0.height as int;
    let ui = index_of(w, u.0 as int, u.1 as int);
    lemma_index_in_range(w, h, u.0 as int, u.1 as int);
    let rest = f.drop_last();
    let pushes = dfs_pushes(m0, v1, u, p, 4);
    let g = rest + pushes;
    assert forall|c: Coord| #[trigger] owed(m1, v1, c) implies stacked(g, c) by {
        lemma_index_in_range(w, h, c.0 as int, c.1 as int);
        let ci = index_of(w, c.0 as int, c.1 as int);
        if ci == ui {
            lemma_index_injective(w, h, c.0 as int, c.1 as int, u.0 as int, u.1 as int);
        }
        let near_u = c != m1.start && adjacent(u, c);
        if near_u {
            assert(adjacent(u, c));
            lemma_pushes_contain(m0, v1, u, p, 4, c);
            lemma_dir_of(u, c);
            let j = choose|j: int| 0 <= j < pushes.len() && (#[trigger] pushes[j]).0 == c;
            assert(g[rest.len() + j] == pushes[j]);
        } else {
            if c != m1.start {
                let b = choose|b: Coord|
                    in_grid(w, h, b.0 as int, b.1 as int) && adjacent(b, c) && #[trigger] v1[index_of(w, b.0 as int, b.1 as int)];
                lemma_index_in_range(w, h, b.0 as int, b.1 as int);
                if index_of(w, b.0 as int, b.1 as int) == ui {
                    lemma_index_injective(w, h, b.0 as int, b.1 as int, u.0 as int, u.1 as int);
                    assert(adjacent(u, c));
                }
                assert(v0[index_of(w, b.0 as int, b.1 as int)]);
            }
            assert(owed(m0, v0, c));
            let j = choose|j: int| 0 <= j < f.len() && (#[trigger] f[j]).0 == c;
            assert(j != f.len() - 1);
            assert(g[j] == f[j]);
        }
    }
}

/// A stacked entry is sound: its walk leads from the start to its cell
/// through open cells, repeats no cell, and every cell before its last has
/// been visited.
spec fn entry_ok(e: (usize, usize, Vec<Coord>), m: Maze, visited: Seq<bool>) -> bool {
    let w = m.width as int;
    &&& links(m.wall_map(), w, m.height as int, e.2@, m.start, (e.0, e.1))
    &&& e.2@.no_duplicates()
    &&& forall|i: int|
        0 <= i < e.2@.len() - 1 ==> visited[index_of(w, (#[trigger] e.2@[i]).0 as int, e.2@[i].1 as int)]
}

/// Depth-first search. Each stacked entry carries the walk that reached it;
/// a cell is pushed only while it is unvisited, and of several entries for
/// one cell only the first one popped is expanded.
pub struct DFS {
    stack: Vec<(usize, usize, Vec<Coord>)>,
    path: Option<Vec<Coord>>,
    visited: Vec<bool>,
    traversed_cells: usize,
}

impl DFS {
    /// The search state is sound for `m`: every stacked walk and the found
    /// path lead through open cells of `m` from its start, and the counter
    /// counts the visited cells.
    pub closed spec fn inv(&self, m: Maze) -> bool {
        let w = m.width as int;
        let h = m.height as int;
        &&& m.wf()
        &&& self.visited@.len() == m.width * m.height
        &&& self.traversed_cells == count_true(self.visited@)
        &&& forall|j: int|
            0 <= j < self.stack@.len() ==> entry_ok(#[trigger] self.stack@[j], m, self.visited@)
        &&& self.path.is_some() ==> links(m.wall_map(), w, h, self.path.unwrap()@, m.start, m.end)
        &&& self.path.is_some() ==> self.path.unwrap()@.no_duplicates()
        &&& !self.visited@[index_of(w, m.end.0 as int, m.end.1 as int)]
        &&& self.path.is_none() ==> covers(m, self.visited@, self.frontier())
    }

    /// The stacked entries, oldest first: each cell with the walk that
    /// reached it.
    pub closed spec fn frontier(&self) -> Seq<(Coord, Seq<Coord>)> {
        self.stack@.map_values(|e: (usize, usize, Vec<Coord>)| ((e.0, e.1), e.2@))
    }

    /// One flag per cell: whether it has been expanded.
    pub closed spec fn visited_flags(&self) -> Seq<bool> {
        self.visited@
    }

    /// The path found, once the end cell has been popped.
    pub closed spec fn found(&self) -> Option<Seq<Coord>> {
        match self.path {
            Some(p) => Some(p@),
            None => None,
        }
    }

    /// The number of cells expanded so far.
    pub closed spec fn traversed(&self) -> nat {
        self.traversed_cells as nat
    }

    /// The number of entries waiting on the stack.
    pub closed spec fn frontier_len(&self) -> nat {
        self.stack@.len()
    }

    /// Whether the cell at `c` has been expanded.
    pub closed spec fn is_visited(&self, m: Maze, c: Coord) -> bool {
        self.visited@[index_of(m.width as int, c.0 as int, c.1 as int)]
    }

    /// The state of a search that has not begun on `m`: only the start cell
    /// is stacked, nothing is visited or found.
    pub open spec fn fresh(&self, m: Maze) -> bool {
        &&& self.frontier() == seq![(m.start, seq![m.start])]
        &&& self.found().is_none()
        &&& self.traversed() == 0
        &&& self.visited_flags() == Seq::new((m.width * m.height) as nat, |i: int| false)
    }

    /// The path that the depth-first search reports is never shorter than a
    /// shortest walk from the start to the end.
    pub proof fn lemma_path_not_shorter(&self, m: Maze, n: int)
        requires
            self.inv(m),
            self.found().is_some(),
            shortest_walk_len(m.wall_map(), m.width as int, m.height as int, m.start, m.end, n),
        ensures
            self.found().unwrap().len() >= n,
    {
        lemma_route_not_shorter(m.wall_map(), m.width as int, m.height as int, self.found().unwrap(), m.start, m.end, n);
    }

    /// A measure of the work left: five per unvisited cell, plus one per
    /// stacked entry. Each step that does not solve the search lowers it.
    pub open spec fn work_left(&self, m: Maze) -> int {
        5 * (m.width * m.height - self.traversed()) + self.frontier_len()
    }

    /// While unsolved, a search of a grid whose end is reachable from its
    /// start always has a stacked entry to pop.
    pub proof fn lemma_stack_nonempty(&self, m: Maze)
        requires
            self.inv(m),
            self.found().is_none(),
            reachable(m.wall_map(), m.width as int, m.height as int, m.start, m.end),
        ensures
            self.frontier_len() > 0,
    {
        let w = m.width as int;
        let h = m.height as int;
        let wm = m.wall_map();
        let v = self.visited@;
        let p = choose|p: Seq<Coord>| links(wm, w, h, p, m.start, m.end);
        let j = lemma_first_unexplored(v, w, p, 0);
        let c = p[j];
        assert(open_in(wm, w, h, c));
        if j > 0 {
            let b = p[j - 1];
            assert(adjacent(b, c));
            assert(open_in(wm, w, h, b));
            assert(v[index_of(w, b.0 as int, b.1 as int)]);
        }
        assert(owed(m, v, c));
        reveal(covers);
        assert(stacked(self.frontier(), c));
    }

    /// A search of `maze` that has not begun.
    pub fn new(maze: &Maze) -> (r: Self)
        requires
            maze.wf(),
        ensures
            r.fresh(*maze),
            r.inv(*maze),
            r.found().is_none(),
            r.traversed() == 0,
    {
        let n = maze.width * maze.height;
        let visited: Vec<bool> = vec![false; n];
        let mut first: Vec<Coord> = Vec::new();
        first.push(maze.start);
        let mut stack: Vec<(usize, usize, Vec<Coord>)> = Vec::new();
        stack.push((maze.start.0, maze.start.1, first));
        proof {
            lemma_index_in_range(maze.width as int, maze.height as int, maze.start.0 as int, maze.start.1 as int);
            maze.lemma_start_end_open();
            lemma_links_single(maze.wall_map(), maze.width as int, maze.height as int, maze.start);
            lemma_count_true_none(visited@);
            assert(visited@ =~= Seq::new((maze.width * maze.height) as nat, |i: int| false));
            assert(first@ =~= seq![maze.start]);
            assert(stack@.map_values(|e: (usize, usize, Vec<Coord>)| ((e.0, e.1), e.2@)) =~= seq![(maze.start, seq![maze.start])]);
            lemma_covers_fresh(*maze, visited@, seq![(maze.start, seq![maze.start])]);
            lemma_index_in_range(maze.width as int, maze.height as int, maze.end.0 as int, maze.end.1 as int);
        }
        DFS { stack, path: None, visited, traversed_cells: 0 }
    }

    /// A search of `maze` that has not begun, of the same kind as this one;
    /// this search is left as it is.
    pub fn get_new_solver(&mut self, maze: &Maze) -> (r: Self)
        requires
            maze.wf(),
        ensures
            *final(self) == *old(self),
            r.fresh(*maze),
            r.inv(*maze),
            r.found().is_none(),
            r.traversed() == 0,
    {
        DFS::new(maze)
    }

    /// The accuracy of the search so far: the cells on the path found over
    /// the cells expanded, as a fraction (see `accuracy_of`).
    pub fn get_accuracy(&self, maze: &Maze) -> (r: (usize, usize))
        requires
            self.inv(*maze),
        ensures
            r.1 > 0,
            !self.found().is_some() ==> (r.0 as nat, r.1 as nat) == accuracy_of(0, self.traversed()),
            self.found().is_some() ==> (r.0 as nat, r.1 as nat) == accuracy_of(
                self.found().unwrap().len(),
                self.traversed(),
            ),
    {
        let path = self.get_path(maze);
        accuracy_fraction(path.len(), self.traversed_cells)
    }

    /// Whether the end cell has been reached.
    pub fn is_solved(&self) -> (r: bool)
        ensures
            r == self.found().is_some(),
    {
        self.path.is_some()
    }

    /// The number of cells expanded so far.
    pub fn traversed_cells(&self) -> (r: usize)
        ensures
            r == self.traversed(),
    {
        self.traversed_cells
    }

    /// Whether no entry is left to pop.
    pub fn is_exhausted(&self) -> (r: bool)
        ensures
            r == (self.frontier_len() == 0),
    {
        self.stack.len() == 0
    }

    /// The walk from start to end that reached the end cell, or an empty
    /// sequence while the search is unsolved.
    pub fn get_path(&self, maze: &Maze) -> (r: Vec<Coord>)
        requires
            self.inv(*maze),
        ensures
            self.found().is_some() ==> r@ == self.found().unwrap(),
            self.found().is_some() ==> links(
                maze.wall_map(),
                maze.width as int,
                maze.height as int,
                r@,
                maze.start,
                maze.end,
            ),
            self.found().is_some() ==> r@.no_duplicates(),
            self.found().is_none() ==> r@.len() == 0,
    {
        match &self.path {
            Some(p) => copy_path(p),
            None => Vec::new(),
        }
    }

    /// What one call of `iterate` does: `s0` and `m0` before, `s1` and `m1`
    /// after.
    pub open spec fn step(s0: Self, s1: Self, m0: Maze, m1: Maze) -> bool {
        &&& (m1.explored_from(m0))
        &&& (m1.at_most_one_changed(m0))
        &&& (s0.found().is_some() || s0.frontier_len() == 0 ==> s1 == s0 && m1 == m0)
        &&& (s0.found().is_none() && s0.frontier_len() > 0 ==> ({
                let c = s0.frontier().last().0;
                let p = s0.frontier().last().1;
                let rest = s0.frontier().drop_last();
                if c == m0.end {
                    &&& s1.found() == Some(p)
                    &&& s1.frontier() == rest
                    &&& s1.visited_flags() == s0.visited_flags()
                    &&& s1.traversed() == s0.traversed()
                    &&& m1 == m0
                } else if s0.is_visited(m0, c) {
                    &&& s1.found().is_none()
                    &&& s1.frontier() == rest
                    &&& s1.visited_flags() == s0.visited_flags()
                    &&& s1.traversed() == s0.traversed()
                    &&& m1 == m0
                } else {
                    &&& s1.found().is_none()
                    &&& s1.visited_flags() == s0.visited_flags().update(
                        index_of(m0.width as int, c.0 as int, c.1 as int),
                        true,
                    )
                    &&& s1.traversed() == s0.traversed() + 1
                    &&& m1.cells@ == m0.cells_explored_at(c)
                    &&& s1.frontier() == rest + dfs_pushes(
                        m0,
                        s1.visited_flags(),
                        c,
                        p,
                        4,
                    )
                }
            }))
    }

    /// One step: pops the newest stacked entry. The end cell solves the
    /// search with the entry's walk; a cell already visited is dropped; any
    /// other cell is visited, counted and marked `EXPLORED`, and each open,
    /// unvisited neighbour (down, up, right, left) is stacked with the walk
    /// extended by it. Nothing happens once solved or with an empty stack.
    pub fn iterate(&mut self, maze: &mut Maze)
        requires
            old(self).inv(*old(maze)),
        ensures
            final(self).inv(*final(maze)),
            Self::step(*old(self), *final(self), *old(maze), *final(maze)),
            0 <= final(self).work_left(*final(maze)),
            old(self).found().is_none() && old(self).frontier_len() > 0 ==> final(self).found().is_some()
                || final(self).work_left(*final(maze)) < old(self).work_left(*old(maze)),
    {
        proof {
            lemma_count_true_le(self.visited@);
        }
        if self.path.is_some() || self.stack.len() == 0 {
            return;
        }
        let ghost m0 = *maze;
        let ghost w = maze.width as int;
        let ghost h = maze.height as int;
        let ghost s0 = self.stack@;
        let ghost v0 = self.visited@;
        let ghost f0 = self.frontier();
        let (x, y, path) = self.stack.pop().unwrap();
        proof {
            assert(s0[s0.len() - 1] == (x, y, path));
            assert(entry_ok(s0[s0.len() - 1], m0, v0));
            assert(self.frontier() =~= f0.drop_last());
            assert forall|j: int| 0 <= j < self.stack@.len() implies entry_ok(#[trigger] self.stack@[j], m0, v0) by {
                assert(self.stack@[j] == s0[j]);
            }
        }
        if x == maze.end.0 && y == maze.end.1 {
            self.path = Some(path);
            return;
        }
        proof {
            lemma_index_in_range(w, h, x as int, y as int);
        }
        let i = y * maze.width + x;
        if self.visited[i] {
            proof {
                lemma_covers_skip(m0, v0, f0);
                lemma_count_true_le(v0);
            }
            return;
        }
        maze.explore(x, y);
        let ghost m1 = *maze;
        proof {
            lemma_count_true_set(self.visited@, i as int);
            lemma_count_true_le(self.visited@.update(i as int, true));
        }
        self.visited.set(i, true);
        self.traversed_cells += 1;
        let ghost v1 = self.visited@;
        let ghost rest = self.frontier();
        proof {
            assert forall|j: int| 0 <= j < self.stack@.len() implies entry_ok(#[trigger] self.stack@[j], m1, v1) by {
                let e = self.stack@[j];
                assert(entry_ok(e, m0, v0));
                assert forall|q: int| 0 <= q < e.2@.len() - 1 implies v1[index_of(w, (#[trigger] e.2@[q]).0 as int, e.2@[q].1 as int)] by {
                    assert(v0[index_of(w, e.2@[q].0 as int, e.2@[q].1 as int)]);
                    assert(open_in(m0.wall_map(), w, h, e.2@[q]));
                    lemma_index_in_range(w, h, e.2@[q].0 as int, e.2@[q].1 as int);
                }
            }
            assert forall|q: int| 0 <= q < path@.len() implies v1[index_of(w, (#[trigger] path@[q]).0 as int, path@[q].1 as int)] by {
                assert(open_in(m0.wall_map(), w, h, path@[q]));
                lemma_index_in_range(w, h, path@[q].0 as int, path@[q].1 as int);
                if q < path@.len() - 1 {
                    assert(v0[index_of(w, path@[q].0 as int, path@[q].1 as int)]);
                } else {
                    assert(path@[q] == (x, y));
                }
            }
            assert(rest + dfs_pushes(m0, v1, (x, y), path@, 0) =~= rest);
            assert(maze.at_most_one_changed(m0));
        }
        let width = maze.width;
        let height = maze.height;
        let mut k: usize = 0;
        while k < 4
            invariant
                0 <= k <= 4,
                *maze == m1,
                m1.wf(),
                m1.explored_from(m0),
                m1.at_most_one_changed(m0),
                m1.cells@ == m0.cells_explored_at((x, y)),
                width == m1.width,
                height == m1.height,
                w == width,
                h == height,
                x < width,
                y < height,
                self.path.is_none(),
                self.visited@ == v1,
                v1.len() == width * height,
                self.traversed_cells == count_true(v1),
                self.traversed_cells == old(self).traversed_cells + 1,
                links(m1.wall_map(), w, h, path@, m1.start, (x, y)),
                path@.no_duplicates(),
                forall|q: int| 0 <= q < path@.len() ==> v1[index_of(w, (#[trigger] path@[q]).0 as int, path@[q].1 as int)],
                forall|j: int| 0 <= j < self.stack@.len() ==> entry_ok(#[trigger] self.stack@[j], m1, v1),
                self.frontier() == rest + dfs_pushes(m0, v1, (x, y), path@, k as int),
            decreases 4 - k,
        {
            match neighbour((x, y), k, width, height) {
                Some((nx, ny)) => {
                    proof {
                        lemma_index_in_range(w, h, nx as int, ny as int);
                    }
                    let ni = ny * width + nx;
                    assert(step_of((x, y), k as int) == (nx as int, ny as int));
                    if *maze.get(nx, ny) != CellState::WALL && !self.visited[ni] {
                        let mut new_path = copy_path(&path);
                        new_path.push((nx, ny));
                        let ghost s1 = self.stack@;
                        let ghost fr1 = self.frontier();
                        proof {
                            lemma_links_push(m1.wall_map(), w, h, path@, m1.start, (x, y), (nx, ny));
                            assert(!path@.contains((nx, ny))) by {
                                if path@.contains((nx, ny)) {
                                    let q = choose|q: int| 0 <= q < path@.len() && path@[q] == (nx, ny);
                                    assert(v1[index_of(w, path@[q].0 as int, path@[q].1 as int)]);
                                }
                            }
                            assert forall|a: int, b: int| 0 <= a < b < new_path@.len() implies new_path@[a] != new_path@[b] by {
                                if b < path@.len() {
                                    assert(new_path@[a] == path@[a]);
                                    assert(new_path@[b] == path@[b]);
                                } else {
                                    assert(new_path@[a] == path@[a]);
                                }
                            }
                            assert forall|q: int| 0 <= q < new_path@.len() - 1 implies v1[index_of(w, (#[trigger] new_path@[q]).0 as int, new_path@[q].1 as int)] by {
                                assert(new_path@[q] == path@[q]);
                            }
                        }
                        self.stack.push((nx, ny, new_path));
                        proof {
                            assert(entry_ok((nx, ny, new_path), m1, v1));
                            assert forall|j: int| 0 <= j < self.stack@.len() implies entry_ok(#[trigger] self.stack@[j], m1, v1) by {
                                if j < s1.len() {
                                    assert(self.stack@[j] == s1[j]);
                                }
                            }
                            assert(self.frontier() =~= fr1.push(((nx, ny), new_path@)));
                            assert(m1.wall_map()[ni as int] == (m1.cells@[ni as int] == CellState::WALL));
                            assert(dfs_pushes(m0, v1, (x, y), path@, k + 1) == dfs_pushes(m0, v1, (x, y), path@, k as int).push(((nx, ny), path@.push((nx, ny)))));
                        }
                    } else {
                        proof {
                            assert(m1.wall_map()[ni as int] == (m1.cells@[ni as int] == CellState::WALL));
                            assert(dfs_pushes(m0, v1, (x, y), path@, k + 1) == dfs_pushes(m0, v1, (x, y), path@, k as int));
                        }
                    }
                },
                None => {
                    assert(dfs_pushes(m0, v1, (x, y), path@, k + 1) == dfs_pushes(m0, v1, (x, y), path@, k as int));
                },
            }
            k += 1;
        }
        proof {
            lemma_pushes_len(m0, v1, (x, y), path@, 4);
            lemma_count_true_le(v1);
            lemma_covers_expand(m0, m1, v0, v1, f0, (x, y), path@);
            lemma_index_in_range(w, h, m0.end.0 as int, m0.end.1 as int);
            if index_of(w, m0.end.0 as int, m0.end.1 as int) == i {
                lemma_index_injective(w, h, m0.end.0 as int, m0.end.1 as int, x as int, y as int);
            }
        }
    }
}

} // verus!
