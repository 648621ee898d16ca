//! The three searches behind one interface, so a driver can swap them.
use vstd::prelude::*;
use crate::maze::{Coord, Maze};
use crate::walks::links;
use crate::accuracy::accuracy_of;
use crate::dfs::DFS;
use crate::djikstras::Djikstras;
use crate::a_star::AStar;

verus! {

/// One of the three searches.
pub enum Solver {
    AStar(AStar),
    Dfs(DFS),
    Djikstras(Djikstras),
}

impl Solver {
    /// The search state is sound for `m`.
    pub open spec fn inv(&self, m: Maze) -> bool {
        match self {
            Solver::AStar(s) => s.inv(m),
            Solver::Dfs(s) => s.inv(m),
            Solver::Djikstras(s) => s.inv(m),
        }
    }

    /// Whether the end cell has been reached.
    pub open spec fn solved(&self) -> bool {
        match self {
            Solver::AStar(s) => s.solved_spec(),
            Solver::Dfs(s) => s.found().is_some(),
            Solver::Djikstras(s) => s.solved_spec(),
        }
    }

    /// The route found, from start to end; empty while unsolved.
    pub open spec fn path(&self) -> Seq<Coord> {
        match self {
            Solver::AStar(s) => s.route_spec(),
            Solver::Dfs(s) => if s.found().is_some() {
                s.found().unwrap()
            } else {
                Seq::empty()
            },
            Solver::Djikstras(s) => s.route_spec(),
        }
    }

    /// The number of cells expanded so far.
    pub open spec fn traversed(&self) -> nat {
        match self {
            Solver::AStar(s) => s.traversed(),
            Solver::Dfs(s) => s.traversed(),
            Solver::Djikstras(s) => s.traversed(),
        }
    }

    /// The state of a search that has not begun on `m`.
    pub open spec fn fresh(&self, m: Maze) -> bool {
        match self {
            Solver::AStar(s) => s.fresh(m),
            Solver::Dfs(s) => s.fresh(m),
            Solver::Djikstras(s) => s.fresh(m),
        }
    }

    /// The number of entries waiting to be popped.
    pub open spec fn frontier_len(&self) -> nat {
        match self {
            Solver::AStar(s) => s.frontier_len(),
            Solver::Dfs(s) => s.frontier_len(),
            Solver::Djikstras(s) => s.frontier_len(),
        }
    }

    /// The kind of search: 0 for A*, 1 for depth-first, 2 for Dijkstra's.
    pub open spec fn kind(&self) -> int {
        match self {
            Solver::AStar(_) => 0,
            Solver::Dfs(_) => 1,
            Solver::Djikstras(_) => 2,
        }
    }

    /// One step of the search (see each search's `iterate`).
    pub fn iterate(&mut self, maze: &mut Maze)
        requires
            old(self).inv(*old(maze)),
        ensures
            final(self).inv(*final(maze)),
            final(self).kind() == old(self).kind(),
            final(maze).explored_from(*old(maze)),
            final(maze).at_most_one_changed(*old(maze)),
            old(self).solved() ==> *final(self) == *old(self) && *final(maze) == *old(maze),
            match (*old(self), *final(self)) {
                (Solver::AStar(a), Solver::AStar(b)) => AStar::step(a, b, *old(maze), *final(maze)),
                (Solver::Dfs(a), Solver::Dfs(b)) => DFS::step(a, b, *old(maze), *final(maze)),
                (Solver::Djikstras(a), Solver::Djikstras(b)) => Djikstras::step(a, b, *old(maze), *final(maze)),
                _ => false,
            },
    {
        match self {
            Solver::AStar(s) => s.iterate(maze),
            Solver::Dfs(s) => s.iterate(maze),
            Solver::Djikstras(s) => s.iterate(maze),
        }
    }

    /// Whether the end cell has been reached.
    pub fn is_solved(&self) -> (r: bool)
        ensures
            r == self.solved(),
    {
        match self {
            Solver::AStar(s) => s.is_solved(),
            Solver::Dfs(s) => s.is_solved(),
            Solver::Djikstras(s) => s.is_solved(),
        }
    }

    /// The route found, from start to end; empty while unsolved.
    pub fn get_path(&self, maze: &Maze) -> (r: Vec<Coord>)
        requires
            self.inv(*maze),
        ensures
            r@ == self.path(),
            self.solved() ==> links(maze.wall_map(), maze.width as int, maze.height as int, r@, maze.start, maze.end),
            !self.solved() ==> r@.len() == 0,
    {
        match self {
            Solver::AStar(s) => s.get_path(maze),
            Solver::Dfs(s) => s.get_path(maze),
            Solver::Djikstras(s) => s.get_path(maze),
        }
    }

    /// The accuracy as a fraction: path cells over expanded cells.
    pub fn get_accuracy(&self, maze: &Maze) -> (r: (usize, usize))
        requires
            self.inv(*maze),
        ensures
            r.1 > 0,
            (r.0 as nat, r.1 as nat) == accuracy_of(self.path().len(), self.traversed()),
    {
        match self {
            Solver::AStar(s) => s.get_accuracy(maze),
            Solver::Dfs(s) => s.get_accuracy(maze),
            Solver::Djikstras(s) => s.get_accuracy(maze),
        }
    }

    /// Whether nothing is left to pop.
    pub fn is_exhausted(&self) -> (r: bool)
        ensures
            r == (self.frontier_len() == 0),
    {
        match self {
            Solver::AStar(s) => s.is_exhausted(),
            Solver::Dfs(s) => s.is_exhausted(),
            Solver::Djikstras(s) => s.is_exhausted(),
        }
    }

    /// The number of cells expanded so far.
    pub fn traversed_cells(&self) -> (r: usize)
        ensures
            r == self.traversed(),
    {
        match self {
            Solver::AStar(s) => s.traversed_cells(),
            Solver::Dfs(s) => s.traversed_cells(),
            Solver::Djikstras(s) => s.traversed_cells(),
        }
    }

    /// A search of `maze` that has not begun, of the same kind as this one;
    /// this search is left as it is.
    pub fn get_new_solver(&mut self, maze: &Maze) -> (r: Self)
        requires
            maze.wf(),
            old(self).kind() == 0 ==> maze.width * maze.height <= usize::MAX / 2,
        ensures
            *final(self) == *old(self),
            r.kind() == old(self).kind(),
            r.fresh(*maze),
            r.inv(*maze),
            !r.solved(),
            r.traversed() == 0,
    {
        match self {
            Solver::AStar(s) => Solver::AStar(s.get_new_solver(maze)),
            Solver::Dfs(s) => Solver::Dfs(s.get_new_solver(maze)),
            Solver::Djikstras(s) => Solver::Djikstras(s.get_new_solver(maze)),
        }
    }
}

} // verus!
