//! Dijkstra's search on a grid of unit moves, one queue entry per step.
use vstd::prelude::*;
use vstd::multiset::Multiset;
use min_max_heap::MinMaxHeap;
use crate::maze::{Coord, CellState, Maze, in_grid, index_of, lemma_index_in_range, lemma_index_injective};
use crate::walks::{adjacent, open_in, links, reachable, copy_path, dir_of, lemma_dir_of, lemma_step_dir, is_walk, neighbour, step_of, reversed, lemma_links_push,
    lemma_links_single, lemma_links_reverse, lemma_adjacent_is_step};
use crate::counting::{count_true, lemma_count_true_set, lemma_count_true_none, lemma_count_true_le};
use crate::accuracy::{accuracy_of, accuracy_fraction};
use crate::frontier::{Entry, entry_le, heap_items, heap_new, heap_push, heap_pop_min, heap_is_empty};

verus! {

/// The distance recorded for `c`, if any.
pub open spec fn dist_at(dist: Seq<Option<usize>>, w: int, c: Coord) -> Option<usize> {
    dist[index_of(w, c.0 as int, c.1 as int)]
}

/// Some neighbour of `c` has a recorded distance below `d`.
pub open spec fn has_lower_neighbour(dist: Seq<Option<usize>>, w: int, h: int, c: Coord, d: int) -> bool {
    exists|b: Coord|
        #![trigger dist_at(dist, w, b), adjacent(b, c)]
        in_grid(w, h, b.0 as int, b.1 as int) && adjacent(b, c) && dist_at(dist, w, b).is_some()
            && (dist_at(dist, w, b).unwrap() as int) < d
}

/// Whether `c` has been expanded.
pub open spec fn explored_at(e: Seq<bool>, w: int, c: Coord) -> bool {
    e[index_of(w, c.0 as int, c.1 as int)]
}

/// Every expanded cell has a distance, and each of its open neighbours has
/// a distance at most one more.
pub open spec fn settled(d: Seq<Option<usize>>, e: Seq<bool>, wm: Seq<bool>, w: int, h: int) -> bool {
    forall|c: Coord, n: Coord|
        #![trigger explored_at(e, w, c), adjacent(c, n)]
        in_grid(w, h, c.0 as int, c.1 as int) && explored_at(e, w, c) && adjacent(c, n) && open_in(
            wm,
            w,
            h,
            n,
        ) ==> dist_at(d, w, c).is_some() && dist_at(d, w, n).is_some() && dist_at(d, w, n).unwrap()
            <= dist_at(d, w, c).unwrap() + 1
}

/// Along a walk from the start whose first `l` cells are expanded, the
/// cell at `l` has a distance of at most `l`.
proof fn lemma_walk_distances(
    d: Seq<Option<usize>>,
    e: Seq<bool>,
    wm: Seq<bool>,
    w: int,
    h: int,
    start: Coord,
    p: Seq<Coord>,
    l: int,
)
    requires
        is_walk(wm, w, h, p),
        p[0] == start,
        0 <= l < p.len(),
        dist_at(d, w, start) == Some(0usize),
        settled(d, e, wm, w, h),
        forall|m: int| 0 <= m < l ==> explored_at(e, w, #[trigger] p[m]),
    ensures
        dist_at(d, w, p[l]).is_some(),
        dist_at(d, w, p[l]).unwrap() <= l,
    decreases l,
{
    if l > 0 {
        lemma_walk_distances(d, e, wm, w, h, start, p, l - 1);
        assert(explored_at(e, w, p[l - 1]));
        assert(adjacent(p[l - 1], p[l]));
        assert(open_in(wm, w, h, p[l - 1]));
        assert(open_in(wm, w, h, p[l]));
    }
}

/// The first cell of a walk, from index `i` on, that is not expanded.
pub proof fn lemma_first_unexplored(e: Seq<bool>, w: int, p: Seq<Coord>, i: int) -> (j: int)
    requires
        0 <= i < p.len(),
        !explored_at(e, w, p[p.len() - 1]),
        forall|m: int| 0 <= m < i ==> explored_at(e, w, #[trigger] p[m]),
    ensures
        i <= j < p.len(),
        !explored_at(e, w, p[j]),
        forall|m: int| 0 <= m < j ==> explored_at(e, w, #[trigger] p[m]),
    decreases p.len() - i,
{
    if !explored_at(e, w, p[i]) {
        i
    } else {
        lemma_first_unexplored(e, w, p, i + 1)
    }
}

/// `c` is an open neighbour of `u`, among its first `k` directions (down,
/// up, right, left), whose recorded distance, if any, exceeds `key + 1`.
pub open spec fn dj_relaxes(d: Seq<Option<usize>>, wm: Seq<bool>, w: int, h: int, u: Coord, key: int, c: Coord, k: int) -> bool {
    adjacent(u, c) && dir_of(u, c) < k && open_in(wm, w, h, c) && (dist_at(d, w, c).is_none() || key + 1 < dist_at(
        d,
        w,
        c,
    ).unwrap())
}

/// The distance of `c` once the first `k` neighbours of `u`, popped with
/// key `key`, are relaxed.
pub open spec fn dj_relaxed_dist(d: Seq<Option<usize>>, wm: Seq<bool>, w: int, h: int, u: Coord, key: int, c: Coord, k: int) -> Option<usize> {
    if dj_relaxes(d, wm, w, h, u, key, c, k) {
        Some((key + 1) as usize)
    } else {
        dist_at(d, w, c)
    }
}

/// How many copies of `en` relaxing the first `k` neighbours of `u` queues.
pub open spec fn dj_relaxed_entries(d: Seq<Option<usize>>, wm: Seq<bool>, w: int, h: int, u: Coord, key: int, en: Entry, k: int) -> nat {
    if dj_relaxes(d, wm, w, h, u, key, en.1, k) && en.0 == key + 1 {
        1
    } else {
        0
    }
}

/// The effect of relaxing the neighbour of `u` in direction `k`.
pub open spec fn dj_relax_effect(
    dp: Seq<Option<usize>>,
    hp: Multiset<Entry>,
    dn: Seq<Option<usize>>,
    hn: Multiset<Entry>,
    wm: Seq<bool>,
    w: int,
    h: int,
    u: Coord,
    key: int,
    k: int,
) -> bool {
    let st = step_of(u, k);
    let n: Coord = (st.0 as usize, st.1 as usize);
    if in_grid(w, h, st.0, st.1) && open_in(wm, w, h, n) && (dist_at(dp, w, n).is_none() || key + 1 < dist_at(
        dp,
        w,
        n,
    ).unwrap()) {
        &&& dn == dp.update(index_of(w, st.0, st.1), Some((key + 1) as usize))
        &&& key + 1 <= usize::MAX
        &&& hn == hp.insert((((key + 1) as usize), n))
    } else {
        dn == dp && hn == hp
    }
}

proof fn lemma_dj_relax_step(
    d0: Seq<Option<usize>>,
    hpop: Multiset<Entry>,
    dp: Seq<Option<usize>>,
    hp: Multiset<Entry>,
    dn: Seq<Option<usize>>,
    hn: Multiset<Entry>,
    wm: Seq<bool>,
    w: int,
    h: int,
    u: Coord,
    key: int,
    k: int,
)
    requires
        0 <= k < 4,
        0 <= key,
        0 < w <= usize::MAX,
        0 < h <= usize::MAX,
        d0.len() == w * h,
        dp.len() == w * h,
        in_grid(w, h, u.0 as int, u.1 as int),
        forall|c: Coord|
            in_grid(w, h, c.0 as int, c.1 as int) ==> #[trigger] dist_at(dp, w, c) == dj_relaxed_dist(d0, wm, w, h, u, key, c, k),
        forall|en: Entry| #[trigger] hp.count(en) == hpop.count(en) + dj_relaxed_entries(d0, wm, w, h, u, key, en, k),
        dj_relax_effect(dp, hp, dn, hn, wm, w, h, u, key, k),
    ensures
        forall|c: Coord|
            in_grid(w, h, c.0 as int, c.1 as int) ==> #[trigger] dist_at(dn, w, c) == dj_relaxed_dist(d0, wm, w, h, u, key, c, k + 1),
        forall|en: Entry| #[trigger] hn.count(en) == hpop.count(en) + dj_relaxed_entries(d0, wm, w, h, u, key, en, k + 1),
{
    let st = step_of(u, k);
    let n: Coord = (st.0 as usize, st.1 as usize);
    if in_grid(w, h, st.0, st.1) {
        lemma_step_dir(u, k, w, h);
        assert(dist_at(dp, w, n) == dist_at(d0, w, n));
        lemma_index_in_range(w, h, st.0, st.1);
    }
    assert forall|c: Coord| in_grid(w, h, c.0 as int, c.1 as int) implies #[trigger] dist_at(dn, w, c) == dj_relaxed_dist(d0, wm, w, h, u, key, c, k + 1) by {
        lemma_index_in_range(w, h, c.0 as int, c.1 as int);
        if adjacent(u, c) {
            lemma_dir_of(u, c);
        }
        if c == n {
        } else if in_grid(w, h, st.0, st.1) {
            if index_of(w, c.0 as int, c.1 as int) == index_of(w, st.0, st.1) {
                lemma_index_injective(w, h, c.0 as int, c.1 as int, st.0, st.1);
            }
            assert(dist_at(dp, w, c) == dj_relaxed_dist(d0, wm, w, h, u, key, c, k));
        } else {
            assert(dist_at(dp, w, c) == dj_relaxed_dist(d0, wm, w, h, u, key, c, k));
        }
    }
    assert forall|en: Entry| #[trigger] hn.count(en) == hpop.count(en) + dj_relaxed_entries(d0, wm, w, h, u, key, en, k + 1) by {
        assert(hp.count(en) == hpop.count(en) + dj_relaxed_entries(d0, wm, w, h, u, key, en, k));
        if adjacent(u, en.1) {
            lemma_dir_of(u, en.1);
        }
    }
}

/// Dijkstra's search: a min-priority queue keyed by the number of moves from
/// the start. A neighbour's distance is recorded, and the neighbour queued,
/// only when the distance improves; a cell popped a second time is skipped.
pub struct Djikstras {
    min_heap: MinMaxHeap<Entry>,
    distances: Vec<Option<usize>>,
    explored: Vec<bool>,
    solved: bool,
    traversed_cells: usize,
    last_key: Ghost<int>,
    route: Vec<Coord>,
}

impl Djikstras {
    /// The search state is sound for `m` (see `search_inv`), and the route
    /// recorded when the end was reached is a shortest walk from start to
    /// end; before that it is empty.
    pub closed spec fn inv(&self, m: Maze) -> bool {
        &&& self.search_inv(m)
        &&& !self.solved_spec() ==> self.route@.len() == 0
        &&& self.solved_spec() ==> links(m.wall_map(), m.width as int, m.height as int, self.route@, m.start, m.end)
        &&& self.solved_spec() ==> forall|q: Seq<Coord>|
            #[trigger] links(m.wall_map(), m.width as int, m.height as int, q, m.start, m.end) ==> self.route@.len()
                <= q.len()
    }

    /// The route recorded when the end cell was popped; empty before.
    pub closed spec fn route_spec(&self) -> Seq<Coord> {
        self.route@
    }

    /// The search state is sound for `m`: the start is at distance 0, every
    /// other recorded cell is open and has a neighbour recorded nearer, and
    /// every queued entry is a recorded cell with a key no smaller than its
    /// recorded distance and no larger than the count of expanded cells.
    pub closed spec fn search_inv(&self, m: Maze) -> bool {
        let w = m.width as int;
        let h = m.height as int;
        let d = self.distances@;
        &&& m.wf()
        &&& d.len() == m.width * m.height
        &&& self.explored@.len() == m.width * m.height
        &&& self.traversed_cells == count_true(self.explored@)
        &&& dist_at(d, w, m.start) == Some(0usize)
        &&& forall|c: Coord|
            #![trigger dist_at(d, w, c)]
            in_grid(w, h, c.0 as int, c.1 as int) && dist_at(d, w, c).is_some() ==> open_in(
                m.wall_map(),
                w,
                h,
                c,
            ) && (c == m.start || has_lower_neighbour(d, w, h, c, dist_at(d, w, c).unwrap() as int))
        &&& forall|e: Entry|
            #![trigger heap_items(self.min_heap).contains(e)]
            heap_items(self.min_heap).contains(e) ==> in_grid(w, h, e.1.0 as int, e.1.1 as int)
                && dist_at(d, w, e.1).is_some() && dist_at(d, w, e.1).unwrap() <= e.0 && e.0
                <= self.traversed_cells
        &&& self.solved ==> dist_at(d, w, m.end).is_some()
        &&& settled(d, self.explored@, m.wall_map(), w, h)
        &&& forall|c: Coord|
            #![trigger explored_at(self.explored@, w, c)]
            in_grid(w, h, c.0 as int, c.1 as int) && explored_at(self.explored@, w, c) ==> dist_at(
                d,
                w,
                c,
            ).is_some() && dist_at(d, w, c).unwrap() <= self.last_key@
        &&& !explored_at(self.explored@, w, m.end)
        &&& forall|e: Entry|
            #![trigger heap_items(self.min_heap).contains(e)]
            heap_items(self.min_heap).contains(e) ==> self.last_key@ <= e.0
        &&& !self.solved ==> forall|c: Coord|
            #![trigger dist_at(d, w, c)]
            in_grid(w, h, c.0 as int, c.1 as int) && dist_at(d, w, c).is_some() && !explored_at(
                self.explored@,
                w,
                c,
            ) ==> heap_items(self.min_heap).contains((dist_at(d, w, c).unwrap(), c))
        &&& self.solved ==> forall|p: Seq<Coord>|
            #[trigger] links(m.wall_map(), w, h, p, m.start, m.end) ==> dist_at(d, w, m.end).unwrap() + 1
                <= p.len()
    }

    /// While unsolved, a search of a grid whose end is reachable from its
    /// start always has a queued entry to pop.
    pub proof fn lemma_queue_nonempty(&self, m: Maze)
        requires
            self.inv(m),
            !self.solved_spec(),
            reachable(m.wall_map(), m.width as int, m.height as int, m.start, m.end),
        ensures
            self.frontier_len() > 0,
    {
        let w = m.width as int;
        let h = m.height as int;
        let wm = m.wall_map();
        let d = self.distances@;
        let e = self.explored@;
        let p = choose|p: Seq<Coord>| links(wm, w, h, p, m.start, m.end);
        let j = lemma_first_unexplored(e, w, p, 0);
        lemma_walk_distances(d, e, wm, w, h, m.start, p, j);
        let c = p[j];
        assert(open_in(wm, w, h, c));
        let items = heap_items(self.min_heap);
        assert(items.contains((dist_at(d, w, c).unwrap(), c)));
        vstd::multiset::lemma_multiset_empty_len(items);
        if items.len() == 0 {
            assert(items.count((dist_at(d, w, c).unwrap(), c)) == Multiset::<Entry>::empty().count((dist_at(d, w, c).unwrap(), c)));
        }
    }

    /// The queued entries.
    pub closed spec fn queue(&self) -> Multiset<Entry> {
        heap_items(self.min_heap)
    }

    /// The recorded distance of each cell, by cell index.
    pub closed spec fn distances_view(&self) -> Seq<Option<usize>> {
        self.distances@
    }

    /// One flag per cell: whether it has been expanded.
    pub closed spec fn explored_flags(&self) -> Seq<bool> {
        self.explored@
    }

    /// Whether the end cell has been popped.
    pub closed spec fn solved_spec(&self) -> bool {
        self.solved
    }

    /// The distance recorded for the end cell of `m`.
    pub closed spec fn end_distance(&self, m: Maze) -> int {
        dist_at(self.distances@, m.width as int, m.end).unwrap() as int
    }

    /// The number of cells expanded so far.
    pub closed spec fn traversed(&self) -> nat {
        self.traversed_cells as nat
    }

    /// The number of entries waiting in the queue.
    pub closed spec fn frontier_len(&self) -> nat {
        heap_items(self.min_heap).len()
    }

    /// The state of a search that has not begun on `m`: only the start is
    /// queued, with key 0, and only the start has a distance, 0.
    pub open spec fn fresh(&self, m: Maze) -> bool {
        &&& self.queue() =~= Multiset::empty().insert((0usize, m.start))
        &&& self.distances_view() == Seq::new((m.width * m.height) as nat, |i: int| None::<usize>).update(
            index_of(m.width as int, m.start.0 as int, m.start.1 as int),
            Some(0usize),
        )
        &&& self.explored_flags() == Seq::new((m.width * m.height) as nat, |i: int| false)
        &&& !self.solved_spec()
        &&& self.traversed() == 0
        &&& self.route_spec().len() == 0
    }

    /// A search of `maze` that has not begun.
    pub fn new(maze: &Maze) -> (r: Self)
        requires
            maze.wf(),
        ensures
            r.fresh(*maze),
            r.inv(*maze),
            !r.solved_spec(),
            r.traversed() == 0,
    {
        let ghost w = maze.width as int;
        let ghost h = maze.height as int;
        let n = maze.width * maze.height;
        let mut min_heap = heap_new();
        heap_push(&mut min_heap, (0, maze.start));
        let mut distances: Vec<Option<usize>> = vec![None; n];
        proof {
            lemma_index_in_range(w, h, maze.start.0 as int, maze.start.1 as int);
        }
        distances.set(maze.start.1 * maze.width + maze.start.0, Some(0));
        let explored: Vec<bool> = vec![false; n];
        let r = Djikstras {
            min_heap,
            distances,
            explored,
            solved: false,
            traversed_cells: 0,
            last_key: Ghost(0),
            route: Vec::new(),
        };
        proof {
            maze.lemma_start_end_open();
            lemma_count_true_none(explored@);
            assert(explored@ =~= Seq::new((maze.width * maze.height) as nat, |i: int| false));
            assert(r.distances@ =~= Seq::new((maze.width * maze.height) as nat, |i: int| None::<usize>).update(
                index_of(maze.width as int, maze.start.0 as int, maze.start.1 as int),
                Some(0usize),
            ));
            assert forall|c: Coord|
                #![trigger dist_at(r.distances@, w, c)]
                in_grid(w, h, c.0 as int, c.1 as int) && dist_at(r.distances@, w, c).is_some() implies open_in(
                    maze.wall_map(),
                    w,
                    h,
                    c,
                ) && (c == maze.start || has_lower_neighbour(r.distances@, w, h, c, dist_at(r.distances@, w, c).unwrap() as int)) by {
                lemma_index_in_range(w, h, c.0 as int, c.1 as int);
                lemma_index_injective(w, h, c.0 as int, c.1 as int, maze.start.0 as int, maze.start.1 as int);
            }
            assert forall|c: Coord|
                #![trigger dist_at(r.distances@, w, c)]
                in_grid(w, h, c.0 as int, c.1 as int) && dist_at(r.distances@, w, c).is_some() && !explored_at(
                    r.explored@,
                    w,
                    c,
                ) implies heap_items(r.min_heap).contains((dist_at(r.distances@, w, c).unwrap(), c)) by {
                lemma_index_in_range(w, h, c.0 as int, c.1 as int);
                lemma_index_injective(w, h, c.0 as int, c.1 as int, maze.start.0 as int, maze.start.1 as int);
            }
            lemma_index_in_range(w, h, maze.end.0 as int, maze.end.1 as int);
            assert(!explored_at(r.explored@, w, maze.end));
            assert forall|c: Coord| in_grid(w, h, c.0 as int, c.1 as int) implies !#[trigger] explored_at(r.explored@, w, c) by {
                lemma_index_in_range(w, h, c.0 as int, c.1 as int);
            }
        }
        r
    }

    /// A search of `maze` that has not begun, of the same kind as this one;
    /// this search is left as it is.
    pub fn get_new_solver(&mut self, maze: &Maze) -> (r: Self)
        requires
            maze.wf(),
        ensures
            *final(self) == *old(self),
            r.fresh(*maze),
            r.inv(*maze),
            !r.solved_spec(),
            r.traversed() == 0,
    {
        Djikstras::new(maze)
    }

    /// The state while the cell `u`, popped with key `dist`, is being
    /// expanded: its first `k` neighbours have been relaxed.
    closed spec fn expanding(&self, m: Maze, u: Coord, dist: usize, k: int) -> bool {
        let w = m.width as int;
        let h = m.height as int;
        let d = self.distances@;
        let e = self.explored@;
        let wm = m.wall_map();
        &&& m.wf()
        &&& 0 <= k <= 4
        &&& d.len() == m.width * m.height
        &&& e.len() == m.width * m.height
        &&& self.traversed_cells == count_true(e)
        &&& !self.solved
        &&& in_grid(w, h, u.0 as int, u.1 as int)
        &&& explored_at(e, w, u)
        &&& dist_at(d, w, u) == Some(dist)
        &&& self.last_key@ == dist
        &&& dist < self.traversed_cells
        &&& dist_at(d, w, m.start) == Some(0usize)
        &&& forall|c: Coord|
            #![trigger dist_at(d, w, c)]
            in_grid(w, h, c.0 as int, c.1 as int) && dist_at(d, w, c).is_some() ==> open_in(wm, w, h, c)
                && (c == m.start || has_lower_neighbour(d, w, h, c, dist_at(d, w, c).unwrap() as int))
        &&& forall|en: Entry|
            #![trigger heap_items(self.min_heap).contains(en)]
            heap_items(self.min_heap).contains(en) ==> in_grid(w, h, en.1.0 as int, en.1.1 as int)
                && dist_at(d, w, en.1).is_some() && dist_at(d, w, en.1).unwrap() <= en.0 && en.0
                <= self.traversed_cells && dist <= en.0
        &&& forall|c: Coord|
            #![trigger explored_at(e, w, c)]
            in_grid(w, h, c.0 as int, c.1 as int) && explored_at(e, w, c) ==> dist_at(d, w, c).is_some()
                && dist_at(d, w, c).unwrap() <= dist
        &&& !explored_at(e, w, m.end)
        &&& forall|c: Coord|
            #![trigger dist_at(d, w, c)]
            in_grid(w, h, c.0 as int, c.1 as int) && dist_at(d, w, c).is_some() && !explored_at(e, w, c)
                ==> heap_items(self.min_heap).contains((dist_at(d, w, c).unwrap(), c))
        &&& forall|c: Coord, n: Coord|
            #![trigger explored_at(e, w, c), adjacent(c, n)]
            in_grid(w, h, c.0 as int, c.1 as int) && explored_at(e, w, c) && c != u && adjacent(c, n)
                && open_in(wm, w, h, n) ==> dist_at(d, w, c).is_some() && dist_at(d, w, n).is_some()
                && dist_at(d, w, n).unwrap() <= dist_at(d, w, c).unwrap() + 1
        &&& forall|kk: int|
            0 <= kk < k ==> {
                let st = #[trigger] step_of(u, kk);
                in_grid(w, h, st.0, st.1) && !wm[index_of(w, st.0, st.1)] ==> d[index_of(w, st.0, st.1)].is_some()
                    && d[index_of(w, st.0, st.1)].unwrap() <= dist + 1
            }
    }

    /// Once all four neighbours of the expanded cell are relaxed, the search
    /// state is sound again.
    proof fn lemma_expanding_done(&self, m: Maze, u: Coord, dist: usize)
        requires
            self.expanding(m, u, dist, 4),
        ensures
            self.search_inv(m),
    {
        let w = m.width as int;
        let h = m.height as int;
        let d = self.distances@;
        let e = self.explored@;
        let wm = m.wall_map();
        assert forall|c: Coord, n: Coord|
            #![trigger explored_at(e, w, c), adjacent(c, n)]
            in_grid(w, h, c.0 as int, c.1 as int) && explored_at(e, w, c) && adjacent(c, n) && open_in(
                wm,
                w,
                h,
                n,
            ) implies dist_at(d, w, c).is_some() && dist_at(d, w, n).is_some() && dist_at(d, w, n).unwrap()
            <= dist_at(d, w, c).unwrap() + 1 by {
            if c == u {
                lemma_adjacent_is_step(u, n);
                let kk = choose|kk: int| 0 <= kk < 4 && #[trigger] step_of(u, kk) == (n.0 as int, n.1 as int);
                assert(step_of(u, kk) == (n.0 as int, n.1 as int));
            }
        }
    }

    /// Relaxes the `k`-th neighbour of the cell `(x, y)` being expanded with
    /// key `dist`: an open neighbour whose recorded distance, if any, exceeds
    /// `dist + 1` gets that distance and is queued with it.
    fn relax_neighbour(&mut self, maze: &Maze, x: usize, y: usize, dist: usize, k: usize)
        requires
            old(self).expanding(*maze, (x, y), dist, k as int),
            k < 4,
        ensures
            final(self).expanding(*maze, (x, y), dist, k + 1),
            final(self).traversed_cells == old(self).traversed_cells,
            final(self).route == old(self).route,
            final(self).solved == old(self).solved,
            final(self).explored == old(self).explored,
            dj_relax_effect(
                old(self).distances@,
                heap_items(old(self).min_heap),
                final(self).distances@,
                heap_items(final(self).min_heap),
                maze.wall_map(),
                maze.width as int,
                maze.height as int,
                (x, y),
                dist as int,
                k as int,
            ),
    {
        let ghost w = maze.width as int;
        let ghost h = maze.height as int;
        let ghost u: Coord = (x, y);
        let ghost e = self.explored@;
        let ghost wm = maze.wall_map();
        let width = maze.width;
        let height = maze.height;
        proof {
            lemma_index_in_range(w, h, x as int, y as int);
            lemma_count_true_le(self.explored@);
        }
        match neighbour((x, y), k, width, height) {
            Some((nx, ny)) => {
                proof {
                    lemma_index_in_range(w, h, nx as int, ny as int);
                }
                let ni = ny * width + nx;
                assert(step_of(u, k as int) == (nx as int, ny as int));
                if *maze.get(nx, ny) != CellState::WALL {
                    let next_cost = dist + 1;
                    let better = match self.distances[ni] {
                        Some(d) => next_cost < d,
                        None => true,
                    };
                    if better {
                        let ghost d0 = self.distances@;
                        let ghost hp0 = heap_items(self.min_heap);
                        let ghost n: Coord = (nx, ny);
                        self.distances.set(ni, Some(next_cost));
                        heap_push(&mut self.min_heap, (next_cost, (nx, ny)));
                        proof {
                            let d1 = self.distances@;
                            assert(index_of(w, nx as int, ny as int) == ni);
                            assert(dist_at(d0, w, maze.start) == Some(0usize));
                            lemma_index_in_range(w, h, maze.start.0 as int, maze.start.1 as int);
                            lemma_index_in_range(w, h, x as int, y as int);
                            if ni == index_of(w, maze.start.0 as int, maze.start.1 as int) {
                                lemma_index_injective(w, h, maze.start.0 as int, maze.start.1 as int, nx as int, ny as int);
                                assert(d0[ni as int] == Some(0usize));
                                assert(false);
                            }
                            assert(d1 == d0.update(ni as int, Some(next_cost)));
                            assert(dist_at(d0, w, (x, y)).is_some());
                            let xi = index_of(w, x as int, y as int);
                            assert(dist_at(d1, w, (x, y)).is_some() && dist_at(d1, w, (x, y)).unwrap() <= dist) by {
                                if xi == ni {
                                    lemma_index_injective(w, h, x as int, y as int, nx as int, ny as int);
                                } else {
                                    assert(d1[xi] == d0[xi]);
                                }
                            }
                            assert(adjacent((x, y), n));
                            assert forall|c: Coord|
                                #![trigger dist_at(d1, w, c)]
                                in_grid(w, h, c.0 as int, c.1 as int) && dist_at(d1, w, c).is_some() implies open_in(
                                    maze.wall_map(),
                                    w,
                                    h,
                                    c,
                                ) && (c == maze.start || has_lower_neighbour(d1, w, h, c, dist_at(d1, w, c).unwrap() as int)) by {
                                lemma_index_in_range(w, h, c.0 as int, c.1 as int);
                                if index_of(w, c.0 as int, c.1 as int) == ni {
                                    lemma_index_injective(w, h, c.0 as int, c.1 as int, nx as int, ny as int);
                                    assert(open_in(maze.wall_map(), w, h, c));
                                    if index_of(w, x as int, y as int) == ni {
                                        lemma_index_injective(w, h, x as int, y as int, nx as int, ny as int);
                                    }
                                    assert(dist_at(d1, w, (x, y)).unwrap() <= dist);
                                    assert(has_lower_neighbour(d1, w, h, c, dist_at(d1, w, c).unwrap() as int));
                                } else {
                                    assert(dist_at(d1, w, c) == dist_at(d0, w, c));
                                    if c != maze.start {
                                        let b = choose|b: Coord|
                                            #![trigger dist_at(d0, w, b), adjacent(b, c)]
                                            in_grid(w, h, b.0 as int, b.1 as int) && adjacent(b, c) && dist_at(d0, w, b).is_some()
                                                && (dist_at(d0, w, b).unwrap() as int) < dist_at(d0, w, c).unwrap() as int;
                                        lemma_index_in_range(w, h, b.0 as int, b.1 as int);
                                        if index_of(w, b.0 as int, b.1 as int) == ni {
                                            lemma_index_injective(w, h, b.0 as int, b.1 as int, nx as int, ny as int);
                                        }
                                        assert(dist_at(d1, w, b).is_some());
                                        assert((dist_at(d1, w, b).unwrap() as int) < dist_at(d1, w, c).unwrap() as int);
                                    }
                                }
                            }
                            assert forall|e: Entry| #[trigger] heap_items(self.min_heap).contains(e) implies in_grid(w, h, e.1.0 as int, e.1.1 as int)
                                && dist_at(d1, w, e.1).is_some() && dist_at(d1, w, e.1).unwrap() <= e.0 && e.0
                                <= self.traversed_cells && dist <= e.0 by {
                                if e != (next_cost, n) {
                                    assert(hp0.contains(e));
                                    lemma_index_in_range(w, h, e.1.0 as int, e.1.1 as int);
                                    if index_of(w, e.1.0 as int, e.1.1 as int) == ni {
                                        lemma_index_injective(w, h, e.1.0 as int, e.1.1 as int, nx as int, ny as int);
                                    }
                                }
                            }
                        }

                        proof {
                            let d1 = self.distances@;
                            assert(!explored_at(e, w, n)) by {
                                if explored_at(e, w, n) {
                                    assert(dist_at(d0, w, n).is_some() && dist_at(d0, w, n).unwrap() <= dist);
                                }
                            }
                            assert forall|c: Coord|
                                in_grid(w, h, c.0 as int, c.1 as int) && #[trigger] dist_at(d0, w, c).is_some() implies dist_at(d1, w, c).is_some()
                                && dist_at(d1, w, c).unwrap() <= dist_at(d0, w, c).unwrap() by {
                                lemma_index_in_range(w, h, c.0 as int, c.1 as int);
                                if index_of(w, c.0 as int, c.1 as int) == ni {
                                    lemma_index_injective(w, h, c.0 as int, c.1 as int, nx as int, ny as int);
                                }
                            }
                            assert forall|c: Coord|
                                in_grid(w, h, c.0 as int, c.1 as int) && #[trigger] explored_at(e, w, c) implies dist_at(d1, w, c) == dist_at(d0, w, c) by {
                                lemma_index_in_range(w, h, c.0 as int, c.1 as int);
                                if index_of(w, c.0 as int, c.1 as int) == ni {
                                    lemma_index_injective(w, h, c.0 as int, c.1 as int, nx as int, ny as int);
                                }
                            }
                            assert(dist_at(d1, w, u) == Some(dist));
                            assert forall|c: Coord|
                                #![trigger dist_at(d1, w, c)]
                                in_grid(w, h, c.0 as int, c.1 as int) && dist_at(d1, w, c).is_some() && !explored_at(e, w, c)
                                implies heap_items(self.min_heap).contains((dist_at(d1, w, c).unwrap(), c)) by {
                                lemma_index_in_range(w, h, c.0 as int, c.1 as int);
                                if index_of(w, c.0 as int, c.1 as int) == ni {
                                    lemma_index_injective(w, h, c.0 as int, c.1 as int, nx as int, ny as int);
                                } else {
                                    assert(dist_at(d1, w, c) == dist_at(d0, w, c));
                                    assert(hp0.contains((dist_at(d0, w, c).unwrap(), c)));
                                }
                            }
                            assert forall|c: Coord, m: Coord|
                                #![trigger explored_at(e, w, c), adjacent(c, m)]
                                in_grid(w, h, c.0 as int, c.1 as int) && explored_at(e, w, c) && c != u && adjacent(c, m)
                                    && open_in(wm, w, h, m) implies dist_at(d1, w, c).is_some() && dist_at(d1, w, m).is_some()
                                    && dist_at(d1, w, m).unwrap() <= dist_at(d1, w, c).unwrap() + 1 by {
                                assert(dist_at(d0, w, m).is_some());
                                assert(dist_at(d1, w, c) == dist_at(d0, w, c));
                            }
                            assert forall|kk: int| 0 <= kk < k + 1 implies {
                                let st = #[trigger] step_of(u, kk);
                                in_grid(w, h, st.0, st.1) && !wm[index_of(w, st.0, st.1)] ==> d1[index_of(w, st.0, st.1)].is_some()
                                    && d1[index_of(w, st.0, st.1)].unwrap() <= dist + 1
                            } by {
                                let st = step_of(u, kk);
                                if kk < k && in_grid(w, h, st.0, st.1) && !wm[index_of(w, st.0, st.1)] {
                                    let sc: Coord = (st.0 as usize, st.1 as usize);
                                    assert(dist_at(d0, w, sc).is_some());
                                }
                            }
                        }
                    } else {
                        assert(self.distances@[ni as int].is_some());
                    }
                }
            },
            None => {},
        }
    }

    /// What one call of `iterate` does: `s0` and `m0` before, `s1` and `m1`
    /// after.
    pub open spec fn step(s0: Self, s1: Self, m0: Maze, m1: Maze) -> bool {
        &&& (m1.explored_from(m0))
        &&& (s0.solved_spec() || s0.frontier_len() == 0 ==> s1 == s0
                && m1 == m0)
        &&& (s0.solved_spec() ==> s1.solved_spec())
        &&& (s1.solved_spec() && !s0.solved_spec() ==> s1.traversed()
                == s0.traversed() && m1 == m0)
        &&& (s0.traversed() <= s1.traversed() <= s0.traversed() + 1)
        &&& (s1.traversed() == s0.traversed() ==> m1 == m0)
        &&& (!s0.solved_spec() && s0.frontier_len() > 0 ==> s1.solved_spec()
                || s1.traversed() == s0.traversed() + 1 || s1.frontier_len() + 1
                == s0.frontier_len())
        &&& (m1.at_most_one_changed(m0))
        &&& (!s0.solved_spec() && s0.frontier_len() > 0 ==> exists|e: Entry|
                #![trigger s0.queue().remove(e)]
                s0.queue().contains(e) && (forall|e2: Entry|
                    #[trigger] s0.queue().contains(e2) ==> entry_le(e, e2)) && if s0.explored_flags()[index_of(m0.width as int, e.1.0 as int, e.1.1 as int)] {
                    &&& !s1.solved_spec()
                    &&& s1.queue() == s0.queue().remove(e)
                    &&& s1.distances_view() == s0.distances_view()
                    &&& s1.traversed() == s0.traversed()
                    &&& m1 == m0
                } else if e.1 == m0.end {
                    &&& s1.solved_spec()
                    &&& s1.queue() == s0.queue().remove(e)
                    &&& s1.distances_view() == s0.distances_view()
                    &&& s1.traversed() == s0.traversed()
                    &&& m1 == m0
                } else {
                    &&& !s1.solved_spec()
                    &&& s1.traversed() == s0.traversed() + 1
                    &&& m1.cells@ == m0.cells_explored_at(e.1)
                    &&& s1.explored_flags() == s0.explored_flags().update(
                        index_of(m0.width as int, e.1.0 as int, e.1.1 as int),
                        true,
                    )
                    &&& forall|c: Coord|
                        in_grid(m0.width as int, m0.height as int, c.0 as int, c.1 as int)
                            ==> #[trigger] dist_at(s1.distances_view(), m0.width as int, c)
                            == dj_relaxed_dist(
                            s0.distances_view(),
                            m0.wall_map(),
                            m0.width as int,
                            m0.height as int,
                            e.1,
                            e.0 as int,
                            c,
                            4,
                        )
                    &&& forall|en: Entry|
                        #[trigger] s1.queue().count(en) == s0.queue().remove(e).count(en)
                            + dj_relaxed_entries(
                            s0.distances_view(),
                            m0.wall_map(),
                            m0.width as int,
                            m0.height as int,
                            e.1,
                            e.0 as int,
                            en,
                            4,
                        )
                })
    }

    /// One step: pops a least queued entry. A cell already expanded is
    /// skipped; the end cell solves the search; any other cell is counted,
    /// marked `EXPLORED`, and each open neighbour (down, up, right, left)
    /// whose recorded distance, if any, exceeds the popped key plus one gets
    /// that distance and is queued with it. Nothing happens once solved or
    /// with an empty queue.
    pub fn iterate(&mut self, maze: &mut Maze)
        requires
            old(self).inv(*old(maze)),
        ensures
            final(self).inv(*final(maze)),
            Self::step(*old(self), *final(self), *old(maze), *final(maze)),
    {
        if self.solved {
            return;
        }
        if heap_is_empty(&self.min_heap) {
            return;
        }
        let ghost m0 = *maze;
        let ghost pre = *self;
        let ghost w = maze.width as int;
        let ghost h = maze.height as int;
        let ghost items0 = heap_items(self.min_heap);
        let ghost d = self.distances@;
        let ghost e0 = self.explored@;
        let popped = heap_pop_min(&mut self.min_heap);
        let (dist, (x, y)) = popped.unwrap();
        let ghost u: Coord = (x, y);
        assert(items0.contains((dist, u)));
        assert forall|en: Entry| #[trigger] heap_items(self.min_heap).contains(en) implies items0.contains(en) by {
            assert(heap_items(self.min_heap).count(en) <= items0.count(en));
        }
        assert forall|en: Entry| en != (dist, u) && #[trigger] items0.contains(en) implies heap_items(self.min_heap).contains(en) by {
            assert(heap_items(self.min_heap).count(en) == items0.count(en));
        }
        proof {
            lemma_index_in_range(w, h, x as int, y as int);
        }
        let width = maze.width;
        let height = maze.height;
        let i = y * width + x;
        if self.explored[i] {
            proof {
                assert forall|c: Coord|
                    #![trigger dist_at(d, w, c)]
                    in_grid(w, h, c.0 as int, c.1 as int) && dist_at(d, w, c).is_some() && !explored_at(e0, w, c)
                    implies heap_items(self.min_heap).contains((dist_at(d, w, c).unwrap(), c)) by {
                    assert(items0.contains((dist_at(d, w, c).unwrap(), c)));
                }
                assert(heap_items(self.min_heap) =~= items0.remove((dist, u)));
                assert(pre.queue().remove((dist, u)) == items0.remove((dist, u)));
            }
            return;
        }
        if x == maze.end.0 && y == maze.end.1 {
            self.solved = true;
            proof {
                let wm = maze.wall_map();
                assert forall|p: Seq<Coord>| #[trigger] links(wm, w, h, p, maze.start, maze.end) implies dist_at(d, w, maze.end).unwrap() + 1 <= p.len() by {
                    let j = lemma_first_unexplored(e0, w, p, 0);
                    lemma_walk_distances(d, e0, wm, w, h, maze.start, p, j);
                    let c = p[j];
                    assert(open_in(wm, w, h, c));
                    assert(items0.contains((dist_at(d, w, c).unwrap(), c)));
                    assert(entry_le((dist, u), (dist_at(d, w, c).unwrap(), c)));
                }
            }
            let r = self.trace_back(maze);
            self.route = r;
            proof {
                assert(heap_items(self.min_heap) =~= items0.remove((dist, u)));
                assert(pre.queue().remove((dist, u)) == items0.remove((dist, u)));
            }
            return;
        }
        proof {
            lemma_count_true_set(self.explored@, i as int);
            lemma_count_true_le(self.explored@.update(i as int, true));
            assert(items0.contains((dist_at(d, w, u).unwrap(), u)));
            assert(entry_le((dist, u), (dist_at(d, w, u).unwrap(), u)));
        }
        self.traversed_cells += 1;
        self.explored.set(i, true);
        self.last_key = Ghost(dist as int);
        maze.explore(x, y);
        proof {
            let e1 = self.explored@;
            let wm = maze.wall_map();
            assert forall|c: Coord| in_grid(w, h, c.0 as int, c.1 as int) implies #[trigger] explored_at(e1, w, c)
                == (explored_at(e0, w, c) || c == u) by {
                lemma_index_in_range(w, h, c.0 as int, c.1 as int);
                if index_of(w, c.0 as int, c.1 as int) == i {
                    lemma_index_injective(w, h, c.0 as int, c.1 as int, x as int, y as int);
                }
            }
            assert forall|c: Coord|
                #![trigger dist_at(d, w, c)]
                in_grid(w, h, c.0 as int, c.1 as int) && dist_at(d, w, c).is_some() && !explored_at(e1, w, c)
                implies heap_items(self.min_heap).contains((dist_at(d, w, c).unwrap(), c)) by {
                assert(items0.contains((dist_at(d, w, c).unwrap(), c)));
            }
            assert forall|c: Coord, n: Coord|
                #![trigger explored_at(e1, w, c), adjacent(c, n)]
                in_grid(w, h, c.0 as int, c.1 as int) && explored_at(e1, w, c) && c != u && adjacent(c, n)
                    && open_in(wm, w, h, n) implies dist_at(d, w, c).is_some() && dist_at(d, w, n).is_some()
                    && dist_at(d, w, n).unwrap() <= dist_at(d, w, c).unwrap() + 1 by {
                assert(explored_at(e0, w, c));
            }
            assert forall|c: Coord|
                #![trigger explored_at(e1, w, c)]
                in_grid(w, h, c.0 as int, c.1 as int) && explored_at(e1, w, c) implies dist_at(d, w, c).is_some()
                    && dist_at(d, w, c).unwrap() <= dist by {
                if c != u {
                    assert(explored_at(e0, w, c));
                }
            }
            lemma_index_in_range(w, h, maze.end.0 as int, maze.end.1 as int);
            assert(!explored_at(e1, w, maze.end)) by {
                assert(!explored_at(e0, w, maze.end));
                if index_of(w, maze.end.0 as int, maze.end.1 as int) == i {
                    lemma_index_injective(w, h, maze.end.0 as int, maze.end.1 as int, x as int, y as int);
                }
            }
            assert(self.expanding(*maze, u, dist, 0));
            assert(maze.at_most_one_changed(m0));
        }
        let ghost m1 = *maze;
        let ghost e1 = self.explored@;
        let ghost hpop = heap_items(self.min_heap);
        let ghost wm = m0.wall_map();
        proof {
            assert(hpop =~= items0.remove((dist, u)));
        }
        let mut k: usize = 0;
        while k < 4
            invariant
                0 <= k <= 4,
                self.expanding(*maze, (x, y), dist, k as int),
                self.route@.len() == 0,
                *maze == m1,
                m1.wf(),
                m1.explored_from(m0),
                m1.at_most_one_changed(m0),
                m1.cells@ == m0.cells_explored_at(u),
                self.explored@ == e1,
                self.traversed_cells == old(self).traversed_cells + 1,
                u == (x, y),
                w == m0.width,
                h == m0.height,
                wm == m0.wall_map(),
                d.len() == w * h,
                in_grid(w, h, u.0 as int, u.1 as int),
                forall|c: Coord|
                    in_grid(w, h, c.0 as int, c.1 as int) ==> #[trigger] dist_at(self.distances@, w, c)
                        == dj_relaxed_dist(d, wm, w, h, u, dist as int, c, k as int),
                forall|en: Entry| #[trigger] heap_items(self.min_heap).count(en) == hpop.count(en)
                    + dj_relaxed_entries(d, wm, w, h, u, dist as int, en, k as int),
            decreases 4 - k,
        {
            let ghost dp = self.distances@;
            let ghost hp = heap_items(self.min_heap);
            self.relax_neighbour(maze, x, y, dist, k);
            proof {
                assert(maze.wall_map() == wm);
                lemma_dj_relax_step(d, hpop, dp, hp, self.distances@, heap_items(self.min_heap), wm, w, h, u, dist as int, k as int);
            }
            k += 1;
        }
        proof {
            self.lemma_expanding_done(*maze, (x, y), dist);
            assert(pre.queue().remove((dist, u)) == hpop);
            assert(pre.distances_view() == d);
            assert(u != m0.end);
        }
    }

    /// The route found: walking back from the end, each move goes to the
    /// neighbour with the smallest recorded distance below the current
    /// cell's, until the start is reached; the cells are returned from start
    /// to end. Empty while the search is unsolved.
    fn trace_back(&self, maze: &Maze) -> (r: Vec<Coord>)
        requires
            self.search_inv(*maze),
        ensures
            self.solved_spec() ==> links(
                maze.wall_map(),
                maze.width as int,
                maze.height as int,
                r@,
                maze.start,
                maze.end,
            ),
            self.solved_spec() ==> r@.len() <= self.end_distance(*maze) + 1,
            self.solved_spec() ==> forall|q: Seq<Coord>|
                #[trigger] links(maze.wall_map(), maze.width as int, maze.height as int, q, maze.start, maze.end)
                    ==> r@.len() <= q.len(),
            !self.solved_spec() ==> r@.len() == 0,
    {
        if !self.solved {
            return Vec::new();
        }
        let ghost w = maze.width as int;
        let ghost h = maze.height as int;
        let ghost wm = maze.wall_map();
        let ghost d = self.distances@;
        let width = maze.width;
        let height = maze.height;
        let start = maze.start;
        let mut step = maze.end;
        let mut back: Vec<Coord> = Vec::new();
        proof {
            maze.lemma_start_end_open();
            lemma_links_single(wm, w, h, maze.end);
            assert(back@.push(step) =~= seq![maze.end]);
        }
        while step.0 != start.0 || step.1 != start.1
            invariant
                self.search_inv(*maze),
                w == width,
                h == height,
                width == maze.width,
                height == maze.height,
                start == maze.start,
                wm == maze.wall_map(),
                d == self.distances@,
                in_grid(w, h, step.0 as int, step.1 as int),
                dist_at(d, w, step).is_some(),
                links(wm, w, h, back@.push(step), maze.end, step),
                back@.len() + dist_at(d, w, step).unwrap() <= dist_at(d, w, maze.end).unwrap(),
            ensures
                step == start,
            decreases dist_at(d, w, step).unwrap(),
        {
            proof {
                lemma_index_in_range(w, h, step.0 as int, step.1 as int);
            }
            let cur = match self.distances[step.1 * width + step.0] {
                Some(c) => c,
                None => 0,
            };
            let ghost back0 = back@;
            back.push(step);
            let mut best: Option<(usize, Coord)> = None;
            let mut k: usize = 0;
            while k < 4
                invariant
                    0 <= k <= 4,
                    self.search_inv(*maze),
                    w == width,
                    h == height,
                    width == maze.width,
                    height == maze.height,
                    d == self.distances@,
                    in_grid(w, h, step.0 as int, step.1 as int),
                    cur == dist_at(d, w, step).unwrap(),
                    best.is_some() ==> {
                        let (bd, q) = best.unwrap();
                        &&& in_grid(w, h, q.0 as int, q.1 as int)
                        &&& adjacent(step, q)
                        &&& dist_at(d, w, q) == Some(bd)
                        &&& bd < cur
                    },
                    forall|kk: int|
                        0 <= kk < k ==> {
                            let s = #[trigger] step_of(step, kk);
                            in_grid(w, h, s.0, s.1) && d[index_of(w, s.0, s.1)].is_some()
                                && d[index_of(w, s.0, s.1)].unwrap() < cur ==> best.is_some()
                        },
                decreases 4 - k,
            {
                match neighbour(step, k, width, height) {
                    Some(q) => {
                        proof {
                            lemma_index_in_range(w, h, q.0 as int, q.1 as int);
                        }
                        match self.distances[q.1 * width + q.0] {
                            Some(dq) => {
                                if dq < cur {
                                    let replace = match best {
                                        Some((bd, _)) => dq < bd,
                                        None => true,
                                    };
                                    if replace {
                                        best = Some((dq, q));
                                    }
                                }
                            },
                            None => {},
                        }
                    },
                    None => {},
                }
                k += 1;
            }
            match best {
                Some((bd, q)) => {
                    proof {
                        assert(step != start);
                        let c = step;
                        assert(has_lower_neighbour(d, w, h, c, dist_at(d, w, c).unwrap() as int));
                        assert(open_in(wm, w, h, q));
                        lemma_links_push(wm, w, h, back@, maze.end, step, q);
                    }
                    step = q;
                },
                None => {
                    proof {
                        let c = step;
                        assert(c != start);
                        assert(has_lower_neighbour(d, w, h, c, dist_at(d, w, c).unwrap() as int));
                        let b = choose|b: Coord|
                            #![trigger dist_at(d, w, b), adjacent(b, c)]
                            in_grid(w, h, b.0 as int, b.1 as int) && adjacent(b, c) && dist_at(d, w, b).is_some()
                                && (dist_at(d, w, b).unwrap() as int) < dist_at(d, w, c).unwrap() as int;
                        assert(adjacent(c, b));
                        lemma_adjacent_is_step(c, b);
                        let kk = choose|kk: int| 0 <= kk < 4 && #[trigger] step_of(c, kk) == (b.0 as int, b.1 as int);
                        assert(false);
                    }
                    break;
                },
            }
        }
        back.push(step);
        proof {
            lemma_links_reverse(wm, w, h, back@, maze.end, maze.start);
        }
        reversed(&back)
    }

    /// The route found, from start to end, as recorded when the end cell was
    /// popped. Empty while the search is unsolved.
    pub fn get_path(&self, maze: &Maze) -> (r: Vec<Coord>)
        requires
            self.inv(*maze),
        ensures
            r@ == self.route_spec(),
            self.solved_spec() ==> links(
                maze.wall_map(),
                maze.width as int,
                maze.height as int,
                r@,
                maze.start,
                maze.end,
            ),
            self.solved_spec() ==> forall|q: Seq<Coord>|
                #[trigger] links(maze.wall_map(), maze.width as int, maze.height as int, q, maze.start, maze.end)
                    ==> r@.len() <= q.len(),
            !self.solved_spec() ==> r@.len() == 0,
    {
        copy_path(&self.route)
    }

    /// The accuracy of the search so far: the cells on the path found over
    /// the cells expanded, as a fraction (see `accuracy_of`).
    pub fn get_accuracy(&self, maze: &Maze) -> (r: (usize, usize))
        requires
            self.inv(*maze),
        ensures
            r.1 > 0,
            (r.0 as nat, r.1 as nat) == accuracy_of(self.route_spec().len(), self.traversed()),
    {
        let path = self.get_path(maze);
        accuracy_fraction(path.len(), self.traversed_cells)
    }

    /// Whether the end cell has been reached.
    pub fn is_solved(&self) -> (r: bool)
        ensures
            r == self.solved_spec(),
    {
        self.solved
    }

    /// The number of cells expanded so far.
    pub fn traversed_cells(&self) -> (r: usize)
        ensures
            r == self.traversed(),
    {
        self.traversed_cells
    }

    /// Whether no entry is left in the queue.
    pub fn is_exhausted(&self) -> (r: bool)
        ensures
            r == (self.frontier_len() == 0),
    {
        heap_is_empty(&self.min_heap)
    }
}

} // verus!
