//! A* search with the Manhattan distance to the end as its estimate.
use vstd::prelude::*;
use vstd::multiset::Multiset;
use min_max_heap::MinMaxHeap;
use crate::maze::{Coord, CellState, Maze, in_grid, index_of, lemma_index_in_range, lemma_index_injective};
use crate::walks::{adjacent, open_in, links, reachable, copy_path, is_walk, step_of, dir_of, lemma_dir_of, lemma_step_dir, lemma_adjacent_is_step, neighbour, manhattan, reversed, lemma_links_push,
    lemma_links_single, lemma_links_reverse};
use crate::generate::manhattan_distance;
use crate::counting::{count_true, lemma_count_true_set, lemma_count_true_le};
use crate::accuracy::{accuracy_of, accuracy_fraction};
use crate::frontier::{Entry, entry_le, heap_items, heap_new, heap_push, heap_pop_min, heap_is_empty};

verus! {

/// The value recorded for `c`, if any.
pub open spec fn score_at(s: Seq<Option<usize>>, w: int, c: Coord) -> Option<usize> {
    s[index_of(w, c.0 as int, c.1 as int)]
}

/// One flag per cell: whether a cost is recorded for it.
pub open spec fn recorded(s: Seq<Option<usize>>) -> Seq<bool> {
    s.map_values(|o: Option<usize>| o.is_some())
}

/// `c` has a cost and a queue entry keyed by that cost plus its distance
/// to `goal`.
pub open spec fn pending(items: Multiset<Entry>, g: Seq<Option<usize>>, w: int, goal: Coord, c: Coord) -> bool {
    score_at(g, w, c).is_some() && items.contains(
        ((score_at(g, w, c).unwrap() + manhattan(c, goal)) as usize, c),
    )
}

/// Every open neighbour of `c` has a cost at most one more than `c`'s.
pub open spec fn spread(g: Seq<Option<usize>>, wm: Seq<bool>, w: int, h: int, c: Coord) -> bool {
    forall|n: Coord|
        #[trigger] adjacent(c, n) && open_in(wm, w, h, n) ==> score_at(g, w, n).is_some() && score_at(
            g,
            w,
            n,
        ).unwrap() <= score_at(g, w, c).unwrap() + 1
}

/// The Manhattan distance from a cell of a walk to its last cell is at most
/// the number of moves left.
proof fn lemma_manhattan_walk(wm: Seq<bool>, w: int, h: int, p: Seq<Coord>, j: int)
    requires
        is_walk(wm, w, h, p),
        0 <= j < p.len(),
    ensures
        manhattan(p[j], p[p.len() - 1]) <= p.len() - 1 - j,
    decreases p.len() - j,
{
    if j < p.len() - 1 {
        lemma_manhattan_walk(wm, w, h, p, j + 1);
        assert(adjacent(p[j], p[j + 1]));
    }
}

/// Along a walk from the start whose first `l` cells have no pending entry,
/// the cell at `l` costs at most `l`.
proof fn lemma_cost_chain(
    items: Multiset<Entry>,
    g: Seq<Option<usize>>,
    wm: Seq<bool>,
    w: int,
    h: int,
    goal: Coord,
    p: Seq<Coord>,
    l: int,
)
    requires
        is_walk(wm, w, h, p),
        score_at(g, w, p[0]) == Some(0usize),
        0 <= l < p.len(),
        forall|c: Coord|
            #![trigger score_at(g, w, c)]
            in_grid(w, h, c.0 as int, c.1 as int) && score_at(g, w, c).is_some() ==> pending(
                items,
                g,
                w,
                goal,
                c,
            ) || spread(g, wm, w, h, c),
        forall|m: int| 0 <= m < l ==> !pending(items, g, w, goal, #[trigger] p[m]),
    ensures
        score_at(g, w, p[l]).is_some(),
        score_at(g, w, p[l]).unwrap() <= l,
    decreases l,
{
    if l > 0 {
        lemma_cost_chain(items, g, wm, w, h, goal, p, l - 1);
        let c = p[l - 1];
        assert(open_in(wm, w, h, c));
        assert(!pending(items, g, w, goal, c));
        assert(spread(g, wm, w, h, c));
        assert(adjacent(c, p[l]));
        assert(open_in(wm, w, h, p[l]));
    }
}

/// The first cell of a walk to `goal`, from index `i` on, with a pending
/// entry.
proof fn lemma_first_pending(
    items: Multiset<Entry>,
    g: Seq<Option<usize>>,
    wm: Seq<bool>,
    w: int,
    h: int,
    goal: Coord,
    p: Seq<Coord>,
    i: int,
) -> (j: int)
    requires
        is_walk(wm, w, h, p),
        score_at(g, w, p[0]) == Some(0usize),
        p[p.len() - 1] == goal,
        0 <= i < p.len(),
        forall|c: Coord|
            #![trigger score_at(g, w, c)]
            in_grid(w, h, c.0 as int, c.1 as int) && score_at(g, w, c).is_some() ==> pending(
                items,
                g,
                w,
                goal,
                c,
            ) || spread(g, wm, w, h, c),
        score_at(g, w, goal).is_some() ==> pending(items, g, w, goal, goal),
        forall|m: int| 0 <= m < i ==> !pending(items, g, w, goal, #[trigger] p[m]),
    ensures
        i <= j < p.len(),
        pending(items, g, w, goal, p[j]),
        forall|m: int| 0 <= m < j ==> !pending(items, g, w, goal, #[trigger] p[m]),
    decreases p.len() - i,
{
    if pending(items, g, w, goal, p[i]) {
        i
    } else {
        if i == p.len() - 1 {
            lemma_cost_chain(items, g, wm, w, h, goal, p, i);
        }
        lemma_first_pending(items, g, wm, w, h, goal, p, i + 1)
    }
}

/// The neighbour `c` of `u` gets a lower cost through `u`.
pub open spec fn improves(g: Seq<Option<usize>>, w: int, u: Coord, c: Coord) -> bool {
    score_at(g, w, c).is_none() || score_at(g, w, u).unwrap() + 1 < score_at(g, w, c).unwrap()
}

/// `c` is an open neighbour of `u`, among its first `k` directions (down,
/// up, right, left), whose cost improves through `u`.
pub open spec fn relaxes(g: Seq<Option<usize>>, wm: Seq<bool>, w: int, h: int, u: Coord, c: Coord, k: int) -> bool {
    adjacent(u, c) && dir_of(u, c) < k && open_in(wm, w, h, c) && improves(g, w, u, c)
}

/// The cost of `c` once the first `k` neighbours of `u` are relaxed.
pub open spec fn relaxed_cost(g: Seq<Option<usize>>, wm: Seq<bool>, w: int, h: int, u: Coord, c: Coord, k: int) -> Option<usize> {
    if relaxes(g, wm, w, h, u, c, k) {
        Some((score_at(g, w, u).unwrap() + 1) as usize)
    } else {
        score_at(g, w, c)
    }
}

/// How many copies of `en` relaxing the first `k` neighbours of `u` queues:
/// one for each improved neighbour, keyed by its new cost plus its distance
/// to `goal`.
pub open spec fn relaxed_entries(
    g: Seq<Option<usize>>,
    wm: Seq<bool>,
    w: int,
    h: int,
    goal: Coord,
    u: Coord,
    en: Entry,
    k: int,
) -> nat {
    if relaxes(g, wm, w, h, u, en.1, k) && en.0 == score_at(g, w, u).unwrap() + 1 + manhattan(en.1, goal) {
        1
    } else {
        0
    }
}

/// The effect of relaxing the neighbour of `u` in direction `k`: costs
/// `gp` and queue `hp` become `gn` and `hn`.
pub open spec fn relax_effect(
    gp: Seq<Option<usize>>,
    hp: Multiset<Entry>,
    gn: Seq<Option<usize>>,
    hn: Multiset<Entry>,
    wm: Seq<bool>,
    w: int,
    h: int,
    goal: Coord,
    u: Coord,
    k: int,
) -> bool {
    let st = step_of(u, k);
    let n: Coord = (st.0 as usize, st.1 as usize);
    let gu = score_at(gp, w, u).unwrap();
    if in_grid(w, h, st.0, st.1) && open_in(wm, w, h, n) && improves(gp, w, u, n) {
        &&& gn == gp.update(index_of(w, st.0, st.1), Some((gu + 1) as usize))
        &&& gu + 1 + manhattan(n, goal) <= usize::MAX
        &&& hn == hp.insert((((gu + 1) + manhattan(n, goal)) as usize, n))
    } else {
        gn == gp && hn == hp
    }
}

/// One relaxation step moves the closed forms from `k` to `k + 1`.
proof fn lemma_relax_step(
    g0: Seq<Option<usize>>,
    hpop: Multiset<Entry>,
    gp: Seq<Option<usize>>,
    hp: Multiset<Entry>,
    gn: Seq<Option<usize>>,
    hn: Multiset<Entry>,
    wm: Seq<bool>,
    w: int,
    h: int,
    goal: Coord,
    u: Coord,
    k: int,
)
    requires
        0 <= k < 4,
        0 < w <= usize::MAX,
        0 < h <= usize::MAX,
        g0.len() == w * h,
        gp.len() == w * h,
        in_grid(w, h, u.0 as int, u.1 as int),
        score_at(g0, w, u).is_some(),
        forall|c: Coord|
            in_grid(w, h, c.0 as int, c.1 as int) ==> #[trigger] score_at(gp, w, c) == relaxed_cost(
                g0,
                wm,
                w,
                h,
                u,
                c,
                k,
            ),
        forall|en: Entry| #[trigger] hp.count(en) == hpop.count(en) + relaxed_entries(g0, wm, w, h, goal, u, en, k),
        relax_effect(gp, hp, gn, hn, wm, w, h, goal, u, k),
    ensures
        forall|c: Coord|
            in_grid(w, h, c.0 as int, c.1 as int) ==> #[trigger] score_at(gn, w, c) == relaxed_cost(
                g0,
                wm,
                w,
                h,
                u,
                c,
                k + 1,
            ),
        forall|en: Entry| #[trigger] hn.count(en) == hpop.count(en) + relaxed_entries(g0, wm, w, h, goal, u, en, k + 1),
{
    let st = step_of(u, k);
    let n: Coord = (st.0 as usize, st.1 as usize);
    assert(score_at(gp, w, u) == score_at(g0, w, u)) by {
        assert(!adjacent(u, u));
    }
    if in_grid(w, h, st.0, st.1) {
        lemma_step_dir(u, k, w, h);
        assert(score_at(gp, w, n) == score_at(g0, w, n));
        lemma_index_in_range(w, h, st.0, st.1);
    }
    assert forall|c: Coord| in_grid(w, h, c.0 as int, c.1 as int) implies #[trigger] score_at(gn, w, c) == relaxed_cost(
        g0,
        wm,
        w,
        h,
        u,
        c,
        k + 1,
    ) by {
        lemma_index_in_range(w, h, c.0 as int, c.1 as int);
        if adjacent(u, c) {
            lemma_dir_of(u, c);
        }
        if c == n {
        } else if in_grid(w, h, st.0, st.1) {
            if index_of(w, c.0 as int, c.1 as int) == index_of(w, st.0, st.1) {
                lemma_index_injective(w, h, c.0 as int, c.1 as int, st.0, st.1);
            }
            assert(score_at(gp, w, c) == relaxed_cost(g0, wm, w, h, u, c, k));
        } else {
            assert(score_at(gp, w, c) == relaxed_cost(g0, wm, w, h, u, c, k));
        }
    }
    assert forall|en: Entry| #[trigger] hn.count(en) == hpop.count(en) + relaxed_entries(g0, wm, w, h, goal, u, en, k + 1) by {
        assert(hp.count(en) == hpop.count(en) + relaxed_entries(g0, wm, w, h, goal, u, en, k));
        if adjacent(u, en.1) {
            lemma_dir_of(u, en.1);
        }
    }
}

/// A* search: a min-priority queue keyed by `g + h`, where `g` is the cost of
/// the best known walk from the start and `h` the Manhattan distance to the
/// end. A neighbour whose cost improves gets the current cell as its
/// predecessor and is queued again; cells may be expanded more than once.
pub struct AStar {
    close_set: Vec<bool>,
    came_from: Vec<Option<Coord>>,
    gscore: Vec<Option<usize>>,
    fscore: Vec<Option<usize>>,
    heap: MinMaxHeap<Entry>,
    final_coords: Option<Coord>,
    traversed_cells: usize,
    route: Vec<Coord>,
}

impl AStar {
    /// The search state is sound for `m` (see `search_inv`), and the route
    /// recorded when the end was reached is a shortest walk from start to
    /// end; before that it is empty.
    #[verifier::opaque]
    pub closed spec fn inv(&self, m: Maze) -> bool {
        &&& self.search_inv(m)
        &&& !self.solved_spec() ==> self.route@.len() == 0
        &&& self.solved_spec() ==> links(m.wall_map(), m.width as int, m.height as int, self.route@, m.start, m.end)
        &&& self.solved_spec() ==> forall|q: Seq<Coord>|
            #[trigger] links(m.wall_map(), m.width as int, m.height as int, q, m.start, m.end) ==> self.route@.len()
                <= q.len()
    }

    proof fn lemma_inv_elim(&self, m: Maze)
        requires
            self.inv(m),
        ensures
            self.search_inv(m),
            !self.solved_spec() ==> self.route@.len() == 0,
    {
        reveal(AStar::inv);
    }

    proof fn lemma_inv_intro(&self, m: Maze)
        requires
            self.search_inv(m),
            !self.solved_spec() ==> self.route@.len() == 0,
            self.solved_spec() ==> links(m.wall_map(), m.width as int, m.height as int, self.route@, m.start, m.end),
            self.solved_spec() ==> forall|q: Seq<Coord>|
                #[trigger] links(m.wall_map(), m.width as int, m.height as int, q, m.start, m.end) ==> self.route@.len()
                    <= q.len(),
        ensures
            self.inv(m),
    {
        reveal(AStar::inv);
    }

    /// The route recorded when the end cell was popped; empty before.
    pub closed spec fn route_spec(&self) -> Seq<Coord> {
        self.route@
    }

    /// The search state is sound for `m`: the start costs 0 and has no
    /// predecessor; every other cell with a cost is open and has an adjacent
    /// predecessor of smaller cost; each cost is below the number of cells
    /// with a cost; every queued cell has a cost.
    pub closed spec fn search_inv(&self, m: Maze) -> bool {
        let w = m.width as int;
        let h = m.height as int;
        let g = self.gscore@;
        let items = heap_items(self.heap);
        let wm = m.wall_map();
        &&& self.core_inv(m)
        &&& m.wf()
        &&& m.width * m.height <= usize::MAX / 2
        &&& g.len() == m.width * m.height
        &&& self.close_set@.len() == m.width * m.height
        &&& self.came_from@.len() == m.width * m.height
        &&& score_at(g, w, m.start) == Some(0usize)
        &&& forall|en: Entry|
            #![trigger items.contains(en)]
            items.contains(en) ==> in_grid(w, h, en.1.0 as int, en.1.1 as int) && score_at(g, w, en.1).is_some()
                && score_at(g, w, en.1).unwrap() + manhattan(en.1, m.end) <= en.0
        &&& self.final_coords.is_none() ==> forall|c: Coord|
            #![trigger score_at(g, w, c)]
            in_grid(w, h, c.0 as int, c.1 as int) && score_at(g, w, c).is_some() ==> pending(
                items,
                g,
                w,
                m.end,
                c,
            ) || spread(g, wm, w, h, c)
        &&& self.final_coords.is_none() && score_at(g, w, m.end).is_some() ==> pending(
            items,
            g,
            w,
            m.end,
            m.end,
        )
        &&& self.final_coords.is_some() ==> forall|p: Seq<Coord>|
            #[trigger] links(wm, w, h, p, m.start, m.end) ==> score_at(g, w, m.end).unwrap() + 1 <= p.len()
    }

    /// The bookkeeping part of `inv`: costs, predecessors and queued cells.
    #[verifier::opaque]
    closed spec fn core_inv(&self, m: Maze) -> bool {
        let w = m.width as int;
        let h = m.height as int;
        let g = self.gscore@;
        &&& m.wf()
        &&& m.width * m.height <= usize::MAX / 2
        &&& g.len() == m.width * m.height
        &&& self.came_from@.len() == m.width * m.height
        &&& self.fscore@.len() == m.width * m.height
        &&& self.close_set@.len() == m.width * m.height
        &&& self.came_from@.len() == m.width * m.height
        &&& score_at(g, w, m.start) == Some(0usize)
        &&& self.came_from@[index_of(w, m.start.0 as int, m.start.1 as int)].is_none()
        &&& forall|c: Coord|
            #![trigger score_at(g, w, c)]
            in_grid(w, h, c.0 as int, c.1 as int) && score_at(g, w, c).is_some() ==> {
                &&& open_in(m.wall_map(), w, h, c)
                &&& score_at(g, w, c).unwrap() < count_true(recorded(g))
                &&& (c != m.start ==> {
                    let p = self.came_from@[index_of(w, c.0 as int, c.1 as int)];
                    &&& p.is_some()
                    &&& in_grid(w, h, p.unwrap().0 as int, p.unwrap().1 as int)
                    &&& adjacent(p.unwrap(), c)
                    &&& score_at(g, w, p.unwrap()).is_some()
                    &&& score_at(g, w, p.unwrap()).unwrap() < score_at(g, w, c).unwrap()
                })
            }
        &&& forall|e: Entry|
            #![trigger heap_items(self.heap).contains(e)]
            heap_items(self.heap).contains(e) ==> in_grid(w, h, e.1.0 as int, e.1.1 as int)
                && score_at(g, w, e.1).is_some()
        &&& self.final_coords.is_some() ==> self.final_coords.unwrap() == m.end && score_at(
            g,
            w,
            m.end,
        ).is_some()
    }

    /// While unsolved, a search of a grid whose end is reachable from its
    /// start always has a queued entry to pop.
    pub proof fn lemma_queue_nonempty(&self, m: Maze)
        requires
            self.inv(m),
            !self.solved_spec(),
            reachable(m.wall_map(), m.width as int, m.height as int, m.start, m.end),
        ensures
            self.frontier_len() > 0,
    {
        self.lemma_inv_elim(m);
        let w = m.width as int;
        let h = m.height as int;
        let wm = m.wall_map();
        let g = self.gscore@;
        let items = heap_items(self.heap);
        let p = choose|p: Seq<Coord>| links(wm, w, h, p, m.start, m.end);
        let j = lemma_first_pending(items, g, wm, w, h, m.end, p, 0);
        let c = p[j];
        let key = ((score_at(g, w, c).unwrap() + manhattan(c, m.end)) as usize, c);
        assert(items.contains(key));
        vstd::multiset::lemma_multiset_empty_len(items);
        if items.len() == 0 {
            assert(items.count(key) == Multiset::<Entry>::empty().count(key));
        }
    }

    /// The queued entries.
    pub closed spec fn queue(&self) -> Multiset<Entry> {
        heap_items(self.heap)
    }

    /// The cost of the best known walk to each cell, by cell index.
    pub closed spec fn costs(&self) -> Seq<Option<usize>> {
        self.gscore@
    }

    /// The predecessor recorded for each cell, by cell index.
    pub closed spec fn preds(&self) -> Seq<Option<Coord>> {
        self.came_from@
    }

    /// The recorded cost plus distance to the end of each cell, by cell index.
    pub closed spec fn estimates(&self) -> Seq<Option<usize>> {
        self.fscore@
    }

    /// One flag per cell: whether it is in the closed set.
    pub closed spec fn closed_flags(&self) -> Seq<bool> {
        self.close_set@
    }

    /// Whether the end cell has been popped.
    pub closed spec fn solved_spec(&self) -> bool {
        self.final_coords.is_some()
    }

    /// The number of cells expanded so far (it stops growing at `usize::MAX`).
    pub closed spec fn traversed(&self) -> nat {
        self.traversed_cells as nat
    }

    /// The number of entries waiting in the queue.
    pub closed spec fn frontier_len(&self) -> nat {
        heap_items(self.heap).len()
    }

    /// The state of a search that has not begun on `m`: only the start is
    /// queued, keyed by its distance to the end, and only the start has a
    /// cost, 0.
    pub open spec fn fresh(&self, m: Maze) -> bool {
        let n = (m.width * m.height) as nat;
        let si = index_of(m.width as int, m.start.0 as int, m.start.1 as int);
        &&& self.queue() =~= Multiset::empty().insert((manhattan(m.start, m.end) as usize, m.start))
        &&& self.costs() == Seq::new(n, |i: int| None::<usize>).update(si, Some(0usize))
        &&& self.estimates() == Seq::new(n, |i: int| None::<usize>).update(
            si,
            Some(manhattan(m.start, m.end) as usize),
        )
        &&& self.preds() == Seq::new(n, |i: int| None::<Coord>)
        &&& self.closed_flags() == Seq::new(n, |i: int| false)
        &&& !self.solved_spec()
        &&& self.traversed() == 0
        &&& self.route_spec().len() == 0
    }

    /// The Manhattan distance between `(x0, y0)` and `(x1, y1)`.
    fn heuristic(x0: usize, y0: usize, x1: usize, y1: usize, width: usize, height: usize) -> (r: usize)
        requires
            width * height <= usize::MAX,
            x0 < width,
            x1 < width,
            y0 < height,
            y1 < height,
        ensures
            r == manhattan((x0, y0), (x1, y1)),
            r < width + height,
    {
        manhattan_distance((x0, y0), (x1, y1), width, height)
    }

    /// A search of `maze` that has not begun.
    #[verifier::rlimit(100)]
    pub fn new(maze: &Maze) -> (r: Self)
        requires
            maze.wf(),
            maze.width * maze.height <= usize::MAX / 2,
        ensures
            r.fresh(*maze),
            r.inv(*maze),
            !r.solved_spec(),
            r.traversed() == 0,
    {
        let ghost w = maze.width as int;
        let ghost h = maze.height as int;
        let n = maze.width * maze.height;
        proof {
            lemma_index_in_range(w, h, maze.start.0 as int, maze.start.1 as int);
        }
        let si = maze.start.1 * maze.width + maze.start.0;
        let mut gscore: Vec<Option<usize>> = vec![None; n];
        gscore.set(si, Some(0));
        let f0 = Self::heuristic(maze.start.0, maze.start.1, maze.end.0, maze.end.1, maze.width, maze.height);
        let mut fscore: Vec<Option<usize>> = vec![None; n];
        fscore.set(si, Some(f0));
        let mut heap = heap_new();
        heap_push(&mut heap, (f0, maze.start));
        let came_from: Vec<Option<Coord>> = vec![None; n];
        let close_set: Vec<bool> = vec![false; n];
        let r = AStar {
            close_set,
            came_from,
            gscore,
            fscore,
            heap,
            final_coords: None,
            traversed_cells: 0,
            route: Vec::new(),
        };
        proof {
            maze.lemma_start_end_open();
            let g = r.gscore@;
            assert(r.close_set@ =~= Seq::new(n as nat, |i: int| false));
            assert(r.came_from@ =~= Seq::new(n as nat, |i: int| None::<Coord>));
            assert(g =~= Seq::new(n as nat, |i: int| None::<usize>).update(si as int, Some(0usize)));
            assert(r.fscore@ =~= Seq::new(n as nat, |i: int| None::<usize>).update(si as int, Some(f0)));
            lemma_count_true_set(recorded(Seq::new(n as nat, |i: int| None::<usize>)), si as int);
            assert(recorded(g) =~= recorded(Seq::new(n as nat, |i: int| None::<usize>)).update(si as int, true));
            assert(count_true(recorded(g)) >= 1);
            assert forall|c: Coord|
                #![trigger score_at(g, w, c)]
                in_grid(w, h, c.0 as int, c.1 as int) && score_at(g, w, c).is_some() implies {
                    &&& open_in(maze.wall_map(), w, h, c)
                    &&& score_at(g, w, c).unwrap() < count_true(recorded(g))
                    &&& (c != maze.start ==> {
                        let p = r.came_from@[index_of(w, c.0 as int, c.1 as int)];
                        &&& p.is_some()
                        &&& in_grid(w, h, p.unwrap().0 as int, p.unwrap().1 as int)
                        &&& adjacent(p.unwrap(), c)
                        &&& score_at(g, w, p.unwrap()).is_some()
                        &&& score_at(g, w, p.unwrap()).unwrap() < score_at(g, w, c).unwrap()
                    })
                } by {
                lemma_index_in_range(w, h, c.0 as int, c.1 as int);
                lemma_index_injective(w, h, c.0 as int, c.1 as int, maze.start.0 as int, maze.start.1 as int);
            }
            reveal(AStar::core_inv);
            reveal(AStar::inv);
            assert(r.core_inv(*maze));
            let items = heap_items(r.heap);
            assert(items.contains((f0, maze.start)));
            assert forall|c: Coord|
                #![trigger score_at(g, w, c)]
                in_grid(w, h, c.0 as int, c.1 as int) && score_at(g, w, c).is_some() implies pending(
                    items,
                    g,
                    w,
                    maze.end,
                    c,
                ) by {
                lemma_index_in_range(w, h, c.0 as int, c.1 as int);
                lemma_index_injective(w, h, c.0 as int, c.1 as int, maze.start.0 as int, maze.start.1 as int);
            }
            lemma_index_in_range(w, h, maze.end.0 as int, maze.end.1 as int);
            if score_at(g, w, maze.end).is_some() {
                assert(pending(items, g, w, maze.end, maze.end));
            }
        }
        r
    }

    /// A search of `maze` that has not begun, of the same kind as this one;
    /// this search is left as it is.
    pub fn get_new_solver(&mut self, maze: &Maze) -> (r: Self)
        requires
            maze.wf(),
            maze.width * maze.height <= usize::MAX / 2,
        ensures
            *final(self) == *old(self),
            r.fresh(*maze),
            r.inv(*maze),
            !r.solved_spec(),
            r.traversed() == 0,
    {
        AStar::new(maze)
    }

    /// The cost recorded for the end cell of `m`.
    pub closed spec fn end_cost(&self, m: Maze) -> int {
        score_at(self.gscore@, m.width as int, m.end).unwrap() as int
    }

    /// The state while the cell `u` is being expanded: its first `k`
    /// neighbours have been relaxed.
    closed spec fn expanding(&self, m: Maze, u: Coord, k: int) -> bool {
        let w = m.width as int;
        let h = m.height as int;
        let g = self.gscore@;
        let items = heap_items(self.heap);
        let wm = m.wall_map();
        &&& self.core_inv(m)
        &&& m.wf()
        &&& m.width * m.height <= usize::MAX / 2
        &&& g.len() == m.width * m.height
        &&& self.close_set@.len() == m.width * m.height
        &&& self.came_from@.len() == m.width * m.height
        &&& score_at(g, w, m.start) == Some(0usize)
        &&& self.final_coords.is_none()
        &&& 0 <= k <= 4
        &&& in_grid(w, h, u.0 as int, u.1 as int)
        &&& score_at(g, w, u).is_some()
        &&& u != m.end
        &&& forall|en: Entry|
            #![trigger items.contains(en)]
            items.contains(en) ==> in_grid(w, h, en.1.0 as int, en.1.1 as int) && score_at(g, w, en.1).is_some()
                && score_at(g, w, en.1).unwrap() + manhattan(en.1, m.end) <= en.0
        &&& forall|c: Coord|
            #![trigger score_at(g, w, c)]
            in_grid(w, h, c.0 as int, c.1 as int) && score_at(g, w, c).is_some() && c != u ==> pending(
                items,
                g,
                w,
                m.end,
                c,
            ) || spread(g, wm, w, h, c)
        &&& score_at(g, w, m.end).is_some() ==> pending(items, g, w, m.end, m.end)
        &&& forall|kk: int|
            0 <= kk < k ==> {
                let st = #[trigger] step_of(u, kk);
                in_grid(w, h, st.0, st.1) && !wm[index_of(w, st.0, st.1)] ==> g[index_of(w, st.0, st.1)].is_some()
                    && g[index_of(w, st.0, st.1)].unwrap() <= score_at(g, w, u).unwrap() + 1
            }
    }

    /// Once all four neighbours of the expanded cell are relaxed, the search
    /// state is sound again.
    proof fn lemma_expanding_done(&self, m: Maze, u: Coord)
        requires
            self.expanding(m, u, 4),
        ensures
            self.search_inv(m),
    {
        let w = m.width as int;
        let h = m.height as int;
        let g = self.gscore@;
        let wm = m.wall_map();
        assert forall|n: Coord| #[trigger] adjacent(u, n) && open_in(wm, w, h, n) implies score_at(g, w, n).is_some()
            && score_at(g, w, n).unwrap() <= score_at(g, w, u).unwrap() + 1 by {
            lemma_adjacent_is_step(u, n);
            let kk = choose|kk: int| 0 <= kk < 4 && #[trigger] step_of(u, kk) == (n.0 as int, n.1 as int);
            assert(step_of(u, kk) == (n.0 as int, n.1 as int));
        }
        assert(spread(g, wm, w, h, u));
    }

    /// The bookkeeping invariant survives a step that leaves costs and
    /// predecessors alone, only drops queue entries, and relabels open cells.
    proof fn lemma_core_kept(&self, before: AStar, m: Maze, m0: Maze)
        requires
            before.core_inv(m0),
            m.explored_from(m0),
            m.wf(),
            self.gscore == before.gscore,
            self.came_from == before.came_from,
            self.fscore == before.fscore,
            self.close_set@.len() == before.close_set@.len(),
            self.final_coords.is_some() ==> self.final_coords.unwrap() == m.end && score_at(
                self.gscore@,
                m.width as int,
                m.end,
            ).is_some(),
            forall|en: Entry| #[trigger] heap_items(self.heap).contains(en) ==> heap_items(before.heap).contains(en),
        ensures
            self.core_inv(m),
    {
        reveal(AStar::core_inv);
    }

    /// When the end is popped as a least entry, its cost plus one is at most
    /// the number of cells of any walk from the start to the end.
    proof fn lemma_end_cost_bound(&self, m: Maze, f0: usize)
        requires
            self.search_inv(m),
            self.final_coords.is_none(),
            heap_items(self.heap).contains((f0, m.end)),
            forall|en: Entry| #[trigger] heap_items(self.heap).contains(en) ==> entry_le((f0, m.end), en),
        ensures
            forall|p: Seq<Coord>|
                #[trigger] links(m.wall_map(), m.width as int, m.height as int, p, m.start, m.end)
                    ==> score_at(self.gscore@, m.width as int, m.end).unwrap() + 1 <= p.len(),
    {
        let w = m.width as int;
        let h = m.height as int;
        let g = self.gscore@;
        let wm = m.wall_map();
        let items0 = heap_items(self.heap);
        assert forall|p: Seq<Coord>| #[trigger] links(wm, w, h, p, m.start, m.end) implies score_at(g, w, m.end).unwrap() + 1 <= p.len() by {
            let j = lemma_first_pending(items0, g, wm, w, h, m.end, p, 0);
            lemma_cost_chain(items0, g, wm, w, h, m.end, p, j);
            lemma_manhattan_walk(wm, w, h, p, j);
            let c = p[j];
            let key = ((score_at(g, w, c).unwrap() + manhattan(c, m.end)) as usize, c);
            assert(items0.contains(key));
            assert(entry_le((f0, m.end), key));
            assert(manhattan(m.end, m.end) == 0);
        }
    }

    /// Records the cost `gc + 1` for the neighbour `(nx, ny)` of `(x, y)`,
    /// with `(x, y)` as its predecessor, and queues it keyed by that cost
    /// plus its distance to the end.
    #[verifier::rlimit(60)]
    fn improve(&mut self, maze: &Maze, x: usize, y: usize, nx: usize, ny: usize, gc: usize)
        requires
            old(self).core_inv(*maze),
            old(self).final_coords.is_none(),
            in_grid(maze.width as int, maze.height as int, x as int, y as int),
            in_grid(maze.width as int, maze.height as int, nx as int, ny as int),
            adjacent((x, y), (nx, ny)),
            open_in(maze.wall_map(), maze.width as int, maze.height as int, (nx, ny)),
            score_at(old(self).gscore@, maze.width as int, (x, y)) == Some(gc),
            score_at(old(self).gscore@, maze.width as int, (nx, ny)).is_none() || gc + 1 < score_at(
                old(self).gscore@,
                maze.width as int,
                (nx, ny),
            ).unwrap(),
        ensures
            final(self).core_inv(*maze),
            final(self).gscore@ == old(self).gscore@.update(
                index_of(maze.width as int, nx as int, ny as int),
                Some((gc + 1) as usize),
            ),
            heap_items(final(self).heap) =~= heap_items(old(self).heap).insert(
                (((gc + 1) + manhattan((nx, ny), maze.end)) as usize, (nx, ny)),
            ),
            final(self).final_coords == old(self).final_coords,
            final(self).traversed_cells == old(self).traversed_cells,
            final(self).route == old(self).route,
            final(self).close_set == old(self).close_set,
            final(self).came_from@.len() == old(self).came_from@.len(),
            gc + 1 + manhattan((nx, ny), maze.end) <= usize::MAX,
    {
        reveal(AStar::core_inv);
        let ghost w = maze.width as int;
        let ghost h = maze.height as int;
        let width = maze.width;
        let height = maze.height;
        let end = maze.end;
        let ghost g0 = self.gscore@;
        let ghost cf0 = self.came_from@;
        let ghost hp0 = heap_items(self.heap);
        proof {
            lemma_index_in_range(w, h, nx as int, ny as int);
            lemma_count_true_le(recorded(g0));
            lemma_index_in_range(w, h, x as int, y as int);
            assert(w + h <= w * h + 1) by (nonlinear_arith)
                requires
                    w >= 1,
                    h >= 1,
            ;
        }
        let ni = ny * width + nx;
        let tentative = gc + 1;
        let ghost n: Coord = (nx, ny);
        let ghost c: Coord = (x, y);
        self.came_from.set(ni, Some((x, y)));
        self.gscore.set(ni, Some(tentative));
        let f = tentative + Self::heuristic(nx, ny, end.0, end.1, width, height);
        self.fscore.set(ni, Some(f));
        heap_push(&mut self.heap, (f, (nx, ny)));
                    proof {
                        let g1 = self.gscore@;
                        let cf1 = self.came_from@;
                        let si = index_of(w, maze.start.0 as int, maze.start.1 as int);
                        lemma_index_in_range(w, h, maze.start.0 as int, maze.start.1 as int);
                        if ni == si {
                            lemma_index_injective(w, h, maze.start.0 as int, maze.start.1 as int, nx as int, ny as int);
                            assert(g0[ni as int] == Some(0usize));
                            assert(false);
                        }
                        let xi = index_of(w, x as int, y as int);
                        if xi == ni {
                            lemma_index_injective(w, h, x as int, y as int, nx as int, ny as int);
                        }
                        assert(recorded(g1) =~= recorded(g0).update(ni as int, true));
                        lemma_count_true_set(recorded(g0), ni as int);
                        assert(count_true(recorded(g1)) >= count_true(recorded(g0)));
                        assert(tentative < count_true(recorded(g1))) by {
                            if g0[ni as int].is_some() {
                                assert(score_at(g0, w, n).unwrap() < count_true(recorded(g0)));
                            }
                        }
                        assert forall|q: Coord|
                            #![trigger score_at(g1, w, q)]
                            in_grid(w, h, q.0 as int, q.1 as int) && score_at(g1, w, q).is_some() implies {
                                &&& open_in(maze.wall_map(), w, h, q)
                                &&& score_at(g1, w, q).unwrap() < count_true(recorded(g1))
                                &&& (q != maze.start ==> {
                                    let p = cf1[index_of(w, q.0 as int, q.1 as int)];
                                    &&& p.is_some()
                                    &&& in_grid(w, h, p.unwrap().0 as int, p.unwrap().1 as int)
                                    &&& adjacent(p.unwrap(), q)
                                    &&& score_at(g1, w, p.unwrap()).is_some()
                                    &&& score_at(g1, w, p.unwrap()).unwrap() < score_at(g1, w, q).unwrap()
                                })
                            } by {
                            lemma_index_in_range(w, h, q.0 as int, q.1 as int);
                            let qi = index_of(w, q.0 as int, q.1 as int);
                            if qi == ni {
                                lemma_index_injective(w, h, q.0 as int, q.1 as int, nx as int, ny as int);
                                assert(open_in(maze.wall_map(), w, h, q));
                                assert(score_at(g1, w, c) == Some(gc));
                            } else {
                                assert(score_at(g1, w, q) == score_at(g0, w, q));
                                assert(cf1[qi] == cf0[qi]);
                                if q != maze.start {
                                    let p = cf0[qi].unwrap();
                                    lemma_index_in_range(w, h, p.0 as int, p.1 as int);
                                    if index_of(w, p.0 as int, p.1 as int) == ni {
                                        lemma_index_injective(w, h, p.0 as int, p.1 as int, nx as int, ny as int);
                                    }
                                }
                            }
                        }
                        assert forall|e: Entry| #[trigger] heap_items(self.heap).contains(e) implies in_grid(w, h, e.1.0 as int, e.1.1 as int)
                            && score_at(g1, w, e.1).is_some() by {
                            if e != (f, n) {
                                assert(hp0.contains(e));
                                lemma_index_in_range(w, h, e.1.0 as int, e.1.1 as int);
                            }
                        }
                        assert(score_at(g1, w, maze.start) == Some(0usize));
                        assert(cf1[si].is_none());
                        assert(score_at(g1, w, (x, y)) == Some(gc));
                    }

    }

    /// Relaxes the `k`-th neighbour of the cell `(x, y)` being expanded: an
    /// open neighbour whose cost, if any, exceeds the cell's cost plus one
    /// gets that cost, `(x, y)` as predecessor, and a queue entry.
    fn relax_neighbour(&mut self, maze: &Maze, x: usize, y: usize, k: usize)
        requires
            old(self).expanding(*maze, (x, y), k as int),
            k < 4,
        ensures
            final(self).expanding(*maze, (x, y), k + 1),
            final(self).traversed_cells == old(self).traversed_cells,
            final(self).route == old(self).route,
            final(self).final_coords == old(self).final_coords,
            final(self).close_set == old(self).close_set,
            relax_effect(
                old(self).gscore@,
                heap_items(old(self).heap),
                final(self).gscore@,
                heap_items(final(self).heap),
                maze.wall_map(),
                maze.width as int,
                maze.height as int,
                maze.end,
                (x, y),
                k as int,
            ),
    {
        let ghost w = maze.width as int;
        let ghost h = maze.height as int;
        let ghost u: Coord = (x, y);
        let ghost wm = maze.wall_map();
        let width = maze.width;
        let height = maze.height;
        let ghost end = maze.end;
        proof {
            lemma_index_in_range(w, h, x as int, y as int);
        }
        let gc = match self.gscore[y * width + x] {
            Some(g) => g,
            None => 0,
        };
        match neighbour((x, y), k, width, height) {
            Some((nx, ny)) => {
                proof {
                    lemma_index_in_range(w, h, nx as int, ny as int);
                }
                let ni = ny * width + nx;
                assert(step_of(u, k as int) == (nx as int, ny as int));
                if *maze.get(nx, ny) != CellState::WALL {
                    let better = match self.gscore[ni] {
                        Some(gn) => gc < gn && gn - gc > 1,
                        None => true,
                    };
                    if better {
                        let ghost g0 = self.gscore@;
                        let ghost hp0 = heap_items(self.heap);
                        let ghost n: Coord = (nx, ny);
                        self.improve(maze, x, y, nx, ny, gc);
                        proof {
                            let f: usize = (((gc + 1) + manhattan(n, end)) as usize);
                            let g1 = self.gscore@;
                            let items = heap_items(self.heap);
                            assert(items.contains((f, n)));
                            assert(pending(items, g1, w, end, n));
                            assert forall|q: Coord|
                                in_grid(w, h, q.0 as int, q.1 as int) && #[trigger] score_at(g0, w, q).is_some() implies score_at(g1, w, q).is_some()
                                && score_at(g1, w, q).unwrap() <= score_at(g0, w, q).unwrap()
                                && (q != n ==> score_at(g1, w, q) == score_at(g0, w, q)) by {
                                lemma_index_in_range(w, h, q.0 as int, q.1 as int);
                                if index_of(w, q.0 as int, q.1 as int) == ni {
                                    lemma_index_injective(w, h, q.0 as int, q.1 as int, nx as int, ny as int);
                                }
                            }
                            assert forall|en: Entry| #[trigger] items.contains(en) implies in_grid(w, h, en.1.0 as int, en.1.1 as int)
                                && score_at(g1, w, en.1).is_some()
                                && score_at(g1, w, en.1).unwrap() + manhattan(en.1, end) <= en.0 by {
                                if en != (f, n) {
                                    assert(hp0.contains(en));
                                    lemma_index_in_range(w, h, en.1.0 as int, en.1.1 as int);
                                }
                            }
                            assert forall|q: Coord|
                                #![trigger score_at(g1, w, q)]
                                in_grid(w, h, q.0 as int, q.1 as int) && score_at(g1, w, q).is_some() && q != u implies pending(
                                    items,
                                    g1,
                                    w,
                                    end,
                                    q,
                                ) || spread(g1, wm, w, h, q) by {
                                lemma_index_in_range(w, h, q.0 as int, q.1 as int);
                                if q != n {
                                    assert(score_at(g1, w, q) == score_at(g0, w, q)) by {
                                        if index_of(w, q.0 as int, q.1 as int) == ni {
                                            lemma_index_injective(w, h, q.0 as int, q.1 as int, nx as int, ny as int);
                                        }
                                    }
                                    if pending(hp0, g0, w, end, q) {
                                        assert(pending(items, g1, w, end, q));
                                    } else {
                                        assert(spread(g0, wm, w, h, q));
                                        assert forall|r: Coord| #[trigger] adjacent(q, r) && open_in(wm, w, h, r) implies score_at(g1, w, r).is_some()
                                            && score_at(g1, w, r).unwrap() <= score_at(g1, w, q).unwrap() + 1 by {
                                            assert(score_at(g0, w, r).is_some());
                                        }
                                    }
                                }
                            }
                            if score_at(g1, w, end).is_some() && n != end {
                                assert(score_at(g1, w, end) == score_at(g0, w, end)) by {
                                    lemma_index_in_range(w, h, end.0 as int, end.1 as int);
                                    if index_of(w, end.0 as int, end.1 as int) == ni {
                                        lemma_index_injective(w, h, end.0 as int, end.1 as int, nx as int, ny as int);
                                    }
                                }
                                assert(pending(hp0, g0, w, end, end));
                            }
                            assert(score_at(g1, w, u) == Some(gc)) by {
                                if index_of(w, x as int, y as int) == ni {
                                    lemma_index_injective(w, h, x as int, y as int, nx as int, ny as int);
                                }
                            }
                            assert(score_at(g1, w, maze.start) == Some(0usize)) by {
                                lemma_index_in_range(w, h, maze.start.0 as int, maze.start.1 as int);
                                if index_of(w, maze.start.0 as int, maze.start.1 as int) == ni {
                                    lemma_index_injective(w, h, maze.start.0 as int, maze.start.1 as int, nx as int, ny as int);
                                }
                            }
                            assert forall|kk: int| 0 <= kk < k + 1 implies {
                                let st = #[trigger] step_of(u, kk);
                                in_grid(w, h, st.0, st.1) && !wm[index_of(w, st.0, st.1)] ==> g1[index_of(w, st.0, st.1)].is_some()
                                    && g1[index_of(w, st.0, st.1)].unwrap() <= score_at(g1, w, u).unwrap() + 1
                            } by {
                                let st = step_of(u, kk);
                                if kk < k && in_grid(w, h, st.0, st.1) && !wm[index_of(w, st.0, st.1)] {
                                    let sc: Coord = (st.0 as usize, st.1 as usize);
                                    assert(score_at(g0, w, sc).is_some());
                                }
                            }
                        }
                    } else {
                        assert(self.gscore@[ni as int].is_some());
                    }
                } else {
                    assert(maze.wall_map()[ni as int]);
                }
            },
            None => {},
        }
    }

    /// What one call of `iterate` does: `s0` and `m0` before, `s1` and `m1`
    /// after.
    pub open spec fn step(s0: Self, s1: Self, m0: Maze, m1: Maze) -> bool {
        &&& (m1.explored_from(m0))
        &&& (s0.solved_spec() || s0.frontier_len() == 0 ==> s1 == s0
                && m1 == m0)
        &&& (s0.solved_spec() ==> s1.solved_spec())
        &&& (s1.solved_spec() && !s0.solved_spec() ==> s1.traversed()
                == s0.traversed() && m1 == m0)
        &&& (s0.traversed() <= s1.traversed() <= s0.traversed() + 1)
        &&& (m1.at_most_one_changed(m0))
        &&& (!s0.solved_spec() && s0.frontier_len() > 0 ==> exists|e: Entry|
                #![trigger s0.queue().remove(e)]
                s0.queue().contains(e) && (forall|e2: Entry|
                    #[trigger] s0.queue().contains(e2) ==> entry_le(e, e2)) && if e.1 == m0.end {
                    &&& s1.solved_spec()
                    &&& s1.queue() == s0.queue().remove(e)
                    &&& s1.costs() == s0.costs()
                    &&& s1.traversed() == s0.traversed()
                    &&& m1 == m0
                } else {
                    &&& !s1.solved_spec()
                    &&& s1.traversed() == if s0.traversed() < usize::MAX {
                        s0.traversed() + 1
                    } else {
                        s0.traversed()
                    }
                    &&& m1.cells@ == m0.cells_explored_at(e.1)
                    &&& s1.closed_flags() == s0.closed_flags().update(
                        index_of(m0.width as int, e.1.0 as int, e.1.1 as int),
                        true,
                    )
                    &&& forall|c: Coord|
                        in_grid(m0.width as int, m0.height as int, c.0 as int, c.1 as int)
                            ==> #[trigger] score_at(s1.costs(), m0.width as int, c)
                            == relaxed_cost(
                            s0.costs(),
                            m0.wall_map(),
                            m0.width as int,
                            m0.height as int,
                            e.1,
                            c,
                            4,
                        )
                    &&& forall|en: Entry|
                        #[trigger] s1.queue().count(en) == s0.queue().remove(e).count(en)
                            + relaxed_entries(
                            s0.costs(),
                            m0.wall_map(),
                            m0.width as int,
                            m0.height as int,
                            m0.end,
                            e.1,
                            en,
                            4,
                        )
                })
    }

    /// One step: pops a least queued entry. The end cell solves the search;
    /// any other cell joins the closed set, is marked `EXPLORED` and counted,
    /// and each open neighbour (down, up, right, left) whose cost, if any,
    /// exceeds the cell's cost plus one gets that cost, the cell as its
    /// predecessor, and a queue entry keyed by the new cost plus its distance
    /// to the end. Nothing happens once solved or with an empty queue.
    pub fn iterate(&mut self, maze: &mut Maze)
        requires
            old(self).inv(*old(maze)),
        ensures
            final(self).inv(*final(maze)),
            Self::step(*old(self), *final(self), *old(maze), *final(maze)),
    {
        if self.final_coords.is_some() {
            return;
        }
        if heap_is_empty(&self.heap) {
            return;
        }
        proof {
            self.lemma_inv_elim(*maze);
        }
        let ghost m0 = *maze;
        let ghost pre = *self;
        let ghost w = maze.width as int;
        let ghost h = maze.height as int;
        let ghost items0 = heap_items(self.heap);
        let ghost g = self.gscore@;
        let ghost wm = maze.wall_map();
        let popped = heap_pop_min(&mut self.heap);
        let (f0, (x, y)) = popped.unwrap();
        let ghost u: Coord = (x, y);
        assert(items0.contains((f0, u)));
        assert forall|en: Entry| #[trigger] heap_items(self.heap).contains(en) implies items0.contains(en) by {
            assert(heap_items(self.heap).count(en) <= items0.count(en));
        }
        assert forall|en: Entry| en != (f0, u) && #[trigger] items0.contains(en) implies heap_items(self.heap).contains(en) by {
            assert(heap_items(self.heap).count(en) == items0.count(en));
        }
        if x == maze.end.0 && y == maze.end.1 {
            self.final_coords = Some((x, y));
            proof {
                pre.lemma_end_cost_bound(*maze, f0);
                self.lemma_core_kept(pre, *maze, m0);
                assert(heap_items(self.heap) =~= items0.remove((f0, u)));
                assert(pre.queue().remove((f0, u)) == items0.remove((f0, u)));
            }
            let ghost s_before = *self;
            let r = self.trace_back(maze);
            self.route = r;
            proof {
                self.lemma_core_kept(s_before, *maze, *maze);
                self.lemma_inv_intro(*maze);
            }
            return;
        }
        proof {
            lemma_index_in_range(w, h, x as int, y as int);
        }
        let width = maze.width;
        let i = y * width + x;
        self.close_set.set(i, true);
        maze.explore(x, y);
        self.traversed_cells = self.traversed_cells.saturating_add(1);
        proof {
            let items = heap_items(self.heap);
            self.lemma_core_kept(pre, *maze, m0);
            assert forall|c: Coord|
                #![trigger score_at(g, w, c)]
                in_grid(w, h, c.0 as int, c.1 as int) && score_at(g, w, c).is_some() && c != u implies pending(
                    items,
                    g,
                    w,
                    maze.end,
                    c,
                ) || spread(g, wm, w, h, c) by {
                if pending(items0, g, w, maze.end, c) {
                    assert(pending(items, g, w, maze.end, c));
                }
            }
            if score_at(g, w, maze.end).is_some() {
                assert(pending(items0, g, w, maze.end, maze.end));
            }
            assert(self.expanding(*maze, u, 0));
        }
        let ghost m1 = *maze;
        let ghost c1 = self.close_set@;
        let ghost t1 = self.traversed_cells;
        let ghost hpop = heap_items(self.heap);
        proof {
            assert(hpop =~= items0.remove((f0, u)));
            assert(self.gscore@ == g);
            assert(maze.at_most_one_changed(m0));
        }
        let mut k: usize = 0;
        while k < 4
            invariant
                0 <= k <= 4,
                self.expanding(*maze, (x, y), k as int),
                self.route@.len() == 0,
                *maze == m1,
                m1.explored_from(m0),
                m1.at_most_one_changed(m0),
                m1.cells@ == m0.cells_explored_at(u),
                self.close_set@ == c1,
                self.traversed_cells == t1,
                self.final_coords.is_none(),
                w == m0.width,
                h == m0.height,
                wm == m0.wall_map(),
                g.len() == w * h,
                score_at(g, w, u).is_some(),
                in_grid(w, h, u.0 as int, u.1 as int),
                u == (x, y),
                forall|c: Coord|
                    in_grid(w, h, c.0 as int, c.1 as int) ==> #[trigger] score_at(self.gscore@, w, c) == relaxed_cost(
                        g,
                        wm,
                        w,
                        h,
                        u,
                        c,
                        k as int,
                    ),
                forall|en: Entry| #[trigger] heap_items(self.heap).count(en) == hpop.count(en)
                    + relaxed_entries(g, wm, w, h, m0.end, u, en, k as int),
            decreases 4 - k,
        {
            let ghost gp = self.gscore@;
            let ghost hp = heap_items(self.heap);
            self.relax_neighbour(maze, x, y, k);
            proof {
                assert(maze.wall_map() == wm);
                assert(maze.end == m0.end);
                assert(maze.width as int == w && maze.height as int == h);
                lemma_relax_step(g, hpop, gp, hp, self.gscore@, heap_items(self.heap), wm, w, h, m0.end, u, k as int);
            }
            k += 1;
        }
        proof {
            self.lemma_expanding_done(*maze, (x, y));
            self.lemma_inv_intro(*maze);
            assert(pre.queue().remove((f0, u)) == hpop);
            assert(pre.costs() == g);
            assert(u != m0.end);
        }
    }

    /// The route found: from the end, predecessors are followed back to the
    /// start, and the cells are returned from start to end. Empty while the
    /// search is unsolved.
    fn trace_back(&self, maze: &Maze) -> (r: Vec<Coord>)
        requires
            self.search_inv(*maze),
        ensures
            self.solved_spec() ==> links(
                maze.wall_map(),
                maze.width as int,
                maze.height as int,
                r@,
                maze.start,
                maze.end,
            ),
            self.solved_spec() ==> r@.len() <= self.end_cost(*maze) + 1,
            self.solved_spec() ==> forall|q: Seq<Coord>|
                #[trigger] links(maze.wall_map(), maze.width as int, maze.height as int, q, maze.start, maze.end)
                    ==> r@.len() <= q.len(),
            !self.solved_spec() ==> r@.len() == 0,
    {
        if self.final_coords.is_none() {
            return Vec::new();
        }
        let ghost w = maze.width as int;
        let ghost h = maze.height as int;
        let ghost wm = maze.wall_map();
        let ghost g = self.gscore@;
        let width = maze.width;
        let mut cur = maze.end;
        let mut back: Vec<Coord> = Vec::new();
        proof {
            reveal(AStar::core_inv);
            maze.lemma_start_end_open();
            lemma_links_single(wm, w, h, maze.end);
            assert(back@.push(cur) =~= seq![maze.end]);
            lemma_index_in_range(w, h, cur.0 as int, cur.1 as int);
        }
        while self.came_from[cur.1 * width + cur.0].is_some()
            invariant
                self.search_inv(*maze),
                w == width,
                h == maze.height,
                width == maze.width,
                wm == maze.wall_map(),
                g == self.gscore@,
                in_grid(w, h, cur.0 as int, cur.1 as int),
                0 <= index_of(w, cur.0 as int, cur.1 as int) < w * h,
                score_at(g, w, cur).is_some(),
                links(wm, w, h, back@.push(cur), maze.end, cur),
                back@.len() + score_at(g, w, cur).unwrap() <= score_at(g, w, maze.end).unwrap(),
            decreases score_at(g, w, cur).unwrap(),
        {
            let ci = cur.1 * width + cur.0;
            let p = match self.came_from[ci] {
                Some(p) => p,
                None => cur,
            };
            proof {
                reveal(AStar::core_inv);
                lemma_index_in_range(w, h, maze.start.0 as int, maze.start.1 as int);
                if cur == maze.start {
                    assert(false);
                }
                lemma_links_push(wm, w, h, back@.push(cur), maze.end, cur, p);
                lemma_index_in_range(w, h, p.0 as int, p.1 as int);
            }
            back.push(cur);
            cur = p;
        }
        proof {
            reveal(AStar::core_inv);
            if cur != maze.start {
                assert(self.came_from@[index_of(w, cur.0 as int, cur.1 as int)].is_some());
            }
        }
        back.push(cur);
        proof {
            lemma_links_reverse(wm, w, h, back@, maze.end, maze.start);
        }
        reversed(&back)
    }

    /// The route found, from start to end, as recorded when the end cell was
    /// popped. Empty while the search is unsolved.
    pub fn get_path(&self, maze: &Maze) -> (r: Vec<Coord>)
        requires
            self.inv(*maze),
        ensures
            r@ == self.route_spec(),
            self.solved_spec() ==> links(
                maze.wall_map(),
                maze.width as int,
                maze.height as int,
                r@,
                maze.start,
                maze.end,
            ),
            self.solved_spec() ==> forall|q: Seq<Coord>|
                #[trigger] links(maze.wall_map(), maze.width as int, maze.height as int, q, maze.start, maze.end)
                    ==> r@.len() <= q.len(),
            !self.solved_spec() ==> r@.len() == 0,
    {
        proof {
            reveal(AStar::inv);
        }
        copy_path(&self.route)
    }

    /// The accuracy of the search so far: the cells on the path found over
    /// the cells expanded, as a fraction (see `accuracy_of`).
    pub fn get_accuracy(&self, maze: &Maze) -> (r: (usize, usize))
        requires
            self.inv(*maze),
        ensures
            r.1 > 0,
            (r.0 as nat, r.1 as nat) == accuracy_of(self.route_spec().len(), self.traversed()),
    {
        let path = self.get_path(maze);
        accuracy_fraction(path.len(), self.traversed_cells)
    }

    /// Whether the end cell has been reached.
    pub fn is_solved(&self) -> (r: bool)
        ensures
            r == self.solved_spec(),
    {
        self.final_coords.is_some()
    }

    /// The number of cells expanded so far.
    pub fn traversed_cells(&self) -> (r: usize)
        ensures
            r == self.traversed(),
    {
        self.traversed_cells
    }

    /// Whether no entry is left in the queue.
    pub fn is_exhausted(&self) -> (r: bool)
        ensures
            r == (self.frontier_len() == 0),
    {
        heap_is_empty(&self.heap)
    }
}

} // verus!
