//! Walks through the open cells of a grid, and the four moves between cells.
use vstd::prelude::*;
use crate::maze::{Coord, in_grid, index_of, lemma_index_in_range};

verus! {

/// `a` and `b` differ by one step along one axis.
pub open spec fn adjacent(a: Coord, b: Coord) -> bool {
    let (ax, ay, bx, by) = (a.0 as int, a.1 as int, b.0 as int, b.1 as int);
    (ax == bx && (ay - by == 1 || by - ay == 1)) || (ay == by && (ax - bx == 1 || bx - ax == 1))
}

/// `p` is inside the `w` x `h` grid and not a wall; `walls` holds one flag per cell.
pub open spec fn open_in(walls: Seq<bool>, w: int, h: int, p: Coord) -> bool {
    in_grid(w, h, p.0 as int, p.1 as int) && !walls[index_of(w, p.0 as int, p.1 as int)]
}

/// A non-empty sequence of open cells, each adjacent to the next.
pub open spec fn is_walk(walls: Seq<bool>, w: int, h: int, p: Seq<Coord>) -> bool {
    &&& p.len() > 0
    &&& forall|i: int| 0 <= i < p.len() ==> open_in(walls, w, h, #[trigger] p[i])
    &&& forall|i: int| 0 <= i < p.len() - 1 ==> adjacent(#[trigger] p[i], p[i + 1])
}

/// `p` is a walk from `a` to `b`.
pub open spec fn links(walls: Seq<bool>, w: int, h: int, p: Seq<Coord>, a: Coord, b: Coord) -> bool {
    is_walk(walls, w, h, p) && p[0] == a && p.last() == b
}

/// Some walk leads from `a` to `b`.
pub open spec fn reachable(walls: Seq<bool>, w: int, h: int, a: Coord, b: Coord) -> bool {
    exists|p: Seq<Coord>| links(walls, w, h, p, a, b)
}

/// `n` is the number of cells on a shortest walk from `a` to `b`: one
/// walk has `n` cells and none has fewer.
pub open spec fn shortest_walk_len(walls: Seq<bool>, w: int, h: int, a: Coord, b: Coord, n: int) -> bool {
    &&& exists|p: Seq<Coord>| links(walls, w, h, p, a, b) && p.len() == n
    &&& forall|p: Seq<Coord>| links(walls, w, h, p, a, b) ==> p.len() >= n
}

/// No walk from `a` to `b` has fewer cells than a shortest one.
pub proof fn lemma_route_not_shorter(walls: Seq<bool>, w: int, h: int, p: Seq<Coord>, a: Coord, b: Coord, n: int)
    requires
        links(walls, w, h, p, a, b),
        shortest_walk_len(walls, w, h, a, b, n),
    ensures
        p.len() >= n,
{
}

/// Two walks from `a` to `b` that are each no longer than any walk from `a`
/// to `b` (as the routes of Dijkstra's search and of A* are) have the same
/// length, and it is the shortest length.
pub proof fn lemma_shortest_routes_agree(
    walls: Seq<bool>,
    w: int,
    h: int,
    r1: Seq<Coord>,
    r2: Seq<Coord>,
    a: Coord,
    b: Coord,
    n: int,
)
    requires
        links(walls, w, h, r1, a, b),
        links(walls, w, h, r2, a, b),
        forall|q: Seq<Coord>| #[trigger] links(walls, w, h, q, a, b) ==> r1.len() <= q.len(),
        forall|q: Seq<Coord>| #[trigger] links(walls, w, h, q, a, b) ==> r2.len() <= q.len(),
        shortest_walk_len(walls, w, h, a, b, n),
    ensures
        r1.len() == n,
        r2.len() == n,
{
    let q = choose|q: Seq<Coord>| links(walls, w, h, q, a, b) && q.len() == n;
    assert(links(walls, w, h, q, a, b));
}

/// The cell one move away from `p` in direction `k`: down, up, right, left
/// for `k` = 0, 1, 2, 3 (rows grow downwards).
pub open spec fn step_of(p: Coord, k: int) -> (int, int) {
    if k == 0 {
        (p.0 as int, p.1 + 1)
    } else if k == 1 {
        (p.0 as int, p.1 - 1)
    } else if k == 2 {
        (p.0 + 1, p.1 as int)
    } else {
        (p.0 - 1, p.1 as int)
    }
}

/// The neighbour of `p` in direction `k`, when it lies inside the grid.
pub fn neighbour(p: Coord, k: usize, w: usize, h: usize) -> (r: Option<Coord>)
    requires
        k < 4,
        in_grid(w as int, h as int, p.0 as int, p.1 as int),
    ensures
        r.is_some() <==> in_grid(w as int, h as int, step_of(p, k as int).0, step_of(p, k as int).1),
        r.is_some() ==> r.unwrap().0 as int == step_of(p, k as int).0 && r.unwrap().1 as int
            == step_of(p, k as int).1,
        r.is_some() ==> adjacent(p, r.unwrap()),
{
    let (x, y) = p;
    if k == 0 {
        if y + 1 < h {
            Some((x, y + 1))
        } else {
            None
        }
    } else if k == 1 {
        if y >= 1 {
            Some((x, y - 1))
        } else {
            None
        }
    } else if k == 2 {
        if x + 1 < w {
            Some((x + 1, y))
        } else {
            None
        }
    } else {
        if x >= 1 {
            Some((x - 1, y))
        } else {
            None
        }
    }
}

/// Every move of a walk stays a move when the walls are taken down or kept.
pub proof fn lemma_walk_fewer_walls(walls: Seq<bool>, walls2: Seq<bool>, w: int, h: int, p: Seq<Coord>)
    requires
        is_walk(walls, w, h, p),
        walls2.len() == walls.len(),
        forall|i: int| 0 <= i < walls.len() && #[trigger] walls2[i] ==> walls[i],
        walls.len() == w * h,
    ensures
        is_walk(walls2, w, h, p),
{
    assert forall|i: int| 0 <= i < p.len() implies open_in(walls2, w, h, #[trigger] p[i]) by {
        assert(open_in(walls, w, h, p[i]));
        lemma_index_in_range(w, h, p[i].0 as int, p[i].1 as int);
    }
}

/// A walk to `b` followed by one move to an open cell `c` is a walk to `c`.
pub proof fn lemma_links_push(walls: Seq<bool>, w: int, h: int, p: Seq<Coord>, a: Coord, b: Coord, c: Coord)
    requires
        links(walls, w, h, p, a, b),
        open_in(walls, w, h, c),
        adjacent(b, c),
    ensures
        links(walls, w, h, p.push(c), a, c),
{
    let q = p.push(c);
    assert forall|i: int| 0 <= i < q.len() implies open_in(walls, w, h, #[trigger] q[i]) by {
        if i < p.len() {
            assert(q[i] == p[i]);
        }
    }
    assert forall|i: int| 0 <= i < q.len() - 1 implies adjacent(#[trigger] q[i], q[i + 1]) by {
        if i < p.len() - 1 {
            assert(q[i] == p[i]);
            assert(q[i + 1] == p[i + 1]);
        }
    }
}

/// The cell `a` alone is a walk from `a` to itself.
pub proof fn lemma_links_single(walls: Seq<bool>, w: int, h: int, a: Coord)
    requires
        open_in(walls, w, h, a),
    ensures
        links(walls, w, h, seq![a], a, a),
{
    let q = seq![a];
    assert forall|i: int| 0 <= i < q.len() implies open_in(walls, w, h, #[trigger] q[i]) by {}
}

/// The direction (0 down, 1 up, 2 right, 3 left) in which `c` lies from an
/// adjacent cell `u`.
pub open spec fn dir_of(u: Coord, c: Coord) -> int {
    if c.0 == u.0 && c.1 == u.1 + 1 {
        0
    } else if c.0 == u.0 && c.1 + 1 == u.1 {
        1
    } else if c.0 == u.0 + 1 {
        2
    } else {
        3
    }
}

/// The move from `u` in the direction of an adjacent cell leads to it.
pub proof fn lemma_dir_of(u: Coord, c: Coord)
    requires
        adjacent(u, c),
    ensures
        0 <= dir_of(u, c) < 4,
        step_of(u, dir_of(u, c)) == (c.0 as int, c.1 as int),
{
}

/// A move that stays inside the grid leads to an adjacent cell in its own
/// direction.
pub proof fn lemma_step_dir(u: Coord, k: int, w: int, h: int)
    requires
        0 <= k < 4,
        w <= usize::MAX,
        h <= usize::MAX,
        in_grid(w, h, step_of(u, k).0, step_of(u, k).1),
    ensures
        adjacent(u, (step_of(u, k).0 as usize, step_of(u, k).1 as usize)),
        dir_of(u, (step_of(u, k).0 as usize, step_of(u, k).1 as usize)) == k,
{
}

/// Each of the four moves from `p` reaches every adjacent cell.
pub proof fn lemma_adjacent_is_step(p: Coord, c: Coord)
    requires
        adjacent(p, c),
    ensures
        exists|k: int| 0 <= k < 4 && #[trigger] step_of(p, k) == (c.0 as int, c.1 as int),
{
    if c.1 == p.1 + 1 && c.0 == p.0 {
        assert(step_of(p, 0) == (c.0 as int, c.1 as int));
    } else if c.1 + 1 == p.1 && c.0 == p.0 {
        assert(step_of(p, 1) == (c.0 as int, c.1 as int));
    } else if c.0 == p.0 + 1 {
        assert(step_of(p, 2) == (c.0 as int, c.1 as int));
    } else {
        assert(step_of(p, 3) == (c.0 as int, c.1 as int));
    }
}

/// The Manhattan distance between two cells.
pub open spec fn manhattan(a: Coord, b: Coord) -> int {
    let dx = if a.0 >= b.0 { a.0 - b.0 } else { b.0 - a.0 };
    let dy = if a.1 >= b.1 { a.1 - b.1 } else { b.1 - a.1 };
    dx + dy
}

/// A copy of the cells of `p`, in order.
pub fn copy_path(p: &Vec<Coord>) -> (r: Vec<Coord>)
    ensures
        r@ == p@,
{
    let mut r: Vec<Coord> = Vec::new();
    let mut i: usize = 0;
    while i < p.len()
        invariant
            0 <= i <= p@.len(),
            r@ == p@.subrange(0, i as int),
        decreases p@.len() - i,
    {
        r.push(p[i]);
        i += 1;
        assert(r@ =~= p@.subrange(0, i as int));
    }
    assert(r@ =~= p@);
    r
}

/// The cells of `p` in the opposite order.
pub fn reversed(p: &Vec<Coord>) -> (r: Vec<Coord>)
    ensures
        r@ == p@.reverse(),
{
    let mut r: Vec<Coord> = Vec::new();
    let mut i: usize = p.len();
    while i > 0
        invariant
            0 <= i <= p@.len(),
            r@ == p@.subrange(i as int, p@.len() as int).reverse(),
        decreases i,
    {
        i -= 1;
        r.push(p[i]);
        assert(r@ =~= p@.subrange(i as int, p@.len() as int).reverse());
    }
    assert(p@.subrange(0, p@.len() as int) =~= p@);
    r
}

/// A walk read backwards is a walk between the same cells, the other way.
pub proof fn lemma_links_reverse(walls: Seq<bool>, w: int, h: int, p: Seq<Coord>, a: Coord, b: Coord)
    requires
        links(walls, w, h, p, a, b),
    ensures
        links(walls, w, h, p.reverse(), b, a),
{
    let q = p.reverse();
    let n = p.len();
    assert forall|i: int| 0 <= i < q.len() implies open_in(walls, w, h, #[trigger] q[i]) by {
        assert(q[i] == p[n - 1 - i]);
    }
    assert forall|i: int| 0 <= i < q.len() - 1 implies adjacent(#[trigger] q[i], q[i + 1]) by {
        assert(q[i] == p[n - 1 - i]);
        assert(q[i + 1] == p[n - 2 - i]);
        assert(adjacent(p[n - 2 - i], p[n - 2 - i + 1]));
    }
}

} // verus!
