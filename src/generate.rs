//! Maze generation: a randomized backtracker carves corridors through a grid
//! of walls, then a breadth-first search picks a far-away end cell.
use vstd::prelude::*;
use rand::rngs::StdRng;
use crate::maze::{Coord, CellState, Maze, in_grid, index_of, lemma_index_in_range, lemma_index_injective};
use crate::random::{shuffle_steps, random_below};
use crate::counting::{count_true, lemma_count_true_clear, lemma_count_true_set, lemma_count_true_none, lemma_count_true_le};
use crate::walks::{
    adjacent, open_in, links, reachable, step_of, manhattan, neighbour, lemma_walk_fewer_walls,
    lemma_links_push, lemma_links_single, lemma_adjacent_is_step,
};

verus! {

broadcast use vstd::seq_lib::group_to_multiset_ensures;

/// A jump of two cells along one axis: from one lattice cell to the next.
pub open spec fn is_jump(d: (isize, isize)) -> bool {
    d == (2isize, 0isize) || d == (-2isize, 0isize) || d == (0isize, 2isize) || d == (0isize, -2isize)
}

/// The cell that the jump `d` leads to from `p`.
pub open spec fn jump_target(p: Coord, d: (isize, isize)) -> (int, int) {
    (p.0 + d.0, p.1 + d.1)
}

/// The middle cell and the target of the jump `d` from `p`, when the target
/// lies inside the grid.
fn jump(p: Coord, d: (isize, isize), w: usize, h: usize) -> (r: Option<(Coord, Coord)>)
    requires
        in_grid(w as int, h as int, p.0 as int, p.1 as int),
        is_jump(d),
    ensures
        r.is_some() <==> in_grid(w as int, h as int, jump_target(p, d).0, jump_target(p, d).1),
        r.is_some() ==> ({
            let (m, n) = r.unwrap();
            &&& n.0 as int == jump_target(p, d).0
            &&& n.1 as int == jump_target(p, d).1
            &&& in_grid(w as int, h as int, m.0 as int, m.1 as int)
            &&& adjacent(p, m)
            &&& adjacent(m, n)
        }),
{
    let (x, y) = p;
    if d.0 == 2 {
        if w - x > 2 {
            Some(((x + 1, y), (x + 2, y)))
        } else {
            None
        }
    } else if d.0 == -2 {
        if x >= 2 {
            Some(((x - 1, y), (x - 2, y)))
        } else {
            None
        }
    } else if d.1 == 2 {
        if h - y > 2 {
            Some(((x, y + 1), (x, y + 2)))
        } else {
            None
        }
    } else {
        if y >= 2 {
            Some(((x, y - 1), (x, y - 2)))
        } else {
            None
        }
    }
}

/// The four jumps, in a random order.
fn shuffled_jumps(rng: &mut StdRng) -> (r: Vec<(isize, isize)>)
    ensures
        r@.len() == 4,
        forall|i: int| 0 <= i < 4 ==> is_jump(#[trigger] r@[i]),
        forall|d: (isize, isize)| is_jump(d) ==> #[trigger] r@.contains(d),
{
    let mut steps: Vec<(isize, isize)> = vec![(2, 0), (-2, 0), (0, 2), (0, -2)];
    let ghost orig = steps@;
    shuffle_steps(&mut steps, rng);
    assert forall|i: int| 0 <= i < 4 implies is_jump(#[trigger] steps@[i]) by {
        assert(steps@.contains(steps@[i]));
        assert(orig.to_multiset().count(steps@[i]) > 0);
        assert(orig.contains(steps@[i]));
        let j = choose|j: int| 0 <= j < orig.len() && orig[j] == steps@[i];
        assert(j == 0 || j == 1 || j == 2 || j == 3);
    }
    assert forall|d: (isize, isize)| is_jump(d) implies #[trigger] steps@.contains(d) by {
        if d == (2isize, 0isize) {
            assert(orig[0] == d);
        } else if d == (-2isize, 0isize) {
            assert(orig[1] == d);
        } else if d == (0isize, 2isize) {
            assert(orig[2] == d);
        } else {
            assert(orig[3] == d);
        }
        assert(orig.contains(d));
        assert(steps@.to_multiset().count(d) > 0);
    }
    steps
}

/// The jump `d` from `p` leaves the grid or lands on an open cell.
pub open spec fn jump_open(bits: Seq<bool>, w: int, h: int, p: Coord, d: (isize, isize)) -> bool {
    let t = jump_target(p, d);
    in_grid(w, h, t.0, t.1) ==> !bits[index_of(w, t.0, t.1)]
}

/// A cell on the carving stack, with its jumps in the order they are tried.
struct CarveFrame {
    cell: Coord,
    jumps: Vec<(isize, isize)>,
    next: usize,
}

/// `c` lies on the lattice of `s`: both coordinates have the parity of `s`'s.
pub open spec fn on_lattice(s: Coord, c: Coord) -> bool {
    c.0 % 2 == s.0 % 2 && c.1 % 2 == s.1 % 2
}

/// Every jump from `c` leaves the grid or lands on an open cell.
pub open spec fn finished(bits: Seq<bool>, w: int, h: int, c: Coord) -> bool {
    forall|d: (isize, isize)| is_jump(d) ==> #[trigger] jump_open(bits, w, h, c, d)
}

spec fn frame_ok(f: CarveFrame, bits: Seq<bool>, w: int, h: int, start: Coord) -> bool {
    &&& open_in(bits, w, h, f.cell)
    &&& f.jumps@.len() == 4
    &&& f.next <= 4
    &&& forall|i: int| 0 <= i < 4 ==> is_jump(#[trigger] f.jumps@[i])
    &&& forall|d: (isize, isize)| is_jump(d) ==> #[trigger] f.jumps@.contains(d)
    &&& forall|q: int| 0 <= q < f.next ==> jump_open(bits, w, h, f.cell, #[trigger] f.jumps@[q])
    &&& reachable(bits, w, h, start, f.cell)
    &&& on_lattice(start, f.cell)
}

spec fn on_stack(s: Seq<CarveFrame>, c: Coord) -> bool {
    exists|j: int| 0 <= j < s.len() && (#[trigger] s[j]).cell == c
}

/// Opening the two cells of a jump from a reachable cell makes both
/// reachable and keeps every reachable cell reachable.
proof fn lemma_carve_keeps_reachable(b0: Seq<bool>, w: int, h: int, start: Coord, cell: Coord, m: Coord, n: Coord)
    requires
        w > 0,
        h > 0,
        b0.len() == w * h,
        reachable(b0, w, h, start, cell),
        in_grid(w, h, m.0 as int, m.1 as int),
        in_grid(w, h, n.0 as int, n.1 as int),
        adjacent(cell, m),
        adjacent(m, n),
    ensures
        ({
            let b2 = b0.update(index_of(w, m.0 as int, m.1 as int), false).update(index_of(w, n.0 as int, n.1 as int), false);
            &&& reachable(b2, w, h, start, m)
            &&& reachable(b2, w, h, start, n)
            &&& forall|c: Coord| #[trigger] reachable(b0, w, h, start, c) ==> reachable(b2, w, h, start, c)
        }),
{
    let mi = index_of(w, m.0 as int, m.1 as int);
    let ni = index_of(w, n.0 as int, n.1 as int);
    lemma_index_in_range(w, h, m.0 as int, m.1 as int);
    lemma_index_in_range(w, h, n.0 as int, n.1 as int);
    let b2 = b0.update(mi, false).update(ni, false);
    let p = choose|p: Seq<Coord>| links(b0, w, h, p, start, cell);
    lemma_walk_fewer_walls(b0, b2, w, h, p);
    lemma_links_push(b2, w, h, p, start, cell, m);
    lemma_links_push(b2, w, h, p.push(m), start, m, n);
    assert forall|c: Coord| #[trigger] reachable(b0, w, h, start, c) implies reachable(b2, w, h, start, c) by {
        let q = choose|q: Seq<Coord>| links(b0, w, h, q, start, c);
        lemma_walk_fewer_walls(b0, b2, w, h, q);
        assert(links(b2, w, h, q, start, c));
    }
}

/// When every open lattice cell has all its jumps open, every lattice cell
/// of the grid is open.
proof fn lemma_lattice_all_open(bits: Seq<bool>, w: int, h: int, s: Coord, c: Coord)
    requires
        0 < w <= usize::MAX,
        0 < h <= usize::MAX,
        bits.len() == w * h,
        open_in(bits, w, h, s),
        in_grid(w, h, c.0 as int, c.1 as int),
        on_lattice(s, c),
        forall|q: Coord| #[trigger] open_in(bits, w, h, q) && on_lattice(s, q) ==> finished(bits, w, h, q),
    ensures
        open_in(bits, w, h, c),
    decreases (if c.0 >= s.0 { c.0 - s.0 } else { s.0 - c.0 }) + (if c.1 >= s.1 { c.1 - s.1 } else { s.1 - c.1 }),
{
    if c != s {
        let (cp, d): (Coord, (isize, isize)) = if c.0 > s.0 {
            (((c.0 - 2) as usize, c.1), (2isize, 0isize))
        } else if c.0 < s.0 {
            (((c.0 + 2) as usize, c.1), (-2isize, 0isize))
        } else if c.1 > s.1 {
            ((c.0, (c.1 - 2) as usize), (0isize, 2isize))
        } else {
            ((c.0, (c.1 + 2) as usize), (0isize, -2isize))
        };
        lemma_lattice_all_open(bits, w, h, s, cp);
        assert(finished(bits, w, h, cp));
        assert(is_jump(d));
        assert(jump_open(bits, w, h, cp, d));
        assert(jump_target(cp, d) == (c.0 as int, c.1 as int));
    }
}

spec fn frames_left(s: Seq<CarveFrame>) -> nat
    decreases s.len(),
{
    if s.len() == 0 {
        0
    } else {
        frames_left(s.drop_last()) + (5 - s.last().next) as nat
    }
}

/// Carves corridors out of the wall map `maze` (`true` is a wall) from the
/// open cell `(x, y)`: each jump to a lattice cell that is still a wall opens
/// that cell and the one between, and carving goes on from there. Walls only
/// come down, every opened cell is reachable from `(x, y)`, every jump from
/// `(x, y)` ends on an open cell, and cells whose two coordinates both differ
/// in parity from `(x, y)`'s are left alone. Started from a map of walls
/// with only `(x, y)` open, every lattice cell ends up open.
/// The invariant of the carving loop over the wall map `bits` and the
/// stack `s`, for a map that was `b_in` when carving began.
#[verifier::opaque]
spec fn carve_inv(b_in: Seq<bool>, bits: Seq<bool>, s: Seq<CarveFrame>, w: int, h: int, start: Coord) -> bool {
    &&& open_in(bits, w, h, start)
    &&& forall|i: int| 0 <= i < w * h && #[trigger] bits[i] ==> b_in[i]
    &&& forall|c: Coord|
        #[trigger] open_in(bits, w, h, c) && !open_in(b_in, w, h, c) ==> reachable(bits, w, h, start, c)
    &&& forall|j: int| 0 <= j < s.len() ==> frame_ok(#[trigger] s[j], bits, w, h, start)
    &&& forall|c: Coord|
        in_grid(w, h, c.0 as int, c.1 as int) && on_lattice(start, c) && #[trigger] open_in(bits, w, h, c) && (c
            == start || b_in[index_of(w, c.0 as int, c.1 as int)]) ==> on_stack(s, c) || finished(bits, w, h, c)
    &&& forall|c: Coord|
        in_grid(w, h, c.0 as int, c.1 as int) && c.0 % 2 != start.0 % 2 && c.1 % 2 != start.1 % 2
            ==> #[trigger] bits[index_of(w, c.0 as int, c.1 as int)] == b_in[index_of(w, c.0 as int, c.1 as int)]
}

proof fn lemma_carve_inv_frames(b_in: Seq<bool>, bits: Seq<bool>, s: Seq<CarveFrame>, w: int, h: int, start: Coord)
    requires
        carve_inv(b_in, bits, s, w, h, start),
    ensures
        forall|j: int| 0 <= j < s.len() ==> frame_ok(#[trigger] s[j], bits, w, h, start),
{
    reveal(carve_inv);
}

/// The top frame tried a jump that left the grid or landed on an open cell.
proof fn lemma_keep_step(
    b_in: Seq<bool>,
    b0: Seq<bool>,
    s0: Seq<CarveFrame>,
    s1: Seq<CarveFrame>,
    w: int,
    h: int,
    start: Coord,
    cell: Coord,
    d: (isize, isize),
)
    requires
        w > 0,
        h > 0,
        b0.len() == w * h,
        carve_inv(b_in, b0, s0, w, h, start),
        s0.len() > 0,
        s1.len() == s0.len(),
        forall|j: int| 0 <= j < s1.len() - 1 ==> #[trigger] s1[j] == s0[j],
        s1.last().cell == cell,
        s0.last().cell == cell,
        s1.last().jumps@ == s0.last().jumps@,
        s0.last().next < 4,
        s1.last().next == s0.last().next + 1,
        d == s0.last().jumps@[s0.last().next as int],
        jump_open(b0, w, h, cell, d),
    ensures
        carve_inv(b_in, b0, s1, w, h, start),
{
    reveal(carve_inv);
    assert(frame_ok(s0.last(), b0, w, h, start));
    assert forall|j: int| 0 <= j < s1.len() implies frame_ok(#[trigger] s1[j], b0, w, h, start) by {
        if j < s1.len() - 1 {
            assert(frame_ok(s0[j], b0, w, h, start));
        } else {
            let g = s1[j];
            assert forall|q: int| 0 <= q < g.next implies jump_open(b0, w, h, g.cell, #[trigger] g.jumps@[q]) by {
                if q < g.next - 1 {
                    assert(jump_open(b0, w, h, s0.last().cell, s0.last().jumps@[q]));
                }
            }
        }
    }
    assert forall|c: Coord|
        in_grid(w, h, c.0 as int, c.1 as int) && on_lattice(start, c) && #[trigger] open_in(b0, w, h, c) && (c
            == start || b_in[index_of(w, c.0 as int, c.1 as int)]) implies on_stack(s1, c) || finished(b0, w, h, c) by {
        if on_stack(s0, c) {
            let j = choose|j: int| 0 <= j < s0.len() && (#[trigger] s0[j]).cell == c;
            if j < s1.len() - 1 {
                assert(s1[j] == s0[j]);
            } else {
                assert(s1[j].cell == c);
            }
        }
    }
}

/// The top frame carved its jump to the wall cell `n` through `m`, and `n`
/// was stacked.
/// The wall map after opening `m` and `n`: only those two cells change, so
/// open cells and open jump targets stay open.
proof fn lemma_carve_cells(b0: Seq<bool>, b2: Seq<bool>, w: int, h: int, m: Coord, n: Coord)
    requires
        0 < w <= usize::MAX,
        0 < h <= usize::MAX,
        b0.len() == w * h,
        in_grid(w, h, m.0 as int, m.1 as int),
        in_grid(w, h, n.0 as int, n.1 as int),
        b2 == b0.update(index_of(w, m.0 as int, m.1 as int), false).update(index_of(w, n.0 as int, n.1 as int), false),
    ensures
        forall|c: Coord| in_grid(w, h, c.0 as int, c.1 as int) ==> #[trigger] b2[index_of(w, c.0 as int, c.1 as int)]
            == if c == m || c == n { false } else { b0[index_of(w, c.0 as int, c.1 as int)] },
        forall|c: Coord, e: (isize, isize)| #[trigger] jump_open(b0, w, h, c, e) ==> jump_open(b2, w, h, c, e),
        forall|c: Coord| #[trigger] open_in(b0, w, h, c) ==> open_in(b2, w, h, c),
        forall|i: int| 0 <= i < w * h && #[trigger] b2[i] ==> b0[i],
        open_in(b2, w, h, m),
        open_in(b2, w, h, n),
{
    let mi = index_of(w, m.0 as int, m.1 as int);
    let ni = index_of(w, n.0 as int, n.1 as int);
    lemma_index_in_range(w, h, m.0 as int, m.1 as int);
    lemma_index_in_range(w, h, n.0 as int, n.1 as int);
    assert forall|c: Coord| in_grid(w, h, c.0 as int, c.1 as int) implies #[trigger] b2[index_of(w, c.0 as int, c.1 as int)]
        == if c == m || c == n { false } else { b0[index_of(w, c.0 as int, c.1 as int)] } by {
        lemma_index_in_range(w, h, c.0 as int, c.1 as int);
        if index_of(w, c.0 as int, c.1 as int) == mi {
            lemma_index_injective(w, h, c.0 as int, c.1 as int, m.0 as int, m.1 as int);
        }
        if index_of(w, c.0 as int, c.1 as int) == ni {
            lemma_index_injective(w, h, c.0 as int, c.1 as int, n.0 as int, n.1 as int);
        }
    }
    assert forall|c: Coord, e: (isize, isize)| #[trigger] jump_open(b0, w, h, c, e) implies jump_open(b2, w, h, c, e) by {
        let t = jump_target(c, e);
        if in_grid(w, h, t.0, t.1) {
            let tc: Coord = (t.0 as usize, t.1 as usize);
            assert(b2[index_of(w, tc.0 as int, tc.1 as int)] == if tc == m || tc == n { false } else { b0[index_of(w, tc.0 as int, tc.1 as int)] });
        }
    }
    assert forall|c: Coord| #[trigger] open_in(b0, w, h, c) implies open_in(b2, w, h, c) by {
        assert(b2[index_of(w, c.0 as int, c.1 as int)] == if c == m || c == n { false } else { b0[index_of(w, c.0 as int, c.1 as int)] });
    }
}

proof fn lemma_carve_frames(
    b0: Seq<bool>,
    b2: Seq<bool>,
    s0: Seq<CarveFrame>,
    s1: Seq<CarveFrame>,
    s2: Seq<CarveFrame>,
    w: int,
    h: int,
    start: Coord,
    cell: Coord,
    d: (isize, isize),
    m: Coord,
    n: Coord,
)
    requires
        0 < w <= usize::MAX,
        0 < h <= usize::MAX,
        s0.len() > 0,
        s1.len() == s0.len(),
        forall|j: int| 0 <= j < s1.len() - 1 ==> #[trigger] s1[j] == s0[j],
        s1.last().cell == cell,
        s0.last().cell == cell,
        s1.last().jumps@ == s0.last().jumps@,
        s0.last().next < 4,
        s1.last().next == s0.last().next + 1,
        s2.len() == s1.len() + 1,
        forall|j: int| 0 <= j < s1.len() ==> #[trigger] s2[j] == s1[j],
        s2.last().cell == n,
        in_grid(w, h, m.0 as int, m.1 as int),
        in_grid(w, h, n.0 as int, n.1 as int),
        forall|c: Coord| in_grid(w, h, c.0 as int, c.1 as int) ==> #[trigger] b2[index_of(w, c.0 as int, c.1 as int)]
            == if c == m || c == n { false } else { b0[index_of(w, c.0 as int, c.1 as int)] },
        forall|c: Coord, e: (isize, isize)| #[trigger] jump_open(b0, w, h, c, e) ==> jump_open(b2, w, h, c, e),
        forall|c: Coord| #[trigger] open_in(b0, w, h, c) ==> open_in(b2, w, h, c),
        open_in(b2, w, h, m),
        open_in(b2, w, h, n),
        forall|j: int| 0 <= j < s0.len() ==> frame_ok(#[trigger] s0[j], b0, w, h, start),
        d == s0.last().jumps@[s0.last().next as int],
        jump_open(b2, w, h, cell, d),
        n.0 % 2 == cell.0 % 2 && n.1 % 2 == cell.1 % 2,
        reachable(b2, w, h, start, n),
        forall|c: Coord| #[trigger] reachable(b0, w, h, start, c) ==> reachable(b2, w, h, start, c),
        s2.last().next == 0,
        s2.last().jumps@.len() == 4,
        forall|i: int| 0 <= i < 4 ==> is_jump(#[trigger] s2.last().jumps@[i]),
        forall|e: (isize, isize)| is_jump(e) ==> #[trigger] s2.last().jumps@.contains(e),
    ensures
        forall|j: int| 0 <= j < s2.len() ==> frame_ok(#[trigger] s2[j], b2, w, h, start),
{
    let top = s0.last();
    assert(frame_ok(top, b0, w, h, start));
    assert forall|j: int| 0 <= j < s2.len() implies frame_ok(#[trigger] s2[j], b2, w, h, start) by {
        let g = s2[j];
        if j < s1.len() - 1 {
            assert(g == s0[j]);
            assert(frame_ok(s0[j], b0, w, h, start));
            assert forall|q: int| 0 <= q < g.next implies jump_open(b2, w, h, g.cell, #[trigger] g.jumps@[q]) by {
                assert(jump_open(b0, w, h, g.cell, g.jumps@[q]));
            }
        } else if j == s1.len() - 1 {
            assert(g == s1[j]);
            assert forall|q: int| 0 <= q < g.next implies jump_open(b2, w, h, g.cell, #[trigger] g.jumps@[q]) by {
                if q < g.next - 1 {
                    assert(jump_open(b0, w, h, top.cell, top.jumps@[q]));
                }
            }
        } else {
            assert(frame_ok(top, b0, w, h, start));
        }
    }
}

proof fn lemma_carve_lattice(
    b_in: Seq<bool>,
    b0: Seq<bool>,
    b2: Seq<bool>,
    s0: Seq<CarveFrame>,
    s1: Seq<CarveFrame>,
    s2: Seq<CarveFrame>,
    w: int,
    h: int,
    start: Coord,
    cell: Coord,
    m: Coord,
    n: Coord,
)
    requires
        0 < w <= usize::MAX,
        0 < h <= usize::MAX,
        s0.len() > 0,
        s1.len() == s0.len(),
        forall|j: int| 0 <= j < s1.len() - 1 ==> #[trigger] s1[j] == s0[j],
        s1.last().cell == cell,
        s0.last().cell == cell,
        s1.last().jumps@ == s0.last().jumps@,
        s0.last().next < 4,
        s1.last().next == s0.last().next + 1,
        s2.len() == s1.len() + 1,
        forall|j: int| 0 <= j < s1.len() ==> #[trigger] s2[j] == s1[j],
        s2.last().cell == n,
        in_grid(w, h, m.0 as int, m.1 as int),
        in_grid(w, h, n.0 as int, n.1 as int),
        forall|c: Coord| in_grid(w, h, c.0 as int, c.1 as int) ==> #[trigger] b2[index_of(w, c.0 as int, c.1 as int)]
            == if c == m || c == n { false } else { b0[index_of(w, c.0 as int, c.1 as int)] },
        forall|c: Coord, e: (isize, isize)| #[trigger] jump_open(b0, w, h, c, e) ==> jump_open(b2, w, h, c, e),
        forall|c: Coord| #[trigger] open_in(b0, w, h, c) ==> open_in(b2, w, h, c),
        open_in(b2, w, h, m),
        open_in(b2, w, h, n),
        adjacent(cell, m),
        on_lattice(start, cell),
        forall|c: Coord|
            in_grid(w, h, c.0 as int, c.1 as int) && on_lattice(start, c) && #[trigger] open_in(b0, w, h, c) && (c
                == start || b_in[index_of(w, c.0 as int, c.1 as int)]) ==> on_stack(s0, c) || finished(b0, w, h, c),
    ensures
        forall|c: Coord|
            in_grid(w, h, c.0 as int, c.1 as int) && on_lattice(start, c) && #[trigger] open_in(b2, w, h, c) && (c
                == start || b_in[index_of(w, c.0 as int, c.1 as int)]) ==> on_stack(s2, c) || finished(b2, w, h, c),
{
    assert forall|c: Coord|
        in_grid(w, h, c.0 as int, c.1 as int) && on_lattice(start, c) && #[trigger] open_in(b2, w, h, c) && (c
            == start || b_in[index_of(w, c.0 as int, c.1 as int)]) implies on_stack(s2, c) || finished(b2, w, h, c) by {
        if c == n {
            assert(s2[s2.len() - 1].cell == c);
        } else if c != m {
            assert(open_in(b0, w, h, c));
            if on_stack(s0, c) {
                let j = choose|j: int| 0 <= j < s0.len() && (#[trigger] s0[j]).cell == c;
                if j < s1.len() - 1 {
                    assert(s2[j] == s0[j]);
                } else {
                    assert(s2[j].cell == c);
                }
            } else {
                assert forall|e: (isize, isize)| is_jump(e) implies #[trigger] jump_open(b2, w, h, c, e) by {
                    assert(jump_open(b0, w, h, c, e));
                }
            }
        } else {
            assert(m.0 % 2 != cell.0 % 2 || m.1 % 2 != cell.1 % 2);
        }
    }
}

proof fn lemma_carve_inv_parts(b_in: Seq<bool>, bits: Seq<bool>, s: Seq<CarveFrame>, w: int, h: int, start: Coord)
    requires
        carve_inv(b_in, bits, s, w, h, start),
    ensures
        open_in(bits, w, h, start),
        forall|i: int| 0 <= i < w * h && #[trigger] bits[i] ==> b_in[i],
        forall|c: Coord|
            #[trigger] open_in(bits, w, h, c) && !open_in(b_in, w, h, c) ==> reachable(bits, w, h, start, c),
        forall|j: int| 0 <= j < s.len() ==> frame_ok(#[trigger] s[j], bits, w, h, start),
        forall|c: Coord|
            in_grid(w, h, c.0 as int, c.1 as int) && on_lattice(start, c) && #[trigger] open_in(bits, w, h, c) && (c
                == start || b_in[index_of(w, c.0 as int, c.1 as int)]) ==> on_stack(s, c) || finished(bits, w, h, c),
        forall|c: Coord|
            in_grid(w, h, c.0 as int, c.1 as int) && c.0 % 2 != start.0 % 2 && c.1 % 2 != start.1 % 2
                ==> #[trigger] bits[index_of(w, c.0 as int, c.1 as int)] == b_in[index_of(w, c.0 as int, c.1 as int)],
{
    reveal(carve_inv);
}

proof fn lemma_carve_inv_intro(b_in: Seq<bool>, bits: Seq<bool>, s: Seq<CarveFrame>, w: int, h: int, start: Coord)
    requires
        open_in(bits, w, h, start),
        forall|i: int| 0 <= i < w * h && #[trigger] bits[i] ==> b_in[i],
        forall|c: Coord|
            #[trigger] open_in(bits, w, h, c) && !open_in(b_in, w, h, c) ==> reachable(bits, w, h, start, c),
        forall|j: int| 0 <= j < s.len() ==> frame_ok(#[trigger] s[j], bits, w, h, start),
        forall|c: Coord|
            in_grid(w, h, c.0 as int, c.1 as int) && on_lattice(start, c) && #[trigger] open_in(bits, w, h, c) && (c
                == start || b_in[index_of(w, c.0 as int, c.1 as int)]) ==> on_stack(s, c) || finished(bits, w, h, c),
        forall|c: Coord|
            in_grid(w, h, c.0 as int, c.1 as int) && c.0 % 2 != start.0 % 2 && c.1 % 2 != start.1 % 2
                ==> #[trigger] bits[index_of(w, c.0 as int, c.1 as int)] == b_in[index_of(w, c.0 as int, c.1 as int)],
    ensures
        carve_inv(b_in, bits, s, w, h, start),
{
    reveal(carve_inv);
}

proof fn lemma_carve_rest(b_in: Seq<bool>, b0: Seq<bool>, b2: Seq<bool>, w: int, h: int, start: Coord, cell: Coord, m: Coord, n: Coord)
    requires
        0 < w <= usize::MAX,
        0 < h <= usize::MAX,
        in_grid(w, h, m.0 as int, m.1 as int),
        in_grid(w, h, n.0 as int, n.1 as int),
        adjacent(cell, m),
        on_lattice(start, cell),
        on_lattice(start, n),
        reachable(b2, w, h, start, m),
        reachable(b2, w, h, start, n),
        forall|c: Coord| #[trigger] reachable(b0, w, h, start, c) ==> reachable(b2, w, h, start, c),
        forall|c: Coord| in_grid(w, h, c.0 as int, c.1 as int) ==> #[trigger] b2[index_of(w, c.0 as int, c.1 as int)]
            == if c == m || c == n { false } else { b0[index_of(w, c.0 as int, c.1 as int)] },
        forall|i: int| 0 <= i < w * h && #[trigger] b2[i] ==> b0[i],
        forall|i: int| 0 <= i < w * h && #[trigger] b0[i] ==> b_in[i],
        forall|c: Coord|
            #[trigger] open_in(b0, w, h, c) && !open_in(b_in, w, h, c) ==> reachable(b0, w, h, start, c),
        forall|c: Coord|
            in_grid(w, h, c.0 as int, c.1 as int) && c.0 % 2 != start.0 % 2 && c.1 % 2 != start.1 % 2
                ==> #[trigger] b0[index_of(w, c.0 as int, c.1 as int)] == b_in[index_of(w, c.0 as int, c.1 as int)],
    ensures
        forall|i: int| 0 <= i < w * h && #[trigger] b2[i] ==> b_in[i],
        forall|c: Coord|
            #[trigger] open_in(b2, w, h, c) && !open_in(b_in, w, h, c) ==> reachable(b2, w, h, start, c),
        forall|c: Coord|
            in_grid(w, h, c.0 as int, c.1 as int) && c.0 % 2 != start.0 % 2 && c.1 % 2 != start.1 % 2
                ==> #[trigger] b2[index_of(w, c.0 as int, c.1 as int)] == b_in[index_of(w, c.0 as int, c.1 as int)],
{
    assert forall|c: Coord| #[trigger] open_in(b2, w, h, c) && !open_in(b_in, w, h, c) implies reachable(b2, w, h, start, c) by {
        if c != m && c != n {
            assert(b2[index_of(w, c.0 as int, c.1 as int)] == b0[index_of(w, c.0 as int, c.1 as int)]);
            assert(open_in(b0, w, h, c));
        }
    }
    assert forall|i: int| 0 <= i < w * h && #[trigger] b2[i] implies b_in[i] by {
        assert(b0[i]);
    }
}

/// A jump keeps the parity of both coordinates.
proof fn lemma_jump_parity(cell: Coord, d: (isize, isize), n: Coord)
    requires
        is_jump(d),
        n.0 as int == jump_target(cell, d).0,
        n.1 as int == jump_target(cell, d).1,
    ensures
        n.0 % 2 == cell.0 % 2,
        n.1 % 2 == cell.1 % 2,
{
}

#[verifier::rlimit(100)]
proof fn lemma_carve_step(
    b_in: Seq<bool>,
    b0: Seq<bool>,
    b2: Seq<bool>,
    s0: Seq<CarveFrame>,
    s1: Seq<CarveFrame>,
    s2: Seq<CarveFrame>,
    w: int,
    h: int,
    start: Coord,
    cell: Coord,
    d: (isize, isize),
    m: Coord,
    n: Coord,
)
    requires
        0 < w <= usize::MAX,
        0 < h <= usize::MAX,
        b0.len() == w * h,
        b_in.len() == w * h,
        carve_inv(b_in, b0, s0, w, h, start),
        s0.len() > 0,
        s1.len() == s0.len(),
        forall|j: int| 0 <= j < s1.len() - 1 ==> #[trigger] s1[j] == s0[j],
        s1.last().cell == cell,
        s0.last().cell == cell,
        s1.last().jumps@ == s0.last().jumps@,
        s0.last().next < 4,
        s1.last().next == s0.last().next + 1,
        d == s0.last().jumps@[s0.last().next as int],
        is_jump(d),
        n.0 as int == jump_target(cell, d).0,
        n.1 as int == jump_target(cell, d).1,
        in_grid(w, h, m.0 as int, m.1 as int),
        in_grid(w, h, n.0 as int, n.1 as int),
        adjacent(cell, m),
        adjacent(m, n),
        b0[index_of(w, n.0 as int, n.1 as int)],
        b2 == b0.update(index_of(w, m.0 as int, m.1 as int), false).update(index_of(w, n.0 as int, n.1 as int), false),
        s2.len() == s1.len() + 1,
        forall|j: int| 0 <= j < s1.len() ==> #[trigger] s2[j] == s1[j],
        s2.last().cell == n,
        s2.last().next == 0,
        s2.last().jumps@.len() == 4,
        forall|i: int| 0 <= i < 4 ==> is_jump(#[trigger] s2.last().jumps@[i]),
        forall|e: (isize, isize)| is_jump(e) ==> #[trigger] s2.last().jumps@.contains(e),
    ensures
        carve_inv(b_in, b2, s2, w, h, start),
{
    lemma_carve_inv_parts(b_in, b0, s0, w, h, start);
    lemma_jump_parity(cell, d, n);
    let top = s0.last();
    assert(frame_ok(top, b0, w, h, start));
    lemma_carve_keeps_reachable(b0, w, h, start, cell, m, n);
    lemma_carve_cells(b0, b2, w, h, m, n);
    assert(jump_open(b2, w, h, cell, d));
    lemma_carve_frames(b0, b2, s0, s1, s2, w, h, start, cell, d, m, n);
    lemma_carve_lattice(b_in, b0, b2, s0, s1, s2, w, h, start, cell, m, n);
    lemma_carve_rest(b_in, b0, b2, w, h, start, cell, m, n);
    lemma_carve_inv_intro(b_in, b2, s2, w, h, start);
}

/// The top frame has tried all four jumps and is popped.
proof fn lemma_pop_step(b_in: Seq<bool>, b0: Seq<bool>, s0: Seq<CarveFrame>, w: int, h: int, start: Coord)
    requires
        carve_inv(b_in, b0, s0, w, h, start),
        s0.len() > 0,
        s0.last().next >= 4,
    ensures
        carve_inv(b_in, b0, s0.drop_last(), w, h, start),
{
    reveal(carve_inv);
    let top = s0.last();
    assert(frame_ok(top, b0, w, h, start));
    assert(finished(b0, w, h, top.cell)) by {
        assert forall|e: (isize, isize)| is_jump(e) implies #[trigger] jump_open(b0, w, h, top.cell, e) by {
            assert(top.jumps@.contains(e));
            let q = choose|q: int| 0 <= q < top.jumps@.len() && top.jumps@[q] == e;
            assert(jump_open(b0, w, h, top.cell, top.jumps@[q]));
        }
    }
    let s = s0.drop_last();
    assert forall|j: int| 0 <= j < s.len() implies frame_ok(#[trigger] s[j], b0, w, h, start) by {
        assert(s[j] == s0[j]);
    }
    assert forall|c: Coord|
        in_grid(w, h, c.0 as int, c.1 as int) && on_lattice(start, c) && #[trigger] open_in(b0, w, h, c) && (c
            == start || b_in[index_of(w, c.0 as int, c.1 as int)]) implies on_stack(s, c) || finished(b0, w, h, c) by {
        if on_stack(s0, c) && c != top.cell {
            let j = choose|j: int| 0 <= j < s0.len() && (#[trigger] s0[j]).cell == c;
            assert(s[j] == s0[j]);
        }
    }
}

/// What carving leaves once the stack is empty.
proof fn lemma_carve_done(b_in: Seq<bool>, bits: Seq<bool>, w: int, h: int, start: Coord)
    requires
        carve_inv(b_in, bits, Seq::<CarveFrame>::empty(), w, h, start),
        w > 0,
        h > 0,
        w * h <= usize::MAX,
        bits.len() == w * h,
        b_in.len() == w * h,
        in_grid(w, h, start.0 as int, start.1 as int),
    ensures
        forall|i: int| 0 <= i < w * h && #[trigger] bits[i] ==> b_in[i],
        forall|c: Coord| #[trigger] open_in(bits, w, h, c) && !open_in(b_in, w, h, c) ==> reachable(bits, w, h, start, c),
        forall|d: (isize, isize)| is_jump(d) ==> #[trigger] jump_open(bits, w, h, start, d),
        forall|c: Coord|
            in_grid(w, h, c.0 as int, c.1 as int) && c.0 % 2 != start.0 % 2 && c.1 % 2 != start.1 % 2
                ==> #[trigger] bits[index_of(w, c.0 as int, c.1 as int)] == b_in[index_of(w, c.0 as int, c.1 as int)],
        (forall|i: int| 0 <= i < w * h ==> b_in[i] == (i != index_of(w, start.0 as int, start.1 as int))) ==> forall|c: Coord|
            in_grid(w, h, c.0 as int, c.1 as int) && on_lattice(start, c) ==> #[trigger] open_in(bits, w, h, c),
{
    reveal(carve_inv);
    assert(!on_stack(Seq::<CarveFrame>::empty(), start));
    assert(finished(bits, w, h, start));
    if forall|i: int| 0 <= i < w * h ==> b_in[i] == (i != index_of(w, start.0 as int, start.1 as int)) {
        assert forall|q: Coord| #[trigger] open_in(bits, w, h, q) && on_lattice(start, q) implies finished(bits, w, h, q) by {
            lemma_index_in_range(w, h, q.0 as int, q.1 as int);
            if q != start {
                if index_of(w, q.0 as int, q.1 as int) == index_of(w, start.0 as int, start.1 as int) {
                    lemma_index_injective(w, h, q.0 as int, q.1 as int, start.0 as int, start.1 as int);
                }
                assert(!on_stack(Seq::<CarveFrame>::empty(), q));
            }
        }
        assert(w <= usize::MAX && h <= usize::MAX) by (nonlinear_arith)
            requires
                w * h <= usize::MAX,
                w >= 1,
                h >= 1,
        ;
        assert forall|c: Coord| in_grid(w, h, c.0 as int, c.1 as int) && on_lattice(start, c) implies #[trigger] open_in(bits, w, h, c) by {
            lemma_lattice_all_open(bits, w, h, start, c);
        }
    }
}

fn carve_maze(x: usize, y: usize, width: usize, height: usize, maze: &mut Vec<bool>, rng: &mut StdRng)
    requires
        width > 0,
        height > 0,
        width * height <= usize::MAX,
        old(maze)@.len() == width * height,
        open_in(old(maze)@, width as int, height as int, (x, y)),
    ensures
        final(maze)@.len() == width * height,
        forall|i: int| 0 <= i < width * height && #[trigger] final(maze)@[i] ==> old(maze)@[i],
        forall|c: Coord|
            #[trigger] open_in(final(maze)@, width as int, height as int, c) && !open_in(
                old(maze)@,
                width as int,
                height as int,
                c,
            ) ==> reachable(final(maze)@, width as int, height as int, (x, y), c),
        forall|d: (isize, isize)| is_jump(d) ==> #[trigger] jump_open(final(maze)@, width as int, height as int, (x, y), d),
        forall|c: Coord|
            in_grid(width as int, height as int, c.0 as int, c.1 as int) && c.0 % 2 != x % 2 && c.1 % 2
                != y % 2 ==> #[trigger] final(maze)@[index_of(width as int, c.0 as int, c.1 as int)] == old(
                maze,
            )@[index_of(width as int, c.0 as int, c.1 as int)],
        (forall|i: int| 0 <= i < width * height ==> old(maze)@[i] == (i != index_of(width as int, x as int, y as int)))
            ==> forall|c: Coord|
            in_grid(width as int, height as int, c.0 as int, c.1 as int) && on_lattice((x, y), c)
                ==> #[trigger] open_in(final(maze)@, width as int, height as int, c),
{
    let ghost w = width as int;
    let ghost h = height as int;
    let ghost start: Coord = (x, y);
    let ghost b_in = maze@;
    let mut stack: Vec<CarveFrame> = Vec::new();
    let first = shuffled_jumps(rng);
    stack.push(CarveFrame { cell: (x, y), jumps: first, next: 0 });
    proof {
        lemma_index_in_range(w, h, x as int, y as int);
        lemma_links_single(maze@, w, h, start);
        assert(frame_ok(stack@[0], maze@, w, h, start));
        reveal(carve_inv);
        assert forall|c: Coord|
            in_grid(w, h, c.0 as int, c.1 as int) && on_lattice(start, c) && #[trigger] open_in(maze@, w, h, c) && (c
                == start || b_in[index_of(w, c.0 as int, c.1 as int)]) implies on_stack(stack@, c) || finished(
            maze@,
            w,
            h,
            c,
        ) by {
            assert(stack@[0].cell == start);
        }
        assert(carve_inv(b_in, maze@, stack@, w, h, start));
    }
    while stack.len() > 0
        invariant
            w == width,
            h == height,
            width > 0,
            height > 0,
            width * height <= usize::MAX,
            maze@.len() == w * h,
            b_in == old(maze)@,
            b_in.len() == w * h,
            in_grid(w, h, start.0 as int, start.1 as int),
            carve_inv(b_in, maze@, stack@, w, h, start),
        decreases count_true(maze@), frames_left(stack@),
    {
        let ghost s0 = stack@;
        let ghost b0 = maze@;
        proof {
            lemma_carve_inv_frames(b_in, b0, s0, w, h, start);
        }
        let mut f = stack.pop().unwrap();
        assert(frame_ok(s0[s0.len() - 1], b0, w, h, start));
        if f.next < 4 {
            let d = f.jumps[f.next];
            f.next += 1;
            let cell = f.cell;
            stack.push(f);
            let ghost s1 = stack@;
            assert(s1.drop_last() =~= s0.drop_last());
            assert forall|j: int| 0 <= j < s1.len() - 1 implies #[trigger] s1[j] == s0[j] by {}
            match jump(cell, d, width, height) {
                Some((m, n)) => {
                    proof {
                        lemma_index_in_range(w, h, n.0 as int, n.1 as int);
                        lemma_index_in_range(w, h, m.0 as int, m.1 as int);
                    }
                    let ni = n.1 * width + n.0;
                    let mi = m.1 * width + m.0;
                    if maze[ni] {
                        maze.set(mi, false);
                        let ghost b1 = maze@;
                        maze.set(ni, false);
                        let ghost b2 = maze@;
                        proof {
                            if mi == ni {
                                lemma_index_injective(w, h, m.0 as int, m.1 as int, n.0 as int, n.1 as int);
                            }
                            lemma_count_true_clear(b0, mi as int);
                            lemma_count_true_clear(b1, ni as int);
                            assert(b2 == b0.update(mi as int, false).update(ni as int, false));
                        }
                        let jumps = shuffled_jumps(rng);
                        stack.push(CarveFrame { cell: n, jumps, next: 0 });
                        proof {
                            lemma_carve_step(b_in, b0, b2, s0, s1, stack@, w, h, start, cell, d, m, n);
                        }
                    } else {
                        proof {
                            lemma_keep_step(b_in, b0, s0, s1, w, h, start, cell, d);
                        }
                    }
                },
                None => {
                    proof {
                        lemma_keep_step(b_in, b0, s0, s1, w, h, start, cell, d);
                    }
                },
            }
        } else {
            proof {
                assert(stack@ =~= s0.drop_last());
                lemma_pop_step(b_in, b0, s0, w, h, start);
            }
        }
    }
    proof {
        lemma_carve_done(b_in, maze@, w, h, start);
    }
}

/// `p` has an open neighbour.
pub open spec fn has_open_neighbour(walls: Seq<bool>, w: int, h: int, p: Coord) -> bool {
    exists|c: Coord| #[trigger] open_in(walls, w, h, c) && adjacent(p, c)
}

/// A walk between two different cells starts with a move to an open
/// neighbour.
proof fn lemma_neighbour_from_walk(walls: Seq<bool>, w: int, h: int, p: Seq<Coord>, a: Coord, b: Coord)
    requires
        links(walls, w, h, p, a, b),
        a != b,
    ensures
        has_open_neighbour(walls, w, h, a),
{
    assert(p.len() >= 2);
    assert(open_in(walls, w, h, p[1]));
    assert(adjacent(p[0], p[1]));
}

/// The Manhattan distance between two cells of a grid.
pub(crate) fn manhattan_distance(a: Coord, b: Coord, w: usize, h: usize) -> (r: usize)
    requires
        w * h <= usize::MAX,
        in_grid(w as int, h as int, a.0 as int, a.1 as int),
        in_grid(w as int, h as int, b.0 as int, b.1 as int),
    ensures
        r == manhattan(a, b),
{
    let dx = if a.0 >= b.0 { a.0 - b.0 } else { b.0 - a.0 };
    let dy = if a.1 >= b.1 { a.1 - b.1 } else { b.1 - a.1 };
    assert(dx + dy <= w * h) by (nonlinear_arith)
        requires
            dx < w,
            dy < h,
            w >= 1,
            h >= 1,
    ;
    dx + dy
}

/// `s` is ordered by Manhattan distance from `from`, nearest first.
pub open spec fn by_distance(s: Seq<Coord>, from: Coord) -> bool {
    forall|i: int, j: int| 0 <= i < j < s.len() ==> manhattan(#[trigger] s[i], from) <= manhattan(#[trigger] s[j], from)
}

/// `r` is an end cell picked as maze generation picks it. There is a list
/// of candidates: open cells reachable from `start`, other than `start`,
/// and at least one when `start` has an open neighbour. With no candidate
/// `r` is `start`; otherwise `r` lies in the farther half of the candidates
/// ordered by Manhattan distance from `start`.
pub open spec fn picked_end(walls: Seq<bool>, w: int, h: int, start: Coord, r: Coord) -> bool {
    exists|cands: Seq<Coord>, sorted: Seq<Coord>|
        #![trigger cands.to_multiset(), sorted.to_multiset()]
        {
            &&& forall|k: int|
                0 <= k < cands.len() ==> open_in(walls, w, h, #[trigger] cands[k]) && reachable(
                    walls,
                    w,
                    h,
                    start,
                    cands[k],
                ) && cands[k] != start
            &&& (has_open_neighbour(walls, w, h, start) ==> cands.len() > 0)
            &&& sorted.to_multiset() == cands.to_multiset()
            &&& sorted.len() == cands.len()
            &&& by_distance(sorted, start)
            &&& if cands.len() == 0 {
                r == start
            } else {
                exists|k: int| sorted.len() / 2 <= k < sorted.len() && r == #[trigger] sorted[k]
            }
        }
}

/// The `i`-th cell of the farther half of `sorted`, counted from its middle.
pub fn pick_farther_half(sorted: &Vec<Coord>, i: usize) -> (r: Coord)
    requires
        i < sorted@.len() - sorted@.len() / 2,
    ensures
        r == sorted@[sorted@.len() / 2 + i],
{
    sorted[sorted.len() / 2 + i]
}

/// Orders `points` by Manhattan distance from `from`, nearest first; the
/// points themselves are kept.
pub fn sort_by_distance(points: &Vec<Coord>, from: Coord, width: usize, height: usize) -> (r: Vec<Coord>)
    requires
        width * height <= usize::MAX,
        forall|i: int|
            0 <= i < points@.len() ==> in_grid(width as int, height as int, (#[trigger] points@[i]).0 as int, points@[i].1 as int),
        in_grid(width as int, height as int, from.0 as int, from.1 as int),
    ensures
        r@.to_multiset() == points@.to_multiset(),
        by_distance(r@, from),
{
    let mut sorted: Vec<Coord> = Vec::new();
    let mut i: usize = 0;
    while i < points.len()
        invariant
            0 <= i <= points@.len(),
            width * height <= usize::MAX,
            in_grid(width as int, height as int, from.0 as int, from.1 as int),
            forall|a: int|
                0 <= a < points@.len() ==> in_grid(width as int, height as int, (#[trigger] points@[a]).0 as int, points@[a].1 as int),
            sorted@.to_multiset() == points@.subrange(0, i as int).to_multiset(),
            sorted@.len() == i,
            forall|a: int, b: int|
                0 <= a < b < sorted@.len() ==> manhattan(#[trigger] sorted@[a], from) <= manhattan(
                    #[trigger] sorted@[b],
                    from,
                ),
            forall|a: int|
                0 <= a < sorted@.len() ==> in_grid(width as int, height as int, (#[trigger] sorted@[a]).0 as int, sorted@[a].1 as int),
        decreases points@.len() - i,
    {
        let x = points[i];
        let kx = manhattan_distance(x, from, width, height);
        let mut pos: usize = 0;
        while pos < sorted.len() && manhattan_distance(sorted[pos], from, width, height) <= kx
            invariant
                0 <= pos <= sorted@.len(),
                width * height <= usize::MAX,
                in_grid(width as int, height as int, from.0 as int, from.1 as int),
                forall|a: int| 0 <= a < pos ==> manhattan(#[trigger] sorted@[a], from) <= kx,
                forall|a: int|
                    0 <= a < sorted@.len() ==> in_grid(width as int, height as int, (#[trigger] sorted@[a]).0 as int, sorted@[a].1 as int),
                kx == manhattan(x, from),
            decreases sorted@.len() - pos,
        {
            pos += 1;
        }
        let ghost old_sorted = sorted@;
        sorted.insert(pos, x);
        proof {
            old_sorted.insert_ensures(pos as int, x);
            assert(points@.subrange(0, i as int + 1) =~= points@.subrange(0, i as int).push(x));
            assert forall|a: int, b: int|
                0 <= a < b < sorted@.len() implies manhattan(#[trigger] sorted@[a], from)
                <= manhattan(#[trigger] sorted@[b], from) by {
                if b < pos {
                } else if b == pos {
                } else if a < pos {
                    assert(sorted@[b] == old_sorted[b - 1]);
                    if pos < old_sorted.len() {
                        assert(manhattan(old_sorted[pos as int], from) > kx);
                        assert(manhattan(old_sorted[pos as int], from) <= manhattan(old_sorted[b - 1], from)) by {
                            if pos < b - 1 {
                                assert(manhattan(old_sorted[pos as int], from) <= manhattan(old_sorted[b - 1], from));
                            }
                        }
                    }
                } else if a == pos {
                    assert(sorted@[b] == old_sorted[b - 1]);
                    assert(manhattan(old_sorted[pos as int], from) > kx);
                    if pos < b - 1 {
                        assert(manhattan(old_sorted[pos as int], from) <= manhattan(old_sorted[b - 1], from));
                    }
                } else {
                    assert(sorted@[a] == old_sorted[a - 1]);
                    assert(sorted@[b] == old_sorted[b - 1]);
                }
            }
        }
        i += 1;
    }
    assert(points@.subrange(0, points@.len() as int) =~= points@);
    sorted
}

/// Picks the end cell of a maze whose wall map is `maze`: a breadth-first
/// search from `start` records each cell that lies strictly farther away than
/// every cell met before it; these are ordered by Manhattan distance from
/// `start`, and the end is drawn from the farther half of them. With no such
/// cell the end is `start` itself.
fn get_appropriate_endpoint(maze: &Vec<bool>, width: usize, height: usize, start: Coord, rng: &mut StdRng) -> (r: Coord)
    requires
        width > 0,
        height > 0,
        width * height <= usize::MAX,
        maze@.len() == width * height,
        open_in(maze@, width as int, height as int, start),
    ensures
        open_in(maze@, width as int, height as int, r),
        reachable(maze@, width as int, height as int, start, r),
        has_open_neighbour(maze@, width as int, height as int, start) ==> r != start,
        picked_end(maze@, width as int, height as int, start, r),
{
    let ghost w = width as int;
    let ghost h = height as int;
    let n = width * height;
    let mut queue: Vec<(Coord, usize)> = Vec::new();
    let mut visited: Vec<bool> = vec![false; n];
    let mut furthest_points: Vec<Coord> = Vec::new();
    proof {
        lemma_index_in_range(w, h, start.0 as int, start.1 as int);
        lemma_links_single(maze@, w, h, start);
        lemma_count_true_set(visited@, index_of(w, start.0 as int, start.1 as int));
        lemma_count_true_none(visited@);
    }
    queue.push((start, 0));
    visited.set(start.1 * width + start.0, true);
    proof {
        assert forall|c: Coord|
            in_grid(w, h, c.0 as int, c.1 as int) && #[trigger] visited@[index_of(
                w,
                c.0 as int,
                c.1 as int,
            )] implies exists|j: int| 0 <= j < queue@.len() && (#[trigger] queue@[j]).0 == c by {
            lemma_index_in_range(w, h, c.0 as int, c.1 as int);
            if index_of(w, c.0 as int, c.1 as int) != index_of(w, start.0 as int, start.1 as int) {
                assert(!visited@[index_of(w, c.0 as int, c.1 as int)]);
            }
            lemma_index_injective(w, h, c.0 as int, c.1 as int, start.0 as int, start.1 as int);
            assert(queue@[0].0 == c);
        }
    }
    let mut max_distance: usize = 0;
    let mut head: usize = 0;
    while head < queue.len()
        invariant
            w == width,
            h == height,
            n == width * height,
            width > 0,
            height > 0,
            width * height <= usize::MAX,
            maze@.len() == n,
            visited@.len() == n,
            count_true(visited@) == queue@.len(),
            open_in(maze@, w, h, start),
            0 <= head <= queue@.len(),
            queue@.len() >= 1,
            queue@[0] == (start, 0usize),
            forall|j: int|
                0 <= j < queue@.len() ==> {
                    let (c, d) = #[trigger] queue@[j];
                    &&& open_in(maze@, w, h, c)
                    &&& reachable(maze@, w, h, start, c)
                    &&& visited@[index_of(w, c.0 as int, c.1 as int)]
                    &&& d <= j
                    &&& (j >= 1 ==> c != start && d >= 1)
                },
            forall|c: Coord|
                in_grid(w, h, c.0 as int, c.1 as int) && #[trigger] visited@[index_of(
                    w,
                    c.0 as int,
                    c.1 as int,
                )] ==> exists|j: int| 0 <= j < queue@.len() && (#[trigger] queue@[j]).0 == c,
            forall|i: int|
                0 <= i < furthest_points@.len() ==> {
                    let c = #[trigger] furthest_points@[i];
                    &&& open_in(maze@, w, h, c)
                    &&& reachable(maze@, w, h, start, c)
                    &&& c != start
                },
            head == 0 ==> queue@.len() == 1,
            head <= 1 ==> max_distance == 0,
            head >= 2 ==> furthest_points@.len() >= 1,
            head >= 1 && has_open_neighbour(maze@, w, h, start) ==> queue@.len() >= 2,
        decreases n - count_true(visited@), queue@.len() - head,
    {
        proof {
            lemma_count_true_le(visited@);
        }
        let (point, dist) = queue[head];
        let ghost head0 = head;
        let ghost len0 = queue@.len();
        head += 1;
        if dist > max_distance {
            max_distance = dist;
            furthest_points.push(point);
        }
        let mut k: usize = 0;
        while k < 4
            invariant
                w == width,
                h == height,
                n == width * height,
                width > 0,
                height > 0,
                width * height <= usize::MAX,
                maze@.len() == n,
                visited@.len() == n,
                count_true(visited@) == queue@.len(),
                open_in(maze@, w, h, start),
                1 <= head <= queue@.len(),
                head == head0 + 1,
                queue@[head0 as int] == (point, dist),
                queue@[0] == (start, 0usize),
                dist <= head0,
                open_in(maze@, w, h, point),
                reachable(maze@, w, h, start, point),
                0 <= k <= 4,
                forall|j: int|
                    0 <= j < queue@.len() ==> {
                        let (c, d) = #[trigger] queue@[j];
                        &&& open_in(maze@, w, h, c)
                        &&& reachable(maze@, w, h, start, c)
                        &&& visited@[index_of(w, c.0 as int, c.1 as int)]
                        &&& d <= j
                        &&& (j >= 1 ==> c != start && d >= 1)
                    },
                forall|c: Coord|
                    in_grid(w, h, c.0 as int, c.1 as int) && #[trigger] visited@[index_of(
                        w,
                        c.0 as int,
                        c.1 as int,
                    )] ==> exists|j: int| 0 <= j < queue@.len() && (#[trigger] queue@[j]).0 == c,
                forall|kk: int|
                    0 <= kk < k ==> {
                        let s = #[trigger] step_of(point, kk);
                        in_grid(w, h, s.0, s.1) && !maze@[index_of(w, s.0, s.1)] ==> visited@[index_of(w, s.0, s.1)]
                    },
                head0 == 0 ==> point == start,
                head0 == 0 && k == 0 ==> queue@.len() == 1,
                queue@.len() >= len0,
                len0 >= head,
            decreases 4 - k,
        {
            match neighbour(point, k, width, height) {
                Some(q) => {
                    proof {
                        lemma_index_in_range(w, h, q.0 as int, q.1 as int);
                    }
                    let qi = q.1 * width + q.0;
                    assert(step_of(point, k as int) == (q.0 as int, q.1 as int));
                    if !visited[qi] && !maze[qi] {
                        let ghost v0 = visited@;
                        let ghost q0 = queue@;
                        proof {
                            lemma_count_true_set(v0, qi as int);
                            lemma_count_true_le(v0);
                            let p = choose|p: Seq<Coord>| links(maze@, w, h, p, start, point);
                            lemma_links_push(maze@, w, h, p, start, point, q);
                            if q == start {
                                assert(q0[0] == (start, 0usize));
                            }
                        }
                        visited.set(qi, true);
                        queue.push((q, dist + 1));
                        proof {
                            assert forall|c: Coord|
                                in_grid(w, h, c.0 as int, c.1 as int) && #[trigger] visited@[index_of(
                                    w,
                                    c.0 as int,
                                    c.1 as int,
                                )] implies exists|j: int| 0 <= j < queue@.len() && (#[trigger] queue@[j]).0 == c by {
                                lemma_index_in_range(w, h, c.0 as int, c.1 as int);
                                if index_of(w, c.0 as int, c.1 as int) == qi {
                                    lemma_index_injective(w, h, c.0 as int, c.1 as int, q.0 as int, q.1 as int);
                                    assert(queue@[q0.len() as int].0 == c);
                                } else {
                                    assert(v0[index_of(w, c.0 as int, c.1 as int)]);
                                    let j = choose|j: int| 0 <= j < q0.len() && (#[trigger] q0[j]).0 == c;
                                    assert(queue@[j] == q0[j]);
                                }
                            }
                            assert forall|j: int| 0 <= j < queue@.len() implies {
                                let (c, d) = #[trigger] queue@[j];
                                &&& open_in(maze@, w, h, c)
                                &&& reachable(maze@, w, h, start, c)
                                &&& visited@[index_of(w, c.0 as int, c.1 as int)]
                                &&& d <= j
                                &&& (j >= 1 ==> c != start && d >= 1)
                            } by {
                                if j < q0.len() {
                                    assert(queue@[j] == q0[j]);
                                    let c = q0[j].0;
                                    lemma_index_in_range(w, h, c.0 as int, c.1 as int);
                                }
                            }
                        }
                    }
                    assert forall|kk: int| 0 <= kk <= k implies {
                        let s = #[trigger] step_of(point, kk);
                        in_grid(w, h, s.0, s.1) && !maze@[index_of(w, s.0, s.1)] ==> visited@[index_of(w, s.0, s.1)]
                    } by {
                        if kk == k {
                            assert(index_of(w, q.0 as int, q.1 as int) == qi);
                        } else {
                            let t = step_of(point, kk);
                            if in_grid(w, h, t.0, t.1) {
                                lemma_index_in_range(w, h, t.0, t.1);
                            }
                        }
                    }
                },
                None => {},
            }
            k += 1;
        }
        proof {
            if head0 == 0 && has_open_neighbour(maze@, w, h, start) {
                let c = choose|c: Coord| #[trigger] open_in(maze@, w, h, c) && adjacent(start, c);
                lemma_adjacent_is_step(start, c);
                let kk = choose|kk: int| 0 <= kk < 4 && #[trigger] step_of(start, kk) == (c.0 as int, c.1 as int);
                assert(visited@[index_of(w, c.0 as int, c.1 as int)]);
                let j = choose|j: int| 0 <= j < queue@.len() && (#[trigger] queue@[j]).0 == c;
                assert(j != 0);
            }
            lemma_count_true_le(visited@);
        }
    }
    let sorted = sort_by_distance(&furthest_points, start, width, height);
    proof {
        assert(has_open_neighbour(maze@, w, h, start) ==> furthest_points@.len() > 0);
        assert forall|k: int| 0 <= k < furthest_points@.len() implies open_in(maze@, w, h, #[trigger] furthest_points@[k])
            && reachable(maze@, w, h, start, furthest_points@[k]) && furthest_points@[k] != start by {}
        assert forall|i: int| 0 <= i < sorted@.len() implies {
            let c = #[trigger] sorted@[i];
            &&& open_in(maze@, w, h, c)
            &&& reachable(maze@, w, h, start, c)
            &&& c != start
        } by {
            assert(sorted@.contains(sorted@[i]));
            assert(furthest_points@.to_multiset().count(sorted@[i]) > 0);
            assert(furthest_points@.contains(sorted@[i]));
        }
    }
    if sorted.len() == 0 {
        proof {
            assert(sorted@.len() == sorted@.to_multiset().len());
            assert(furthest_points@.len() == furthest_points@.to_multiset().len());
            lemma_links_single(maze@, w, h, start);
            assert(furthest_points@.to_multiset() == sorted@.to_multiset());
        }
        return start;
    }
    let half_index = sorted.len() / 2;
    let random_index = random_below(rng, sorted.len() - half_index);
    let r = pick_farther_half(&sorted, random_index);
    proof {
        assert(sorted@.len() == sorted@.to_multiset().len());
        assert(furthest_points@.len() == furthest_points@.to_multiset().len());
        assert(furthest_points@.to_multiset() == sorted@.to_multiset());
        assert(r == sorted@[sorted@.len() / 2 + random_index]);
    }
    r
}

/// On a grid at least three cells wide or tall, a lattice start whose
/// jump targets are all open, and from which every open cell is reachable,
/// has an open neighbour.
proof fn lemma_lattice_start_has_neighbour(bits: Seq<bool>, w: int, h: int, start: Coord)
    requires
        w >= 3 || h >= 3,
        w <= usize::MAX,
        h <= usize::MAX,
        in_grid(w, h, start.0 as int, start.1 as int),
        start.0 % 2 == 0,
        start.1 % 2 == 0,
        forall|c: Coord| #[trigger] open_in(bits, w, h, c) ==> reachable(bits, w, h, start, c),
        forall|d: (isize, isize)| is_jump(d) ==> #[trigger] jump_open(bits, w, h, start, d),
    ensures
        has_open_neighbour(bits, w, h, start),
{
    let d: (isize, isize) = if w >= 3 {
        if start.0 + 2 < w { (2isize, 0isize) } else { (-2isize, 0isize) }
    } else {
        if start.1 + 2 < h { (0isize, 2isize) } else { (0isize, -2isize) }
    };
    assert(is_jump(d));
    assert(jump_open(bits, w, h, start, d));
    let t = jump_target(start, d);
    assert(in_grid(w, h, t.0, t.1));
    let tc: Coord = (t.0 as usize, t.1 as usize);
    assert(tc.0 as int == t.0 && tc.1 as int == t.1);
    assert(open_in(bits, w, h, tc));
    assert(reachable(bits, w, h, start, tc));
    assert(tc != start);
    let p = choose|p: Seq<Coord>| links(bits, w, h, p, start, tc);
    lemma_neighbour_from_walk(bits, w, h, p, start, tc);
}

/// Builds a `width` x `height` maze. The start is a random lattice cell (both
/// coordinates even), corridors are carved from it, and the end is picked by
/// `get_appropriate_endpoint`. Wall flags become `WALL` cells, open flags
/// `UNEXPLORED` cells; then the end cell is marked `END` and the start cell
/// `START` (a maze whose end is its start shows only `START`).
#[verifier::rlimit(40)]
pub fn create_maze(width: usize, height: usize, rng: &mut StdRng) -> (r: Maze)
    requires
        width > 0,
        height > 0,
        width * height <= usize::MAX,
    ensures
        r.wf(),
        r.width == width,
        r.height == height,
        r.connected(),
        has_open_neighbour(r.wall_map(), width as int, height as int, r.start) ==> r.start != r.end,
        width >= 3 || height >= 3 ==> r.start != r.end,
        picked_end(r.wall_map(), width as int, height as int, r.start, r.end),
        forall|c: Coord|
            in_grid(width as int, height as int, c.0 as int, c.1 as int) && c.0 % 2 == 0 && c.1 % 2 == 0
                ==> #[trigger] open_in(r.wall_map(), width as int, height as int, c),
        forall|c: Coord|
            in_grid(width as int, height as int, c.0 as int, c.1 as int) && c.0 % 2 == 1 && c.1 % 2 == 1
                ==> #[trigger] r.wall_map()[index_of(width as int, c.0 as int, c.1 as int)],
        r.start.0 % 2 == 0,
        r.start.1 % 2 == 0,
        forall|i: int|
            0 <= i < r.cells@.len() ==> #[trigger] r.cells@[i] == CellState::WALL || r.cells@[i]
                == CellState::UNEXPLORED || r.cells@[i] == CellState::START || r.cells@[i]
                == CellState::END,
{
    let ghost w = width as int;
    let ghost h = height as int;
    let n = width * height;
    let mut bit_maze: Vec<bool> = vec![true; n];
    let start_x = 2 * random_below(rng, (width - 1) / 2 + 1);
    let start_y = 2 * random_below(rng, (height - 1) / 2 + 1);
    let start: Coord = (start_x, start_y);
    proof {
        lemma_index_in_range(w, h, start_x as int, start_y as int);
    }
    let si = start_y * width + start_x;
    bit_maze.set(si, false);
    let ghost pre_carve = bit_maze@;
    proof {
        assert forall|i: int| 0 <= i < w * h implies pre_carve[i] == (i != index_of(w, start_x as int, start_y as int)) by {}
    }
    carve_maze(start_x, start_y, width, height, &mut bit_maze, rng);
    proof {
        assert forall|c: Coord|
            in_grid(w, h, c.0 as int, c.1 as int) && c.0 % 2 == 1 && c.1 % 2 == 1 implies #[trigger] bit_maze@[index_of(w, c.0 as int, c.1 as int)] by {
            lemma_index_in_range(w, h, c.0 as int, c.1 as int);
            if index_of(w, c.0 as int, c.1 as int) == si {
                lemma_index_injective(w, h, c.0 as int, c.1 as int, start_x as int, start_y as int);
            }
            assert(pre_carve[index_of(w, c.0 as int, c.1 as int)]);
        }
        assert forall|c: Coord| #[trigger]
            open_in(bit_maze@, w, h, c) implies reachable(bit_maze@, w, h, start, c) by {
            if open_in(pre_carve, w, h, c) {
                lemma_index_in_range(w, h, c.0 as int, c.1 as int);
                lemma_index_injective(w, h, c.0 as int, c.1 as int, start_x as int, start_y as int);
                lemma_links_single(bit_maze@, w, h, start);
            }
        }
        if width >= 3 || height >= 3 {
            assert(w <= usize::MAX && h <= usize::MAX) by (nonlinear_arith)
                requires
                    w * h <= usize::MAX,
                    w >= 1,
                    h >= 1,
            ;
            lemma_lattice_start_has_neighbour(bit_maze@, w, h, start);
        }
    }
    let end = get_appropriate_endpoint(&bit_maze, width, height, start, rng);
    let mut cells: Vec<CellState> = Vec::new();
    let mut i: usize = 0;
    while i < n
        invariant
            0 <= i <= n,
            n == bit_maze@.len(),
            cells@.len() == i,
            forall|j: int|
                0 <= j < i ==> #[trigger] cells@[j] == if bit_maze@[j] {
                    CellState::WALL
                } else {
                    CellState::UNEXPLORED
                },
        decreases n - i,
    {
        cells.push(if bit_maze[i] { CellState::WALL } else { CellState::UNEXPLORED });
        i += 1;
    }
    proof {
        lemma_index_in_range(w, h, end.0 as int, end.1 as int);
    }
    let ei = end.1 * width + end.0;
    if end.0 != start.0 || end.1 != start.1 {
        cells.set(ei, CellState::END);
    }
    cells.set(si, CellState::START);
    let r = Maze { start, end, width, height, cells };
    proof {
        assert(r.wall_map() =~= bit_maze@);
        assert forall|x: int, y: int| #[trigger] r.in_bounds((x, y)) implies ((r.cell(x, y)
            == CellState::START <==> (x == start.0 && y == start.1)) && (r.cell(x, y)
            == CellState::END <==> (x == end.0 && y == end.1 && start != end))) by {
            lemma_index_in_range(w, h, x, y);
            if index_of(w, x, y) == si {
                lemma_index_injective(w, h, x, y, start.0 as int, start.1 as int);
            }
            if index_of(w, x, y) == ei {
                lemma_index_injective(w, h, x, y, end.0 as int, end.1 as int);
            }
            if ei == si {
                lemma_index_injective(w, h, end.0 as int, end.1 as int, start.0 as int, start.1 as int);
            }
        }
    }
    r
}

} // verus!
