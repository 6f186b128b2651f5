//! Recursive division: starting from a fully open grid, rectangles are split
//! by a closed line with a single hole, until none can be split.
use vstd::prelude::*;
use rand::rngs::StdRng;
use crate::maze::{Dir, Generator, Maze, Pos, Size, Wall, connected, lemma_interior_walls, passages_are, lemma_linked_refl, lemma_linked_step, lemma_linked_symm, lemma_linked_trans, lemma_reroute, linked};
use crate::rng::{below, chance};
use vstd::set_lib::{lemma_int_range, set_int_range};

verus! {

/// A pending rectangle of cells, `x1..x2` by `y1..y2`.
pub type Rect = (usize, usize, usize, usize);

pub struct RecursiveDivision;

/// Wall `wall` lies inside rectangle `r`: the cells on both of its sides are in `r`.
pub open spec fn inside(r: Rect, wall: Wall) -> bool {
    if wall.2 {
        r.0 <= wall.0 && wall.0 + 1 < r.2 && r.1 <= wall.1 < r.3
    } else {
        r.0 <= wall.0 < r.2 && r.1 <= wall.1 && wall.1 + 1 < r.3
    }
}

/// The rectangle has cells, and lies on a `w x h` grid.
pub open spec fn rect_on(r: Rect, w: usize, h: usize) -> bool {
    r.0 < r.2 <= w && r.1 < r.3 <= h
}

spec fn area(r: Rect) -> int {
    (r.2 - r.0) * (r.3 - r.1)
}

/// Work left on a stack of rectangles: each split trades one rectangle for
/// two whose areas add up to its own.
spec fn pending(s: Seq<Rect>) -> int
    decreases s.len(),
{
    if s.len() == 0 {
        0
    } else {
        pending(s.drop_last()) + 3 * area(s.last()) - 1
    }
}

proof fn lemma_pending_push(s: Seq<Rect>, r: Rect)
    ensures
        pending(s.push(r)) == pending(s) + 3 * area(r) - 1,
{
    assert(s.push(r).drop_last() =~= s);
}

proof fn lemma_area_positive(r: Rect)
    requires
        r.0 < r.2 && r.1 < r.3,
    ensures
        area(r) >= 1,
{
    assert((r.2 - r.0) * (r.3 - r.1) >= 1) by (nonlinear_arith)
        requires
            r.2 - r.0 >= 1 && r.3 - r.1 >= 1,
    ;
}

proof fn lemma_pending_nonneg(s: Seq<Rect>, w: usize, h: usize)
    requires
        forall|i: int| 0 <= i < s.len() ==> #[trigger] rect_on(s[i], w, h),
    ensures
        pending(s) >= 0,
    decreases s.len(),
{
    if s.len() > 0 {
        assert(rect_on(s[s.len() - 1], w, h));
        lemma_pending_nonneg(s.drop_last(), w, h);
        lemma_area_positive(s.last());
    }
}

/// Cell `p` lies in rectangle `r`.
pub open spec fn cell_in(r: Rect, p: Pos) -> bool {
    r.0 <= p.0 < r.2 && r.1 <= p.1 < r.3
}

/// Every wall inside rectangle `r` is open in `m`.
pub open spec fn open_inside(m: &Maze, r: Rect) -> bool {
    forall|wall: Wall| #[trigger] inside(r, wall) ==> m.stored(wall)
}

/// Two rectangles share no cell.
pub open spec fn disjoint(a: Rect, b: Rect) -> bool {
    a.2 <= b.0 || b.2 <= a.0 || a.3 <= b.1 || b.3 <= a.1
}

/// Inside a rectangle with every inner wall open, any two cells are linked.
proof fn lemma_rect_linked(m: &Maze, r: Rect, p: Pos, q: Pos)
    requires
        r.2 <= m.width() && r.3 <= m.height(),
        open_inside(m, r),
        cell_in(r, p),
        cell_in(r, q),
    ensures
        linked(m, p, q),
    decreases
        (if p.0 < q.0 { q.0 - p.0 } else { p.0 - q.0 }) + (if p.1 < q.1 { q.1 - p.1 } else { p.1 - q.1 }),
{
    if p == q {
        lemma_linked_refl(m, p);
    } else {
        let d = if p.0 < q.0 {
            Dir::Right
        } else if p.0 > q.0 {
            Dir::Left
        } else if p.1 < q.1 {
            Dir::Down
        } else {
            Dir::Up
        };
        assert(m.step(d, p) is Some);
        assert(inside(r, Maze::wall(d, p)));
        assert(m.open(d, p));
        let nx = m.step(d, p)->0;
        lemma_linked_step(m, d, p);
        lemma_rect_linked(m, r, nx, q);
        lemma_linked_trans(m, p, nx, q);
    }
}

/// Closing column `x` of rectangle `r` but for one hole keeps the grid
/// connected, leaves the two halves open inside, and touches no rectangle
/// apart from `r`.
proof fn lemma_split_across(mr: &Maze, m1: &Maze, r: Rect, x: usize, hole: usize, others: Seq<Rect>)
    requires
        m1.width() == mr.width() && m1.height() == mr.height(),
        r.2 <= mr.width() && r.3 <= mr.height(),
        r.0 < x < r.2,
        r.1 <= hole < r.3,
        connected(mr),
        open_inside(mr, r),
        forall|i: int| 0 <= i < others.len() ==> open_inside(mr, #[trigger] others[i]) && disjoint(others[i], r),
        forall|wall: Wall| !(wall.2 && wall.0 == x - 1 && r.1 <= wall.1 < r.3) ==> #[trigger] m1.stored(wall) == mr.stored(wall),
        forall|yy: usize| r.1 <= yy < r.3 ==> #[trigger] m1.stored(((x - 1) as int, yy as int, true)) == (yy == hole),
    ensures
        connected(m1),
        open_inside(m1, (r.0, r.1, x, r.3)),
        open_inside(m1, (x, r.1, r.2, r.3)),
        forall|i: int| 0 <= i < others.len() ==> open_inside(m1, #[trigger] others[i]),
{
    let left: Rect = (r.0, r.1, x, r.3);
    let right: Rect = (x, r.1, r.2, r.3);
    assert forall|wall: Wall| #[trigger] inside(left, wall) implies m1.stored(wall) by {
        assert(inside(r, wall));
    }
    assert forall|wall: Wall| #[trigger] inside(right, wall) implies m1.stored(wall) by {
        assert(inside(r, wall));
    }
    assert forall|i: int| 0 <= i < others.len() implies open_inside(m1, #[trigger] others[i]) by {
        assert(open_inside(mr, others[i]));
        assert forall|wall: Wall| #[trigger] inside(others[i], wall) implies m1.stored(wall) by {
            assert(mr.stored(wall));
        }
    }
    let a0: Pos = ((x - 1) as usize, hole);
    let b0: Pos = (x, hole);
    assert(m1.stored(Maze::wall(Dir::Right, a0)));
    assert(m1.open(Dir::Right, a0));
    lemma_linked_step(m1, Dir::Right, a0);
    assert forall|c: Pos, d: Dir| mr.in_bounds(c) && #[trigger] mr.open(d, c) implies linked(m1, c, mr.step(d, c)->0) by {
        let nx = mr.step(d, c)->0;
        let wall = Maze::wall(d, c);
        if !(wall.2 && wall.0 == x - 1 && r.1 <= wall.1 < r.3) {
            assert(m1.stored(wall));
            assert(m1.open(d, c));
            lemma_linked_step(m1, d, c);
        } else {
            let yy = wall.1 as usize;
            let a: Pos = ((x - 1) as usize, yy);
            let b: Pos = (x, yy);
            lemma_rect_linked(m1, left, a, a0);
            lemma_rect_linked(m1, right, b0, b);
            lemma_linked_trans(m1, a, a0, b0);
            lemma_linked_trans(m1, a, b0, b);
            if d == Dir::Right {
                assert(c == a && nx == b);
            } else {
                assert(d == Dir::Left);
                assert(c == b && nx == a);
                lemma_linked_symm(m1, a, b);
            }
        }
    }
    assert forall|p: Pos, q: Pos| m1.in_bounds(p) && m1.in_bounds(q) implies #[trigger] linked(m1, p, q) by {
        assert(linked(mr, p, q));
        lemma_reroute(mr, m1, p, q);
    }
}

/// Closing row `y` of rectangle `r` but for one hole keeps the grid
/// connected, leaves the two halves open inside, and touches no rectangle
/// apart from `r`.
proof fn lemma_split_down(mr: &Maze, m1: &Maze, r: Rect, y: usize, hole: usize, others: Seq<Rect>)
    requires
        m1.width() == mr.width() && m1.height() == mr.height(),
        r.2 <= mr.width() && r.3 <= mr.height(),
        r.1 < y < r.3,
        r.0 <= hole < r.2,
        connected(mr),
        open_inside(mr, r),
        forall|i: int| 0 <= i < others.len() ==> open_inside(mr, #[trigger] others[i]) && disjoint(others[i], r),
        forall|wall: Wall| !(!wall.2 && wall.1 == y - 1 && r.0 <= wall.0 < r.2) ==> #[trigger] m1.stored(wall) == mr.stored(wall),
        forall|xx: usize| r.0 <= xx < r.2 ==> #[trigger] m1.stored((xx as int, (y - 1) as int, false)) == (xx == hole),
    ensures
        connected(m1),
        open_inside(m1, (r.0, r.1, r.2, y)),
        open_inside(m1, (r.0, y, r.2, r.3)),
        forall|i: int| 0 <= i < others.len() ==> open_inside(m1, #[trigger] others[i]),
{
    let top: Rect = (r.0, r.1, r.2, y);
    let bottom: Rect = (r.0, y, r.2, r.3);
    assert forall|wall: Wall| #[trigger] inside(top, wall) implies m1.stored(wall) by {
        assert(inside(r, wall));
    }
    assert forall|wall: Wall| #[trigger] inside(bottom, wall) implies m1.stored(wall) by {
        assert(inside(r, wall));
    }
    assert forall|i: int| 0 <= i < others.len() implies open_inside(m1, #[trigger] others[i]) by {
        assert(open_inside(mr, others[i]));
        assert forall|wall: Wall| #[trigger] inside(others[i], wall) implies m1.stored(wall) by {
            assert(mr.stored(wall));
        }
    }
    let a0: Pos = (hole, (y - 1) as usize);
    let b0: Pos = (hole, y);
    assert(m1.stored(Maze::wall(Dir::Down, a0)));
    assert(m1.open(Dir::Down, a0));
    lemma_linked_step(m1, Dir::Down, a0);
    assert forall|c: Pos, d: Dir| mr.in_bounds(c) && #[trigger] mr.open(d, c) implies linked(m1, c, mr.step(d, c)->0) by {
        let nx = mr.step(d, c)->0;
        let wall = Maze::wall(d, c);
        if !(!wall.2 && wall.1 == y - 1 && r.0 <= wall.0 < r.2) {
            assert(m1.stored(wall));
            assert(m1.open(d, c));
            lemma_linked_step(m1, d, c);
        } else {
            let xx = wall.0 as usize;
            let a: Pos = (xx, (y - 1) as usize);
            let b: Pos = (xx, y);
            lemma_rect_linked(m1, top, a, a0);
            lemma_rect_linked(m1, bottom, b0, b);
            lemma_linked_trans(m1, a, a0, b0);
            lemma_linked_trans(m1, a, b0, b);
            if d == Dir::Down {
                assert(c == a && nx == b);
            } else {
                assert(d == Dir::Up);
                assert(c == b && nx == a);
                lemma_linked_symm(m1, a, b);
            }
        }
    }
    assert forall|p: Pos, q: Pos| m1.in_bounds(p) && m1.in_bounds(q) implies #[trigger] linked(m1, p, q) by {
        assert(linked(mr, p, q));
        lemma_reroute(mr, m1, p, q);
    }
}

/// The walls a rectangle holds beyond those of a tree over its cells.
spec fn excess(r: Rect) -> int {
    (r.2 - r.0 - 1) * (r.3 - r.1 - 1)
}

spec fn excess_sum(s: Seq<Rect>) -> int
    decreases s.len(),
{
    if s.len() == 0 {
        0
    } else {
        excess_sum(s.drop_last()) + excess(s.last())
    }
}

proof fn lemma_excess_push(s: Seq<Rect>, r: Rect)
    ensures
        excess_sum(s.push(r)) == excess_sum(s) + excess(r),
{
    assert(s.push(r).drop_last() =~= s);
}

/// The walls that a split closes: a line of `len` walls, named by position
/// along the line, all but the hole.
proof fn lemma_line(lo: int, hi: int, hole: int, f: spec_fn(int) -> Wall) -> (l: Set<Wall>)
    requires
        lo <= hole < hi,
        forall|i: int, j: int| #[trigger] f(i) == #[trigger] f(j) ==> i == j,
    ensures
        l.finite(),
        l.len() == hi - lo - 1,
        forall|wall: Wall| #[trigger] l.contains(wall) <==> exists|i: int| lo <= i < hi && i != hole && #[trigger] f(i) == wall,
{
    let r = set_int_range(lo, hi).remove(hole);
    lemma_int_range(lo, hi);
    let l = r.map(f);
    assert(vstd::relations::injective_on(f, r));
    vstd::set_lib::lemma_map_size(r, l, f);
    assert forall|wall: Wall| #[trigger] l.contains(wall) <==> exists|i: int| lo <= i < hi && i != hole && #[trigger] f(i) == wall by {
        if exists|i: int| lo <= i < hi && i != hole && #[trigger] f(i) == wall {
            let i = choose|i: int| lo <= i < hi && i != hole && #[trigger] f(i) == wall;
            assert(r.contains(i));
        }
    }
    l
}

impl Generator for RecursiveDivision {
    open spec fn accepts(&self, size: Size) -> bool {
        true
    }

    fn keys_cells(&self) -> (r: bool) {
        false
    }

    fn generate(&self, rng: &mut StdRng, size: Size) -> (m: Maze)
        ensures
            size.0 < 2 || size.1 < 2 ==> forall|wall: Wall| #[trigger] m.interior(wall) ==> m.stored(wall),
            size.0 >= 2 && size.1 >= 2 ==> exists|wall: Wall| #[trigger] m.interior(wall) && !m.stored(wall),
            connected(&m),
            size.0 > 0 && size.1 > 0 ==> exists|ws: Set<Wall>| #[trigger] passages_are(&m, ws) && ws.finite()
                && ws.len() == size.0 * size.1 - 1,
    {
        let (w, h) = size;
        let mut maze = Maze::new(size, true);
        let mut rects: Vec<Rect> = Vec::new();
        if w > 0 && h > 0 {
            rects.push((0, 0, w, h));
        }
        proof {
            if w > 0 && h > 0 {
                let whole: Rect = (0, 0, w, h);
                assert forall|wall: Wall| #[trigger] inside(whole, wall) implies maze.stored(wall) by {
                    assert(maze.interior(wall));
                }
                assert forall|p: Pos, q: Pos| maze.in_bounds(p) && maze.in_bounds(q) implies #[trigger] linked(&maze, p, q) by {
                    lemma_rect_linked(&maze, whole, p, q);
                }
            }
        }
        // The walls closed so far.
        let ghost mut closed: Set<Wall> = Set::empty();
        proof {
            if w > 0 && h > 0 {
                assert(rects@.drop_last() =~= Seq::<Rect>::empty());
                assert(excess_sum(Seq::<Rect>::empty()) == 0);
                assert(excess_sum(rects@) == excess((0usize, 0usize, w, h)));
            }
        }
        // The first split closes `cw`, a wall that no later split reaches.
        let ghost mut started: bool = !(w >= 2 && h >= 2);
        let ghost mut cw: Wall = (0, 0, true);
        while rects.len() > 0
            invariant
                maze.width() == w,
                maze.height() == h,
                forall|i: int| 0 <= i < rects@.len() ==> #[trigger] rect_on(rects@[i], w, h),
                w < 2 || h < 2 ==> forall|wall: Wall| #[trigger] maze.interior(wall) ==> maze.stored(wall),
                !started ==> w >= 2 && h >= 2 && rects@ == seq![(0usize, 0usize, w, h)],
                started && w >= 2 && h >= 2 ==> maze.interior(cw) && !maze.stored(cw)
                    && forall|i: int| 0 <= i < rects@.len() ==> !inside(#[trigger] rects@[i], cw),
                connected(&maze),
                forall|i: int| 0 <= i < rects@.len() ==> open_inside(&maze, #[trigger] rects@[i]),
                forall|i: int, j: int| 0 <= i < j < rects@.len() ==> disjoint(#[trigger] rects@[i], #[trigger] rects@[j]),
                closed.finite(),
                forall|wall: Wall| #[trigger] closed.contains(wall) <==> maze.interior(wall) && !maze.stored(wall),
                w > 0 && h > 0 ==> closed.len() + excess_sum(rects@) == (w - 1) * (h - 1),
            decreases pending(rects@),
        {
            proof {
                lemma_pending_nonneg(rects@, w, h);
            }
            let ghost before = rects@;
            let (x1, y1, x2, y2) = rects.pop().unwrap();
            assert(before.drop_last() =~= rects@);
            assert(rect_on(before[before.len() - 1], w, h));
            proof {
                lemma_pending_nonneg(rects@, w, h);
                lemma_area_positive((x1, y1, x2, y2));
            }
            proof {
                assert(excess_sum(before) == excess_sum(rects@) + excess((x1, y1, x2, y2)));
            }
            if x2 - x1 < 2 || y2 - y1 < 2 {
                assert(excess((x1, y1, x2, y2)) == 0) by (nonlinear_arith)
                    requires
                        x2 - x1 < 2 || y2 - y1 < 2,
                        x1 < x2,
                        y1 < y2,
                ;
                continue;
            }
            assert(started ==> !inside((x1, y1, x2, y2), cw) || !(w >= 2 && h >= 2));
            assert(w >= 2 && h >= 2);
            let across = if x2 - x1 > y2 - y1 {
                true
            } else if x2 - x1 < y2 - y1 {
                false
            } else {
                chance(rng, 1, 2)
            };
            if across {
                // A closed column of walls at `x`, with one hole.
                let x = below(rng, x1 + 1, x2);
                let hole = below(rng, y1, y2);
                let ghost mr = maze;
                for y in y1..y2
                    invariant
                        maze.width() == w,
                        maze.height() == h,
                        x1 < x < x2 <= w,
                        y2 <= h,
                        started && w >= 2 && h >= 2 ==> maze.interior(cw) && !maze.stored(cw),
                        !inside((x1, y1, x2, y2), cw) || !started,
                        forall|yy: usize| y1 <= yy < y ==> #[trigger] maze.stored(((x - 1) as int, yy as int, true))
                            == (yy == hole),
                        forall|wall: Wall| !(wall.2 && wall.0 == x - 1 && y1 <= wall.1 < y) ==> #[trigger] maze.stored(wall) == mr.stored(wall),
                {
                    let ghost m0 = maze;
                    maze.set_open(Dir::Left, (x, y), y == hole);
                    assert(Maze::wall(Dir::Left, (x, y)) == ((x - 1) as int, y as int, true));
                    assert forall|yy: usize| y1 <= yy < y implies #[trigger] maze.stored(((x - 1) as int, yy as int, true))
                        == m0.stored(((x - 1) as int, yy as int, true)) by {}
                }
                proof {
                    assert forall|i: int| 0 <= i < rects@.len() implies open_inside(&mr, #[trigger] rects@[i])
                        && disjoint(rects@[i], (x1, y1, x2, y2)) by {
                        assert(rects@[i] == before[i]);
                        assert(disjoint(before[i], before[before.len() - 1]));
                    }
                    lemma_split_across(&mr, &maze, (x1, y1, x2, y2), x, hole, rects@);
                    let f = |i: int| ((x - 1) as int, i, true);
                    let line = lemma_line(y1 as int, y2 as int, hole as int, f);
                    assert forall|wall: Wall| line.contains(wall) implies !closed.contains(wall) by {
                        let i = choose|i: int| y1 <= i < y2 && i != hole && #[trigger] f(i) == wall;
                        assert(inside((x1, y1, x2, y2), wall));
                    }
                    assert(line.disjoint(closed));
                    vstd::set_lib::lemma_set_disjoint_lens(line, closed);
                    assert forall|wall: Wall| #[trigger] (line + closed).contains(wall) <==> maze.interior(wall) && !maze.stored(wall) by {
                        assert((line + closed).contains(wall) == (line.contains(wall) || closed.contains(wall)));
                        assert(closed.contains(wall) <==> mr.interior(wall) && !mr.stored(wall));
                        assert(maze.interior(wall) == mr.interior(wall));
                        if wall.2 && wall.0 == x - 1 && y1 <= wall.1 < y2 {
                            assert(inside((x1, y1, x2, y2), wall));
                            let yy = wall.1 as usize;
                            assert(maze.stored(((x - 1) as int, yy as int, true)) == (yy == hole));
                            if yy != hole {
                                assert(f(wall.1) == wall);
                            } else {
                                assert(!line.contains(wall)) by {
                                    if line.contains(wall) {
                                        let i = choose|i: int| y1 <= i < y2 && i != hole && #[trigger] f(i) == wall;
                                    }
                                }
                            }
                        } else {
                            assert(maze.stored(wall) == mr.stored(wall));
                            assert(!line.contains(wall)) by {
                                if line.contains(wall) {
                                    let i = choose|i: int| y1 <= i < y2 && i != hole && #[trigger] f(i) == wall;
                                }
                            }
                        }
                    }
                    closed = line + closed;
                    assert(excess((x1, y1, x, y2)) + excess((x, y1, x2, y2)) + (y2 - y1 - 1) == excess((x1, y1, x2, y2)))
                        by (nonlinear_arith);
                }
                let ghost others = rects@;
                rects.push((x1, y1, x, y2));
                rects.push((x, y1, x2, y2));
                proof {
                    assert forall|i: int| 0 <= i < rects@.len() implies open_inside(&maze, #[trigger] rects@[i]) by {
                        if i < others.len() {
                            assert(rects@[i] == others[i]);
                        }
                    }
                    assert forall|i: int, j: int| 0 <= i < j < rects@.len() implies disjoint(#[trigger] rects@[i], #[trigger] rects@[j]) by {
                        if j < others.len() {
                            assert(rects@[i] == before[i] && rects@[j] == before[j]);
                        } else if i < others.len() {
                            assert(rects@[i] == before[i]);
                            assert(disjoint(before[i], before[before.len() - 1]));
                        }
                    }
                    if !started {
                        let yy: usize = if hole == y1 { (y1 + 1) as usize } else { y1 };
                        assert(maze.stored(((x - 1) as int, yy as int, true)) == (yy == hole));
                        cw = ((x - 1) as int, yy as int, true);
                        started = true;
                    }
                    assert((x - x1) * (y2 - y1) + (x2 - x) * (y2 - y1) == (x2 - x1) * (y2 - y1))
                        by (nonlinear_arith);
                    lemma_pending_push(before.drop_last(), (x1, y1, x, y2));
                    lemma_pending_push(before.drop_last().push((x1, y1, x, y2)), (x, y1, x2, y2));
                    lemma_pending_push(before.drop_last(), (x1, y1, x2, y2));
                    lemma_excess_push(others, rects@[others.len() as int]);
                    lemma_excess_push(others.push(rects@[others.len() as int]), rects@[others.len() + 1int]);
                    assert(rects@ =~= others.push(rects@[others.len() as int]).push(rects@[others.len() + 1int]));
                    assert(before.drop_last().push((x1, y1, x2, y2)) =~= before);
                }
            } else {
                // A closed row of walls at `y`, with one hole.
                let y = below(rng, y1 + 1, y2);
                let hole = below(rng, x1, x2);
                let ghost mr = maze;
                for x in x1..x2
                    invariant
                        maze.width() == w,
                        maze.height() == h,
                        y1 < y < y2 <= h,
                        x2 <= w,
                        started && w >= 2 && h >= 2 ==> maze.interior(cw) && !maze.stored(cw),
                        !inside((x1, y1, x2, y2), cw) || !started,
                        forall|xx: usize| x1 <= xx < x ==> #[trigger] maze.stored((xx as int, (y - 1) as int, false))
                            == (xx == hole),
                        forall|wall: Wall| !(!wall.2 && wall.1 == y - 1 && x1 <= wall.0 < x) ==> #[trigger] maze.stored(wall) == mr.stored(wall),
                {
                    let ghost m0 = maze;
                    maze.set_open(Dir::Up, (x, y), x == hole);
                    assert(Maze::wall(Dir::Up, (x, y)) == (x as int, (y - 1) as int, false));
                    assert forall|xx: usize| x1 <= xx < x implies #[trigger] maze.stored((xx as int, (y - 1) as int, false))
                        == m0.stored((xx as int, (y - 1) as int, false)) by {}
                }
                proof {
                    assert forall|i: int| 0 <= i < rects@.len() implies open_inside(&mr, #[trigger] rects@[i])
                        && disjoint(rects@[i], (x1, y1, x2, y2)) by {
                        assert(rects@[i] == before[i]);
                        assert(disjoint(before[i], before[before.len() - 1]));
                    }
                    lemma_split_down(&mr, &maze, (x1, y1, x2, y2), y, hole, rects@);
                    let f = |i: int| (i, (y - 1) as int, false);
                    let line = lemma_line(x1 as int, x2 as int, hole as int, f);
                    assert forall|wall: Wall| line.contains(wall) implies !closed.contains(wall) by {
                        let i = choose|i: int| x1 <= i < x2 && i != hole && #[trigger] f(i) == wall;
                        assert(inside((x1, y1, x2, y2), wall));
                    }
                    assert(line.disjoint(closed));
                    vstd::set_lib::lemma_set_disjoint_lens(line, closed);
                    assert forall|wall: Wall| #[trigger] (line + closed).contains(wall) <==> maze.interior(wall) && !maze.stored(wall) by {
                        assert((line + closed).contains(wall) == (line.contains(wall) || closed.contains(wall)));
                        assert(closed.contains(wall) <==> mr.interior(wall) && !mr.stored(wall));
                        assert(maze.interior(wall) == mr.interior(wall));
                        if !wall.2 && wall.1 == y - 1 && x1 <= wall.0 < x2 {
                            assert(inside((x1, y1, x2, y2), wall));
                            let xx = wall.0 as usize;
                            assert(maze.stored((xx as int, (y - 1) as int, false)) == (xx == hole));
                            if xx != hole {
                                assert(f(wall.0) == wall);
                            } else {
                                assert(!line.contains(wall)) by {
                                    if line.contains(wall) {
                                        let i = choose|i: int| x1 <= i < x2 && i != hole && #[trigger] f(i) == wall;
                                    }
                                }
                            }
                        } else {
                            assert(maze.stored(wall) == mr.stored(wall));
                            assert(!line.contains(wall)) by {
                                if line.contains(wall) {
                                    let i = choose|i: int| x1 <= i < x2 && i != hole && #[trigger] f(i) == wall;
                                }
                            }
                        }
                    }
                    closed = line + closed;
                    assert(excess((x1, y, x2, y2)) + excess((x1, y1, x2, y)) + (x2 - x1 - 1) == excess((x1, y1, x2, y2)))
                        by (nonlinear_arith);
                }
                let ghost others = rects@;
                rects.push((x1, y, x2, y2));
                rects.push((x1, y1, x2, y));
                proof {
                    assert forall|i: int| 0 <= i < rects@.len() implies open_inside(&maze, #[trigger] rects@[i]) by {
                        if i < others.len() {
                            assert(rects@[i] == others[i]);
                        }
                    }
                    assert forall|i: int, j: int| 0 <= i < j < rects@.len() implies disjoint(#[trigger] rects@[i], #[trigger] rects@[j]) by {
                        if j < others.len() {
                            assert(rects@[i] == before[i] && rects@[j] == before[j]);
                        } else if i < others.len() {
                            assert(rects@[i] == before[i]);
                            assert(disjoint(before[i], before[before.len() - 1]));
                        }
                    }
                    if !started {
                        let xx: usize = if hole == x1 { (x1 + 1) as usize } else { x1 };
                        assert(maze.stored((xx as int, (y - 1) as int, false)) == (xx == hole));
                        cw = (xx as int, (y - 1) as int, false);
                        started = true;
                    }
                    assert((x2 - x1) * (y2 - y) + (x2 - x1) * (y - y1) == (x2 - x1) * (y2 - y1))
                        by (nonlinear_arith);
                    lemma_pending_push(before.drop_last(), (x1, y, x2, y2));
                    lemma_pending_push(before.drop_last().push((x1, y, x2, y2)), (x1, y1, x2, y));
                    lemma_pending_push(before.drop_last(), (x1, y1, x2, y2));
                    lemma_excess_push(others, rects@[others.len() as int]);
                    lemma_excess_push(others.push(rects@[others.len() as int]), rects@[others.len() + 1int]);
                    assert(rects@ =~= others.push(rects@[others.len() as int]).push(rects@[others.len() + 1int]));
                    assert(before.drop_last().push((x1, y1, x2, y2)) =~= before);
                }
            }
        }
        proof {
            if w > 0 && h > 0 {
                let iw = lemma_interior_walls(&maze);
                let ws = iw.difference(closed);
                assert(closed.subset_of(iw));
                vstd::set_lib::lemma_len_difference(iw, closed);
                assert(ws.disjoint(closed));
                vstd::set_lib::lemma_set_disjoint_lens(ws, closed);
                assert(ws + closed =~= iw);
                assert(closed.len() == (w - 1) * (h - 1));
                assert((w - 1) * h + w * (h - 1) - (w - 1) * (h - 1) == w * h - 1) by (nonlinear_arith);
                assert(passages_are(&maze, ws));
            }
        }
        maze
    }
}

} // verus!
