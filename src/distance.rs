//! Distances through the maze: a breadth-first search from several centers at
//! once, which gives every reachable cell the center that reaches it first and
//! its distance from it, counted in steps through open walls.
use vstd::prelude::*;
use vstd::set_lib::{lemma_int_range, lemma_len_subset, set_int_range};
use std::collections::VecDeque;
use rand::rngs::StdRng;
use crate::maze::{Dir, Maze, Pos, index_of, lemma_edge_symmetry, lemma_index_of};
use crate::rng::below;

verus! {

/// The region that marks a cell no center has reached yet, while searching.
pub const UNREACHED: usize = usize::MAX;

/// The `(region, distance)` pair of cell `p`, in a field listed in row-major order.
pub open spec fn at(f: Seq<(usize, usize)>, m: &Maze, p: Pos) -> (usize, usize) {
    f[index_of(m.height() as int, p)]
}

spec fn reached(f: Seq<(usize, usize)>, m: &Maze, p: Pos) -> bool {
    at(f, m, p).0 != UNREACHED
}

/// The open neighbour of `p` in direction `d`.
pub open spec fn next(m: &Maze, d: Dir, p: Pos) -> Pos {
    m.step(d, p)->0
}

/// A reached cell has a valid region; at distance zero it is that region's
/// center, further out it has an open neighbour one step closer in the same region.
spec fn settled(m: &Maze, centers: Seq<Pos>, f: Seq<(usize, usize)>, p: Pos) -> bool {
    let (id, d) = at(f, m, p);
    &&& id < centers.len()
    &&& d == 0 ==> centers[id as int] == p
    &&& d > 0 ==> exists|dir: Dir|
        m.open(dir, p) && #[trigger] at(f, m, next(m, dir, p)) == (id, (d - 1) as usize)
}

/// Across each open wall of a reached cell, the neighbour is reached, and at
/// most one step further from its center.
spec fn bounded(m: &Maze, f: Seq<(usize, usize)>, p: Pos) -> bool {
    forall|dir: Dir| #[trigger] m.open(dir, p) ==> {
        &&& reached(f, m, next(m, dir, p))
        &&& at(f, m, next(m, dir, p)).1 <= at(f, m, p).1 + 1
    }
}

/// What the search has computed once its queue is empty: unreached cells
/// hold `(UNREACHED, 0)`; every center is reached at distance zero, under the
/// first index at which it is listed; reached cells are settled and bounded.
spec fn search_result(m: &Maze, centers: Seq<Pos>, f: Seq<(usize, usize)>) -> bool {
    &&& f.len() == m.width() * m.height()
    &&& forall|p: Pos| m.in_bounds(p) && !reached(f, m, p) ==> #[trigger] at(f, m, p) == (UNREACHED, 0usize)
    &&& forall|p: Pos| m.in_bounds(p) && reached(f, m, p) ==> #[trigger] settled(m, centers, f, p)
    &&& forall|p: Pos| m.in_bounds(p) && reached(f, m, p) ==> #[trigger] bounded(m, f, p)
    &&& forall|i: int| 0 <= i < centers.len() ==> #[trigger] at(f, m, centers[i]).1 == 0
        && reached(f, m, centers[i]) && first_of(centers, centers[i], at(f, m, centers[i]).0)
}

/// `j` is the first index at which `p` is listed among the centers.
pub open spec fn first_of(centers: Seq<Pos>, p: Pos, j: usize) -> bool {
    &&& j < centers.len()
    &&& centers[j as int] == p
    &&& forall|k: int| 0 <= k < j ==> #[trigger] centers[k] != p
}

/// Cell `p` of the set `reach` has a valid region; at distance zero it is
/// that region's center, further out it has an open neighbour in `reach` one
/// step closer, in the same region.
pub open spec fn settled_in(m: &Maze, centers: Seq<Pos>, f: Seq<(usize, usize)>, reach: Set<Pos>, p: Pos) -> bool {
    let (id, d) = at(f, m, p);
    &&& id < centers.len()
    &&& d == 0 ==> centers[id as int] == p
    &&& d > 0 ==> exists|dir: Dir|
        m.open(dir, p) && reach.contains(next(m, dir, p)) && #[trigger] at(f, m, next(m, dir, p)) == (id, (d - 1) as usize)
}

/// Across each open wall of `p`, the neighbour is in `reach`, at most one
/// step further from its center.
pub open spec fn bounded_in(m: &Maze, f: Seq<(usize, usize)>, reach: Set<Pos>, p: Pos) -> bool {
    forall|dir: Dir| #[trigger] m.open(dir, p) ==> {
        &&& reach.contains(next(m, dir, p))
        &&& at(f, m, next(m, dir, p)).1 <= at(f, m, p).1 + 1
    }
}

/// A distance field of `m` from `centers`, where `reach` is the set of cells
/// that some center reaches through open walls: one pair per cell; cells out
/// of `reach` hold `(0, 0)`; every center is in `reach` at distance zero,
/// under the first index at which it is listed; every cell of `reach` is
/// settled and bounded.
pub open spec fn is_distance_field(m: &Maze, centers: Seq<Pos>, f: Seq<(usize, usize)>, reach: Set<Pos>) -> bool {
    &&& f.len() == m.width() * m.height()
    &&& forall|p: Pos| #[trigger] reach.contains(p) ==> m.in_bounds(p)
    &&& forall|p: Pos| m.in_bounds(p) && !reach.contains(p) ==> #[trigger] at(f, m, p) == (0usize, 0usize)
    &&& forall|p: Pos| reach.contains(p) ==> #[trigger] settled_in(m, centers, f, reach, p)
    &&& forall|p: Pos| reach.contains(p) ==> #[trigger] bounded_in(m, f, reach, p)
    &&& forall|i: int| 0 <= i < centers.len() ==> reach.contains(#[trigger] centers[i])
        && at(f, m, centers[i]).1 == 0 && first_of(centers, centers[i], at(f, m, centers[i]).0)
}

/// A queued visit: cell, region, distance.
pub type Visit = (Pos, usize, usize);

/// The state of the search: the field so far and the queue of visits.
pub type Search = (Seq<(usize, usize)>, Seq<Visit>);

/// One step of the search: take the first visit; if its cell is not reached
/// yet, give it the visit's region and distance and queue its open
/// neighbours one step further out, in the order right, down, left, up.
pub open spec fn search_step(m: &Maze, st: Search) -> Search {
    if st.1.len() == 0 {
        st
    } else {
        let (pos, id, dist) = st.1[0];
        let rest = st.1.subrange(1, st.1.len() as int);
        if at(st.0, m, pos).0 != UNREACHED {
            (st.0, rest)
        } else {
            (st.0.update(index_of(m.height() as int, pos), (id, dist)), rest + offers(m, pos, id, dist))
        }
    }
}

/// `k` steps of the search.
pub open spec fn search_run(m: &Maze, st: Search, k: nat) -> Search
    decreases k,
{
    if k == 0 {
        st
    } else {
        search_step(m, search_run(m, st, (k - 1) as nat))
    }
}

/// Nothing reached, and every center queued in order at distance zero
/// under its own index.
pub open spec fn search_start(m: &Maze, centers: Seq<Pos>) -> Search {
    (
        Seq::new((m.width() * m.height()) as nat, |i: int| (UNREACHED, 0usize)),
        Seq::new(centers.len(), |i: int| (centers[i], i as usize, 0usize)),
    )
}

/// `f` is what the first-in first-out search from `centers` hands out once its
/// queue is empty: the first visit to reach a cell decides its pair.
pub open spec fn searched_field(m: &Maze, centers: Seq<Pos>, f: Seq<(usize, usize)>) -> bool {
    exists|k: nat| {
        &&& #[trigger] search_run(m, search_start(m, centers), k).1.len() == 0
        &&& f == search_run(m, search_start(m, centers), k).0.map_values(|e: (usize, usize)| publish(e))
    }
}

spec fn visit_ok(m: &Maze, centers: Seq<Pos>, f: Seq<(usize, usize)>, v: Visit) -> bool {
    &&& m.in_bounds(v.0)
    &&& v.1 < centers.len()
    &&& v.2 == 0 ==> centers[v.1 as int] == v.0
    &&& v.2 > 0 ==> exists|dir: Dir|
        m.open(dir, v.0) && #[trigger] at(f, m, next(m, dir, v.0)) == (v.1, (v.2 - 1) as usize)
}

/// Across an open wall of reached `p`, the neighbour is reached at most one
/// step further out, or a visit to it one step further out is queued.
spec fn covered(m: &Maze, f: Seq<(usize, usize)>, q: Seq<Visit>, p: Pos, dir: Dir) -> bool {
    let p2 = next(m, dir, p);
    ||| reached(f, m, p2) && at(f, m, p2).1 <= at(f, m, p).1 + 1
    ||| exists|i: int| 0 <= i < q.len() && #[trigger] q[i] == (p2, at(f, m, p).0, (at(f, m, p).1 + 1) as usize)
}

proof fn lemma_update_at(m: &Maze, f: Seq<(usize, usize)>, p: Pos, v: (usize, usize))
    requires
        m.in_bounds(p),
        f.len() == m.width() * m.height(),
    ensures
        forall|q: Pos| m.in_bounds(q) ==> #[trigger] at(f.update(index_of(m.height() as int, p), v), m, q)
            == if q == p { v } else { at(f, m, q) },
{
    assert forall|q: Pos| m.in_bounds(q) implies #[trigger] at(f.update(index_of(m.height() as int, p), v), m, q)
        == if q == p { v } else { at(f, m, q) } by {
        lemma_index_of(m.width() as int, m.height() as int, p, q);
        lemma_index_of(m.width() as int, m.height() as int, q, q);
    }
}

/// The visits queued from `pos` at distance `dist`: one across each open
/// wall, in the order right, down, left, up.
pub open spec fn offer_one(m: &Maze, dir: Dir, pos: Pos, id: usize, dist: usize) -> Seq<Visit> {
    if m.open(dir, pos) {
        seq![(next(m, dir, pos), id, (dist + 1) as usize)]
    } else {
        Seq::empty()
    }
}

pub open spec fn offers(m: &Maze, pos: Pos, id: usize, dist: usize) -> Seq<Visit> {
    offer_one(m, Dir::Right, pos, id, dist) + offer_one(m, Dir::Down, pos, id, dist)
        + offer_one(m, Dir::Left, pos, id, dist) + offer_one(m, Dir::Up, pos, id, dist)
}

proof fn lemma_offers(m: &Maze, pos: Pos, id: usize, dist: usize)
    requires
        dist < usize::MAX,
    ensures
        forall|i: int| 0 <= i < offers(m, pos, id, dist).len() ==> #[trigger] offers(m, pos, id, dist)[i].1 == id
            && offers(m, pos, id, dist)[i].2 == dist + 1,
        forall|i: int| 0 <= i < offers(m, pos, id, dist).len() ==> exists|dir: Dir|
            m.open(dir, pos) && #[trigger] offers(m, pos, id, dist)[i] == (next(m, dir, pos), id, (dist + 1) as usize),
        forall|dir: Dir| #[trigger] m.open(dir, pos) ==> exists|i: int|
            0 <= i < offers(m, pos, id, dist).len() && offers(m, pos, id, dist)[i] == (next(m, dir, pos), id, (dist + 1) as usize),
{
    let a = offer_one(m, Dir::Right, pos, id, dist);
    let b = offer_one(m, Dir::Down, pos, id, dist);
    let c = offer_one(m, Dir::Left, pos, id, dist);
    let d = offer_one(m, Dir::Up, pos, id, dist);
    let s = offers(m, pos, id, dist);
    assert(s =~= a + b + c + d);
    assert forall|i: int| 0 <= i < s.len() implies exists|dir: Dir|
        m.open(dir, pos) && #[trigger] s[i] == (next(m, dir, pos), id, (dist + 1) as usize) by {
        if i < a.len() {
            assert(s[i] == a[i]);
        } else if i < a.len() + b.len() {
            assert(s[i] == b[i - a.len()]);
        } else if i < a.len() + b.len() + c.len() {
            assert(s[i] == c[i - a.len() - b.len()]);
        } else {
            assert(s[i] == d[i - a.len() - b.len() - c.len()]);
        }
    }
    assert forall|i: int| 0 <= i < s.len() implies #[trigger] s[i].1 == id && s[i].2 == dist + 1 by {
        if i < a.len() {
            assert(s[i] == a[i]);
        } else if i < a.len() + b.len() {
            assert(s[i] == b[i - a.len()]);
        } else if i < a.len() + b.len() + c.len() {
            assert(s[i] == c[i - a.len() - b.len()]);
        } else {
            assert(s[i] == d[i - a.len() - b.len() - c.len()]);
        }
    }
    assert forall|dir: Dir| #[trigger] m.open(dir, pos) implies exists|i: int|
        0 <= i < s.len() && s[i] == (next(m, dir, pos), id, (dist + 1) as usize) by {
        match dir {
            Dir::Right => assert(s[0] == a[0]),
            Dir::Down => assert(s[a.len() as int] == b[0]),
            Dir::Left => assert(s[(a.len() + b.len()) as int] == c[0]),
            Dir::Up => assert(s[(a.len() + b.len() + c.len()) as int] == d[0]),
        }
    }
}

/// Queues a visit one step further out across the wall of `pos` in
/// direction `dir`, if that wall is open.
fn offer(maze: &Maze, queue: &mut VecDeque<Visit>, dir: Dir, pos: Pos, id: usize, dist: usize)
    requires
        maze.in_bounds(pos),
        dist < usize::MAX,
    ensures
        final(queue)@ == old(queue)@ + offer_one(maze, dir, pos, id, dist),
{
    if maze.is_open(dir, pos) {
        let pos2 = maze.shift(dir, pos).unwrap();
        queue.push_back((pos2, id, dist + 1));
    }
    assert(final(queue)@ =~= old(queue)@ + offer_one(maze, dir, pos, id, dist));
}

/// The field's shape, the set `done` of reached indices, and the sentinel on
/// every cell not reached.
#[verifier::opaque]
spec fn inv_basic(m: &Maze, centers: Seq<Pos>, f: Seq<(usize, usize)>, done: Set<int>) -> bool {
    &&& centers.len() <= usize::MAX
    &&& m.width() * m.height() <= usize::MAX
    &&& f.len() == m.width() * m.height()
    &&& done.finite()
    &&& done.len() <= m.width() * m.height()
    &&& forall|i: int| 0 <= i < centers.len() ==> m.in_bounds(#[trigger] centers[i])
    &&& forall|p: Pos| m.in_bounds(p) ==> (reached(f, m, p) <==> #[trigger] done.contains(index_of(m.height() as int, p)))
    &&& forall|p: Pos| m.in_bounds(p) && !reached(f, m, p) ==> #[trigger] at(f, m, p) == (UNREACHED, 0usize)
}

#[verifier::opaque]
spec fn inv_settled(m: &Maze, centers: Seq<Pos>, f: Seq<(usize, usize)>) -> bool {
    forall|p: Pos| m.in_bounds(p) && reached(f, m, p) ==> #[trigger] settled(m, centers, f, p)
}

/// Queued visits are sound, ordered by distance with a spread of at most one,
/// and no closer than any reached cell.
#[verifier::opaque]
spec fn inv_queue(m: &Maze, centers: Seq<Pos>, f: Seq<(usize, usize)>, q: Seq<Visit>, done: Set<int>) -> bool {
    &&& forall|i: int| 0 <= i < q.len() ==> #[trigger] visit_ok(m, centers, f, q[i])
    &&& forall|i: int, j: int| 0 <= i <= j < q.len() ==> #[trigger] q[i].2 <= #[trigger] q[j].2
    &&& q.len() > 0 ==> q[q.len() - 1].2 <= q[0].2 + 1
    &&& forall|i: int| 0 <= i < q.len() ==> #[trigger] q[i].2 <= done.len()
    &&& forall|p: Pos, i: int| m.in_bounds(p) && reached(f, m, p) && 0 <= i < q.len()
        ==> #[trigger] at(f, m, p).1 <= #[trigger] q[i].2
}

#[verifier::opaque]
spec fn inv_cover(m: &Maze, f: Seq<(usize, usize)>, q: Seq<Visit>) -> bool {
    forall|p: Pos, dir: Dir| m.in_bounds(p) && reached(f, m, p) && #[trigger] m.open(dir, p)
        ==> covered(m, f, q, p, dir)
}

/// Every center is reached at distance zero, or a visit to it at distance
/// zero is queued.
#[verifier::opaque]
spec fn inv_centers(m: &Maze, centers: Seq<Pos>, f: Seq<(usize, usize)>, q: Seq<Visit>) -> bool {
    &&& forall|i: int| 0 <= i < centers.len() ==> reached(f, m, #[trigger] centers[i])
        || exists|j: int| 0 <= j < q.len() && #[trigger] q[j] == (centers[i], q[j].1, 0usize)
    &&& forall|i: int| 0 <= i < centers.len() && reached(f, m, #[trigger] centers[i])
        ==> at(f, m, centers[i]).1 == 0
}

/// What holds between two steps of the search, with `done` the indices of
/// the reached cells.
spec fn search_inv(m: &Maze, centers: Seq<Pos>, f: Seq<(usize, usize)>, q: Seq<Visit>, done: Set<int>) -> bool {
    &&& inv_basic(m, centers, f, done)
    &&& inv_settled(m, centers, f)
    &&& inv_queue(m, centers, f, q, done)
    &&& inv_cover(m, f, q)
    &&& inv_centers(m, centers, f, q)
}

/// A visit to a cell already reached changes nothing but the queue.
proof fn lemma_skip(m: &Maze, centers: Seq<Pos>, f: Seq<(usize, usize)>, q0: Seq<Visit>, done: Set<int>)
    requires
        search_inv(m, centers, f, q0, done),
        q0.len() > 0,
        reached(f, m, q0[0].0),
    ensures
        search_inv(m, centers, f, q0.subrange(1, q0.len() as int), done),
{
    reveal(inv_queue);
    reveal(inv_cover);
    reveal(inv_centers);
    let q = q0.subrange(1, q0.len() as int);
    let pos = q0[0].0;
    assert(visit_ok(m, centers, f, q0[0]));
    assert forall|i: int| 0 <= i < q.len() implies #[trigger] visit_ok(m, centers, f, q[i]) by {
        assert(q[i] == q0[i + 1]);
    }
    assert forall|i: int, j: int| 0 <= i <= j < q.len() implies #[trigger] q[i].2 <= #[trigger] q[j].2 by {
        assert(q[i] == q0[i + 1] && q[j] == q0[j + 1]);
    }
    assert forall|p: Pos, dir: Dir| m.in_bounds(p) && reached(f, m, p) && #[trigger] m.open(dir, p)
        implies covered(m, f, q, p, dir) by {
        assert(covered(m, f, q0, p, dir));
        let p2 = next(m, dir, p);
        if !(reached(f, m, p2) && at(f, m, p2).1 <= at(f, m, p).1 + 1) {
            let i = choose|i: int| 0 <= i < q0.len() && #[trigger] q0[i] == (p2, at(f, m, p).0, (at(f, m, p).1 + 1) as usize);
            if i == 0 {
                assert(at(f, m, pos).1 <= q0[0].2);
            } else {
                assert(q[i - 1] == q0[i]);
            }
        }
    }
    assert forall|i: int| 0 <= i < centers.len() implies reached(f, m, #[trigger] centers[i])
        || exists|j: int| 0 <= j < q.len() && #[trigger] q[j] == (centers[i], q[j].1, 0usize) by {
        if !reached(f, m, centers[i]) {
            let j = choose|j: int| 0 <= j < q0.len() && #[trigger] q0[j] == (centers[i], q0[j].1, 0usize);
            assert(q[j - 1] == q0[j]);
        }
    }
    assert forall|p: Pos, i: int| m.in_bounds(p) && reached(f, m, p) && 0 <= i < q.len()
        implies #[trigger] at(f, m, p).1 <= #[trigger] q[i].2 by {
        assert(q[i] == q0[i + 1]);
    }
    assert forall|i: int| 0 <= i < q.len() implies #[trigger] q[i].2 <= done.len() by {
        assert(q[i] == q0[i + 1]);
    }
    if q.len() > 0 {
        assert(q[q.len() - 1] == q0[q0.len() - 1]);
        assert(q[0] == q0[1]);
    }
}

/// The first queued visit is to a cell of the grid, at a distance below the
/// number of cells.
proof fn lemma_front(m: &Maze, centers: Seq<Pos>, f: Seq<(usize, usize)>, q: Seq<Visit>, done: Set<int>)
    requires
        search_inv(m, centers, f, q, done),
        q.len() > 0,
    ensures
        m.in_bounds(q[0].0),
        q[0].2 <= done.len(),
        done.len() <= m.width() * m.height(),
        f.len() == m.width() * m.height(),
        !reached(f, m, q[0].0) ==> !done.contains(index_of(m.height() as int, q[0].0)),
{
    reveal(inv_basic);
    reveal(inv_queue);
    assert(visit_ok(m, centers, f, q[0]));
}

/// The field once the first queued visit reaches its cell.
spec fn f_after(m: &Maze, f0: Seq<(usize, usize)>, q0: Seq<Visit>) -> Seq<(usize, usize)> {
    f0.update(index_of(m.height() as int, q0[0].0), (q0[0].1, q0[0].2))
}

/// The queue once the first visit is taken and its open neighbours are queued.
spec fn q_after(m: &Maze, q0: Seq<Visit>) -> Seq<Visit> {
    q0.subrange(1, q0.len() as int) + offers(m, q0[0].0, q0[0].1, q0[0].2)
}

/// Facts shared by the steps of the proof that settling keeps the invariant.
proof fn lemma_settle_frame(m: &Maze, centers: Seq<Pos>, f0: Seq<(usize, usize)>, q0: Seq<Visit>, done: Set<int>)
    requires
        search_inv(m, centers, f0, q0, done),
        q0.len() > 0,
        !reached(f0, m, q0[0].0),
        done.len() < m.width() * m.height(),
    ensures
        visit_ok(m, centers, f0, q0[0]),
        q0[0].2 <= done.len(),
        q0[0].2 < usize::MAX,
        centers.len() <= usize::MAX,
        forall|i: int| 0 <= i < centers.len() ==> m.in_bounds(#[trigger] centers[i]),
        forall|i: int| 0 <= i < q0.len() ==> #[trigger] visit_ok(m, centers, f0, q0[i]),
        !done.contains(index_of(m.height() as int, q0[0].0)),
        done.insert(index_of(m.height() as int, q0[0].0)).len() == done.len() + 1,
        at(f_after(m, f0, q0), m, q0[0].0) == (q0[0].1, q0[0].2),
        reached(f_after(m, f0, q0), m, q0[0].0),
        forall|p: Pos| m.in_bounds(p) && p != q0[0].0 ==> #[trigger] at(f_after(m, f0, q0), m, p) == at(f0, m, p),
        forall|i: int| 0 <= i < q0.len() - 1 ==> #[trigger] q_after(m, q0)[i] == q0[i + 1],
        forall|i: int| q0.len() - 1 <= i < q_after(m, q0).len() ==> #[trigger] q_after(m, q0)[i]
            == offers(m, q0[0].0, q0[0].1, q0[0].2)[i - (q0.len() - 1)],
        q_after(m, q0).len() == q0.len() - 1 + offers(m, q0[0].0, q0[0].1, q0[0].2).len(),
{
    reveal(inv_basic);
    reveal(inv_queue);
    assert(visit_ok(m, centers, f0, q0[0]));
    lemma_update_at(m, f0, q0[0].0, (q0[0].1, q0[0].2));
    lemma_index_of(m.width() as int, m.height() as int, q0[0].0, q0[0].0);
}

proof fn lemma_settle_basic(m: &Maze, centers: Seq<Pos>, f0: Seq<(usize, usize)>, q0: Seq<Visit>, done: Set<int>)
    requires
        search_inv(m, centers, f0, q0, done),
        q0.len() > 0,
        !reached(f0, m, q0[0].0),
        done.len() < m.width() * m.height(),
    ensures
        inv_basic(m, centers, f_after(m, f0, q0), done.insert(index_of(m.height() as int, q0[0].0))),
        done.insert(index_of(m.height() as int, q0[0].0)).len() == done.len() + 1,
        inv_settled(m, centers, f_after(m, f0, q0)),
{
    reveal(inv_basic);
    reveal(inv_settled);
    lemma_settle_frame(m, centers, f0, q0, done);
    let (pos, id, dist) = q0[0];
    let k = index_of(m.height() as int, pos);
    let f1 = f_after(m, f0, q0);
    let done1 = done.insert(k);
    lemma_index_of(m.width() as int, m.height() as int, pos, pos);
    assert(!done.contains(k));
    assert forall|p: Pos| m.in_bounds(p) implies (reached(f1, m, p) <==> #[trigger] done1.contains(index_of(m.height() as int, p))) by {
        lemma_index_of(m.width() as int, m.height() as int, p, pos);
    }
    assert forall|p: Pos| m.in_bounds(p) && reached(f1, m, p) implies #[trigger] settled(m, centers, f1, p) by {
        if p == pos {
            if dist > 0 {
                let dir = choose|dir: Dir| m.open(dir, pos) && #[trigger] at(f0, m, next(m, dir, pos)) == (id, (dist - 1) as usize);
                assert(at(f1, m, next(m, dir, pos)) == (id, (dist - 1) as usize));
            }
        } else {
            assert(settled(m, centers, f0, p));
            let (pid, pd) = at(f0, m, p);
            if pd > 0 {
                let dir = choose|dir: Dir| m.open(dir, p) && #[trigger] at(f0, m, next(m, dir, p)) == (pid, (pd - 1) as usize);
                assert(at(f1, m, next(m, dir, p)) == (pid, (pd - 1) as usize));
            }
        }
    }
}

proof fn lemma_settle_visits_old(m: &Maze, centers: Seq<Pos>, f0: Seq<(usize, usize)>, q0: Seq<Visit>, done: Set<int>)
    requires
        search_inv(m, centers, f0, q0, done),
        q0.len() > 0,
        !reached(f0, m, q0[0].0),
        done.len() < m.width() * m.height(),
    ensures
        forall|i: int| 0 <= i < q0.len() - 1 ==> #[trigger] visit_ok(m, centers, f_after(m, f0, q0), q_after(m, q0)[i]),
{
    lemma_settle_frame(m, centers, f0, q0, done);
    let (pos, id, dist) = q0[0];
    let f1 = f_after(m, f0, q0);
    let q1 = q_after(m, q0);
    let ext = offers(m, pos, id, dist);
    let na = q0.len() - 1;
    let done1 = done.insert(index_of(m.height() as int, pos));
    lemma_index_of(m.width() as int, m.height() as int, pos, pos);
    assert(done1.len() == done.len() + 1);
    assert forall|i: int| 0 <= i < na implies #[trigger] visit_ok(m, centers, f1, q1[i]) by {
        assert(q1[i] == q0[i + 1]);
        assert(visit_ok(m, centers, f0, q0[i + 1]));
        let v = q1[i];
        if v.2 > 0 {
            let dir = choose|dir: Dir| m.open(dir, v.0) && #[trigger] at(f0, m, next(m, dir, v.0)) == (v.1, (v.2 - 1) as usize);
            assert(at(f1, m, next(m, dir, v.0)) == (v.1, (v.2 - 1) as usize));
        }
    }
}

proof fn lemma_settle_visits_new(m: &Maze, centers: Seq<Pos>, f1: Seq<(usize, usize)>, pos: Pos, id: usize, dist: usize)
    requires
        m.in_bounds(pos),
        at(f1, m, pos) == (id, dist),
        id < centers.len(),
        dist < usize::MAX,
    ensures
        forall|i: int| 0 <= i < offers(m, pos, id, dist).len()
            ==> #[trigger] visit_ok(m, centers, f1, offers(m, pos, id, dist)[i]),
{
    let ext = offers(m, pos, id, dist);
    lemma_offers(m, pos, id, dist);
    assert forall|i: int| 0 <= i < ext.len() implies #[trigger] visit_ok(m, centers, f1, ext[i]) by {
        let dir = choose|dir: Dir| m.open(dir, pos) && #[trigger] ext[i] == (next(m, dir, pos), id, (dist + 1) as usize);
        lemma_offer_visit(m, centers, f1, pos, id, dist, dir);
    }
}

proof fn lemma_offer_visit(m: &Maze, centers: Seq<Pos>, f1: Seq<(usize, usize)>, pos: Pos, id: usize, dist: usize, dir: Dir)
    requires
        m.in_bounds(pos),
        at(f1, m, pos) == (id, dist),
        id < centers.len(),
        dist < usize::MAX,
        m.open(dir, pos),
    ensures
        visit_ok(m, centers, f1, (next(m, dir, pos), id, (dist + 1) as usize)),
{
    lemma_edge_symmetry(m, dir, pos);
    let back = dir.opposite_spec();
    let p2 = next(m, dir, pos);
    assert(next(m, back, p2) == pos);
    assert(m.open(back, p2));
    assert(at(f1, m, next(m, back, p2)) == (id, dist));
    let v: Visit = (p2, id, (dist + 1) as usize);
    assert(v.2 > 0);
    assert((v.2 - 1) as usize == dist);
    assert(m.in_bounds(v.0));
    assert(m.open(back, v.0) && at(f1, m, next(m, back, v.0)) == (v.1, (v.2 - 1) as usize));
}

proof fn lemma_settle_queue(m: &Maze, centers: Seq<Pos>, f0: Seq<(usize, usize)>, q0: Seq<Visit>, done: Set<int>)
    requires
        search_inv(m, centers, f0, q0, done),
        q0.len() > 0,
        !reached(f0, m, q0[0].0),
        done.len() < m.width() * m.height(),
    ensures
        inv_queue(m, centers, f_after(m, f0, q0), q_after(m, q0), done.insert(index_of(m.height() as int, q0[0].0))),
{
    reveal(inv_queue);
    lemma_settle_frame(m, centers, f0, q0, done);
    let (pos, id, dist) = q0[0];
    let f1 = f_after(m, f0, q0);
    let q1 = q_after(m, q0);
    let ext = offers(m, pos, id, dist);
    let na = q0.len() - 1;
    let done1 = done.insert(index_of(m.height() as int, pos));
    lemma_index_of(m.width() as int, m.height() as int, pos, pos);
    assert(done1.len() == done.len() + 1);
    lemma_offers(m, pos, id, dist);
    lemma_settle_visits_old(m, centers, f0, q0, done);
    lemma_settle_visits_new(m, centers, f1, pos, id, dist);
    assert forall|i: int| 0 <= i < q1.len() implies #[trigger] visit_ok(m, centers, f1, q1[i]) by {
        if i >= na {
            assert(q1[i] == ext[i - na]);
        }
    }
    assert forall|i: int, j: int| 0 <= i <= j < q1.len() implies #[trigger] q1[i].2 <= #[trigger] q1[j].2 by {
        if j < na {
            assert(q0[i + 1].2 <= q0[j + 1].2);
        } else if i < na {
            assert(ext[j - na].2 == dist + 1);
            assert(q0[i + 1].2 <= q0[q0.len() - 1].2);
        } else {
            assert(ext[j - na].2 == dist + 1);
            assert(ext[i - na].2 == dist + 1);
        }
    }
    if q1.len() > 0 {
        if na > 0 {
            assert(q0[0].2 <= q0[1].2);
            if ext.len() == 0 {
                assert(q1[q1.len() - 1] == q0[q0.len() - 1]);
            } else {
                assert(ext[ext.len() - 1].2 == dist + 1);
            }
        } else {
            assert(ext[ext.len() - 1].2 == dist + 1);
            assert(ext[0].2 == dist + 1);
        }
    }
    assert forall|i: int| 0 <= i < q1.len() implies #[trigger] q1[i].2 <= done1.len() by {
        if i < na {
            assert(q0[i + 1].2 <= done.len());
        } else {
            assert(ext[i - na].2 == dist + 1);
        }
    }
    assert forall|p: Pos, i: int| m.in_bounds(p) && reached(f1, m, p) && 0 <= i < q1.len()
        implies #[trigger] at(f1, m, p).1 <= #[trigger] q1[i].2 by {
        if i < na {
            assert(q0[0].2 <= q0[i + 1].2);
            if p != pos {
                assert(at(f0, m, p).1 <= q0[i + 1].2);
            }
        } else {
            assert(ext[i - na].2 == dist + 1);
            if p != pos {
                assert(at(f0, m, p).1 <= q0[0].2);
            }
        }
    }
}

proof fn lemma_settle_cover(m: &Maze, centers: Seq<Pos>, f0: Seq<(usize, usize)>, q0: Seq<Visit>, done: Set<int>)
    requires
        search_inv(m, centers, f0, q0, done),
        q0.len() > 0,
        !reached(f0, m, q0[0].0),
        done.len() < m.width() * m.height(),
    ensures
        inv_cover(m, f_after(m, f0, q0), q_after(m, q0)),
        inv_centers(m, centers, f_after(m, f0, q0), q_after(m, q0)),
{
    reveal(inv_cover);
    reveal(inv_centers);
    reveal(inv_queue);
    lemma_settle_frame(m, centers, f0, q0, done);
    let (pos, id, dist) = q0[0];
    let f1 = f_after(m, f0, q0);
    let q1 = q_after(m, q0);
    let ext = offers(m, pos, id, dist);
    let na = q0.len() - 1;
    lemma_offers(m, pos, id, dist);
    assert forall|p: Pos, dir: Dir| m.in_bounds(p) && reached(f1, m, p) && #[trigger] m.open(dir, p)
        implies covered(m, f1, q1, p, dir) by {
        let p2 = next(m, dir, p);
        if p == pos {
            let i = choose|i: int| 0 <= i < ext.len() && ext[i] == (next(m, dir, pos), id, (dist + 1) as usize);
            assert(q1[na + i] == ext[i]);
        } else {
            assert(covered(m, f0, q0, p, dir));
            if reached(f0, m, p2) && at(f0, m, p2).1 <= at(f0, m, p).1 + 1 {
                assert(p2 != pos);
            } else {
                let i = choose|i: int| 0 <= i < q0.len() && #[trigger] q0[i] == (p2, at(f0, m, p).0, (at(f0, m, p).1 + 1) as usize);
                if i > 0 {
                    assert(q1[i - 1] == q0[i]);
                }
            }
        }
    }
    assert forall|i: int| 0 <= i < centers.len() implies reached(f1, m, #[trigger] centers[i])
        || exists|j: int| 0 <= j < q1.len() && #[trigger] q1[j] == (centers[i], q1[j].1, 0usize) by {
        if !reached(f1, m, centers[i]) {
            assert(centers[i] != pos);
            let j = choose|j: int| 0 <= j < q0.len() && #[trigger] q0[j] == (centers[i], q0[j].1, 0usize);
            assert(q1[j - 1] == q0[j]);
        }
    }
    assert forall|i: int| 0 <= i < centers.len() && reached(f1, m, #[trigger] centers[i])
        implies at(f1, m, centers[i]).1 == 0 by {
        if centers[i] == pos {
            let j = choose|j: int| 0 <= j < q0.len() && #[trigger] q0[j] == (centers[i], q0[j].1, 0usize);
            assert(q0[0].2 <= q0[j].2);
        }
    }
}

/// The visits at distance zero are the centers not yet taken, `k` onwards,
/// in order at the front of the queue; the centers before `k` are reached,
/// and every reached center holds the first index at which it is listed.
#[verifier::opaque]
spec fn inv_order(m: &Maze, centers: Seq<Pos>, f: Seq<(usize, usize)>, q: Seq<Visit>, k: nat) -> bool {
    &&& k <= centers.len()
    &&& q.len() >= centers.len() - k
    &&& forall|i: int| 0 <= i < centers.len() - k ==> #[trigger] q[i] == (centers[k + i], (k + i) as usize, 0usize)
    &&& forall|i: int| 0 <= i < q.len() && #[trigger] q[i].2 == 0 ==> i < centers.len() - k
    &&& forall|j: int| 0 <= j < k ==> reached(f, m, #[trigger] centers[j])
    &&& forall|i: int| 0 <= i < centers.len() && reached(f, m, #[trigger] centers[i])
        ==> first_of(centers, centers[i], at(f, m, centers[i]).0)
}

/// Taking the first visit keeps the order of the centers.
proof fn lemma_order_step(m: &Maze, centers: Seq<Pos>, f0: Seq<(usize, usize)>, q0: Seq<Visit>, done: Set<int>, k: nat)
    requires
        search_inv(m, centers, f0, q0, done),
        inv_order(m, centers, f0, q0, k),
        q0.len() > 0,
    ensures
        ({
            let k1 = if k < centers.len() { k + 1 } else { k };
            &&& reached(f0, m, q0[0].0) ==> inv_order(m, centers, f0, q0.subrange(1, q0.len() as int), k1)
            &&& !reached(f0, m, q0[0].0) && done.len() < m.width() * m.height()
                ==> inv_order(m, centers, f_after(m, f0, q0), q_after(m, q0), k1)
        }),
{
    reveal(inv_order);
    let k1: nat = if k < centers.len() { k + 1 } else { k };
    let n = centers.len();
    if k < n {
        assert(q0[0] == (centers[k as int], k as usize, 0usize));
    }
    if reached(f0, m, q0[0].0) {
        let q = q0.subrange(1, q0.len() as int);
        assert forall|i: int| 0 <= i < n - k1 implies #[trigger] q[i] == (centers[k1 + i], (k1 + i) as usize, 0usize) by {
            assert(q[i] == q0[i + 1]);
        }
        assert forall|i: int| 0 <= i < q.len() && #[trigger] q[i].2 == 0 implies i < n - k1 by {
            assert(q[i] == q0[i + 1]);
        }
    } else if done.len() < m.width() * m.height() {
        lemma_settle_frame(m, centers, f0, q0, done);
        let (pos, id, dist) = q0[0];
        let f1 = f_after(m, f0, q0);
        let q1 = q_after(m, q0);
        let na = q0.len() - 1;
        lemma_offers(m, pos, id, dist);
        assert forall|i: int| 0 <= i < n - k1 implies #[trigger] q1[i] == (centers[k1 + i], (k1 + i) as usize, 0usize) by {
            assert(q1[i] == q0[i + 1]);
        }
        assert forall|i: int| 0 <= i < q1.len() && #[trigger] q1[i].2 == 0 implies i < n - k1 by {
            if i < na {
                assert(q1[i] == q0[i + 1]);
            } else {
                assert(q1[i] == offers(m, pos, id, dist)[i - na]);
            }
        }
        assert forall|j: int| 0 <= j < k1 implies reached(f1, m, #[trigger] centers[j]) by {
            if j < k {
                assert(reached(f0, m, centers[j]));
            }
        }
        assert forall|i: int| 0 <= i < n && reached(f1, m, #[trigger] centers[i])
            implies first_of(centers, centers[i], at(f1, m, centers[i]).0) by {
            if centers[i] == pos {
                reveal(inv_centers);
                reveal(inv_queue);
                let j = choose|j: int| 0 <= j < q0.len() && #[trigger] q0[j] == (centers[i], q0[j].1, 0usize);
                assert(q0[0].2 <= q0[j].2);
                assert(k < n);
                assert forall|l: int| 0 <= l < k implies #[trigger] centers[l] != pos by {
                    assert(reached(f0, m, centers[l]));
                }
            } else {
                assert(reached(f0, m, centers[i]));
            }
        }
    }
}

proof fn lemma_start_order(m: &Maze, centers: Seq<Pos>, f: Seq<(usize, usize)>, q: Seq<Visit>)
    requires
        f.len() == m.width() * m.height(),
        forall|k: int| 0 <= k < f.len() ==> #[trigger] f[k] == (UNREACHED, 0usize),
        forall|i: int| 0 <= i < centers.len() ==> m.in_bounds(#[trigger] centers[i]),
        q.len() == centers.len(),
        forall|i: int| 0 <= i < centers.len() ==> #[trigger] q[i] == (centers[i], i as usize, 0usize),
    ensures
        inv_order(m, centers, f, q, 0),
{
    reveal(inv_order);
    assert forall|i: int| 0 <= i < centers.len() implies !reached(f, m, #[trigger] centers[i]) by {
        lemma_index_of(m.width() as int, m.height() as int, centers[i], centers[i]);
    }
    assert forall|i: int| 0 <= i < centers.len() - 0 implies #[trigger] q[i] == (centers[0 + i], (0 + i) as usize, 0usize) by {}
}

/// Before the search: nothing reached, every center queued at distance zero.
proof fn lemma_start(m: &Maze, centers: Seq<Pos>, f: Seq<(usize, usize)>, q: Seq<Visit>)
    requires
        centers.len() <= usize::MAX,
        m.width() * m.height() <= usize::MAX,
        f.len() == m.width() * m.height(),
        forall|k: int| 0 <= k < f.len() ==> #[trigger] f[k] == (UNREACHED, 0usize),
        forall|i: int| 0 <= i < centers.len() ==> m.in_bounds(#[trigger] centers[i]),
        q.len() == centers.len(),
        forall|i: int| 0 <= i < centers.len() ==> #[trigger] q[i] == (centers[i], i as usize, 0usize),
    ensures
        search_inv(m, centers, f, q, Set::empty()),
        inv_order(m, centers, f, q, 0),
{
    lemma_start_order(m, centers, f, q);
    reveal(inv_basic);
    reveal(inv_settled);
    reveal(inv_queue);
    reveal(inv_cover);
    reveal(inv_centers);
    assert forall|p: Pos| m.in_bounds(p) implies #[trigger] at(f, m, p) == (UNREACHED, 0usize) by {
        lemma_index_of(m.width() as int, m.height() as int, p, p);
    }
    assert forall|i: int| 0 <= i < q.len() implies #[trigger] visit_ok(m, centers, f, q[i]) by {}
    assert forall|i: int| 0 <= i < centers.len() implies reached(f, m, #[trigger] centers[i])
        || exists|j: int| 0 <= j < q.len() && #[trigger] q[j] == (centers[i], q[j].1, 0usize) by {
        assert(q[i] == (centers[i], q[i].1, 0usize));
    }
}

/// With the queue empty, the invariant is the contract.
proof fn lemma_finish(m: &Maze, centers: Seq<Pos>, f: Seq<(usize, usize)>, q: Seq<Visit>, done: Set<int>, k: nat)
    requires
        search_inv(m, centers, f, q, done),
        inv_order(m, centers, f, q, k),
        q.len() == 0,
    ensures
        search_result(m, centers, f),
{
    reveal(inv_order);
    reveal(inv_basic);
    reveal(inv_settled);
    reveal(inv_cover);
    reveal(inv_centers);
    assert forall|p: Pos| m.in_bounds(p) && reached(f, m, p) implies #[trigger] bounded(m, f, p) by {
        assert forall|dir: Dir| #[trigger] m.open(dir, p) implies reached(f, m, next(m, dir, p))
            && at(f, m, next(m, dir, p)).1 <= at(f, m, p).1 + 1 by {
            assert(covered(m, f, q, p, dir));
        }
    }
}

/// Multi-source breadth-first search over the open walls of `maze`.
///
/// The centers are queued in order, all at distance zero; the queue is
/// first-in first-out across all centers, and the first visit to reach a cell
/// decides its region and distance.
pub fn distance(maze: &Maze, centers: &Vec<Pos>) -> (r: Vec<(usize, usize)>)
    requires
        forall|i: int| 0 <= i < centers@.len() ==> maze.in_bounds(#[trigger] centers@[i]),
    ensures
        exists|reach: Set<Pos>| #[trigger] is_distance_field(maze, centers@, r@, reach),
        searched_field(maze, centers@, r@),
{
    let n = maze.cell_count();
    let ghost h = maze.height() as int;
    let ghost all = set_int_range(0, n as int);
    proof {
        lemma_int_range(0, n as int);
    }
    let mut out: Vec<(usize, usize)> = Vec::new();
    for i in 0..n
        invariant
            out@.len() == i,
            forall|k: int| 0 <= k < i ==> #[trigger] out@[k] == (UNREACHED, 0usize),
    {
        out.push((UNREACHED, 0));
    }
    let ghost mut done: Set<int> = Set::empty();

    let mut queue: VecDeque<Visit> = VecDeque::new();
    for id in 0..centers.len()
        invariant
            forall|i: int| 0 <= i < centers@.len() ==> maze.in_bounds(#[trigger] centers@[i]),
            queue@.len() == id,
            forall|i: int| 0 <= i < id ==> #[trigger] queue@[i] == (centers@[i], i as usize, 0usize),
    {
        queue.push_back((centers[id], id, 0));
    }
    let nc = centers.len();
    proof {
        lemma_start(maze, centers@, out@, queue@);
    }
    let ghost mut taken: nat = 0;
    let ghost start = search_start(maze, centers@);
    let ghost mut steps: nat = 0;
    proof {
        assert(out@ =~= start.0);
        assert(queue@ =~= start.1);
    }
    loop
        invariant
            n == maze.width() * maze.height(),
            h == maze.height(),
            all == set_int_range(0, n as int),
            all.finite(),
            all.len() == n,
            done.subset_of(all),
            search_inv(maze, centers@, out@, queue@, done),
            inv_order(maze, centers@, out@, queue@, taken),
            start == search_start(maze, centers@),
            (out@, queue@) == search_run(maze, start, steps),
        ensures
            queue@.len() == 0,
        decreases 4 * (n - done.len()) + queue@.len(),
    {
        let ghost q0 = queue@;
        let ghost out0 = out@;
        let (pos, id, dist) = match queue.pop_front() {
            None => break,
            Some(v) => v,
        };
        proof {
            lemma_front(maze, centers@, out@, q0, done);
        }
        let k = maze.index(pos);
        if out[k].0 != UNREACHED {
            proof {
                assert(search_run(maze, start, steps + 1) == search_step(maze, search_run(maze, start, steps)));
                steps = steps + 1;
                lemma_skip(maze, centers@, out@, q0, done);
                lemma_order_step(maze, centers@, out@, q0, done, taken);
                if taken < centers@.len() {
                    taken = taken + 1;
                }
            }
            continue;
        }
        proof {
            lemma_index_of(maze.width() as int, h, pos, pos);
            lemma_len_subset(done.insert(k as int), all);
            lemma_order_step(maze, centers@, out@, q0, done, taken);
            if taken < centers@.len() {
                taken = taken + 1;
            }
            lemma_settle_basic(maze, centers@, out@, q0, done);
            lemma_settle_queue(maze, centers@, out@, q0, done);
            lemma_settle_cover(maze, centers@, out@, q0, done);
        }
        out.set(k, (id, dist));
        proof {
            done = done.insert(k as int);
        }
        let ghost qa = queue@;
        offer(maze, &mut queue, Dir::Right, pos, id, dist);
        offer(maze, &mut queue, Dir::Down, pos, id, dist);
        offer(maze, &mut queue, Dir::Left, pos, id, dist);
        offer(maze, &mut queue, Dir::Up, pos, id, dist);
        assert(queue@ =~= qa + offers(maze, pos, id, dist));
        proof {
            assert(search_run(maze, start, steps + 1) == search_step(maze, search_run(maze, start, steps)));
            steps = steps + 1;
        }
    }
    proof {
        lemma_finish(maze, centers@, out@, queue@, done, taken);
    }
    // Cells that no center reached keep the default pair.
    let ghost searched = out@;
    for i in 0..n
        invariant
            out@.len() == n,
            searched.len() == n,
            forall|j: int| 0 <= j < n ==> #[trigger] out@[j] == if j < i { publish(searched[j]) } else { searched[j] },
    {
        if out[i].0 == UNREACHED {
            out.set(i, (0, 0));
        }
    }
    proof {
        lemma_publish(maze, centers@, searched, out@);
        assert(out@ =~= search_run(maze, start, steps).0.map_values(|e: (usize, usize)| publish(e)));
        assert(search_run(maze, start, steps).1.len() == 0);
    }
    out
}

/// A pair as handed out: the search's mark for unreached cells becomes `(0, 0)`.
pub open spec fn publish(e: (usize, usize)) -> (usize, usize) {
    if e.0 == UNREACHED { (0usize, 0usize) } else { e }
}

proof fn lemma_publish(m: &Maze, centers: Seq<Pos>, f: Seq<(usize, usize)>, g: Seq<(usize, usize)>)
    requires
        search_result(m, centers, f),
        forall|i: int| 0 <= i < centers.len() ==> m.in_bounds(#[trigger] centers[i]),
        g.len() == f.len(),
        forall|j: int| 0 <= j < f.len() ==> #[trigger] g[j] == publish(f[j]),
    ensures
        exists|reach: Set<Pos>| #[trigger] is_distance_field(m, centers, g, reach),
{
    let reach = Set::new(|p: Pos| m.in_bounds(p) && reached(f, m, p));
    assert forall|p: Pos| m.in_bounds(p) implies #[trigger] at(g, m, p) == publish(at(f, m, p)) by {
        lemma_index_of(m.width() as int, m.height() as int, p, p);
    }
    assert forall|p: Pos| reach.contains(p) implies #[trigger] settled_in(m, centers, g, reach, p) by {
        assert(settled(m, centers, f, p));
        let (id, d) = at(f, m, p);
        if d > 0 {
            let dir = choose|dir: Dir| m.open(dir, p) && #[trigger] at(f, m, next(m, dir, p)) == (id, (d - 1) as usize);
            lemma_edge_symmetry(m, dir, p);
            assert(at(g, m, next(m, dir, p)) == (id, (d - 1) as usize));
        }
    }
    assert forall|p: Pos| reach.contains(p) implies #[trigger] bounded_in(m, g, reach, p) by {
        assert(bounded(m, f, p));
        assert forall|dir: Dir| #[trigger] m.open(dir, p) implies reach.contains(next(m, dir, p))
            && at(g, m, next(m, dir, p)).1 <= at(g, m, p).1 + 1 by {
            lemma_edge_symmetry(m, dir, p);
        }
    }
    assert forall|p: Pos| m.in_bounds(p) && !reach.contains(p) implies #[trigger] at(g, m, p) == (0usize, 0usize) by {
        assert(at(f, m, p) == (UNREACHED, 0usize));
    }
    assert forall|i: int| 0 <= i < centers.len() implies reach.contains(#[trigger] centers[i])
        && at(g, m, centers[i]).1 == 0 && first_of(centers, centers[i], at(g, m, centers[i]).0) by {
        assert(at(f, m, centers[i]).1 == 0 && reached(f, m, centers[i]));
        assert(m.in_bounds(centers[i]));
        assert(at(g, m, centers[i]) == at(f, m, centers[i]));
    }
    assert(is_distance_field(m, centers, g, reach));
}

/// In a distance field, a center is at distance zero, and every other
/// reached cell is one step further out than the nearest of its open
/// neighbours: one of them is a step closer and none is closer still.
pub proof fn lemma_distance_one_past_nearest(m: &Maze, centers: Seq<Pos>, f: Seq<(usize, usize)>, reach: Set<Pos>, p: Pos)
    requires
        is_distance_field(m, centers, f, reach),
        reach.contains(p),
    ensures
        centers.contains(p) ==> at(f, m, p).1 == 0,
        !centers.contains(p) ==> {
            &&& at(f, m, p).1 > 0
            &&& exists|dir: Dir| #[trigger] m.open(dir, p) && at(f, m, next(m, dir, p)).1 + 1 == at(f, m, p).1
            &&& forall|dir: Dir| #[trigger] m.open(dir, p) ==> at(f, m, next(m, dir, p)).1 + 1 >= at(f, m, p).1
        },
{
    assert(settled_in(m, centers, f, reach, p));
    assert(m.in_bounds(p));
    if centers.contains(p) {
        let i = choose|i: int| 0 <= i < centers.len() && centers[i] == p;
        assert(at(f, m, centers[i]).1 == 0);
    } else {
        let (id, d) = at(f, m, p);
        if d == 0 {
            assert(centers[id as int] == p);
            assert(centers.contains(p));
        }
        assert(bounded_in(m, f, reach, p));
        assert forall|dir: Dir| #[trigger] m.open(dir, p) implies at(f, m, next(m, dir, p)).1 + 1 >= at(f, m, p).1 by {
            let q = next(m, dir, p);
            lemma_edge_symmetry(m, dir, p);
            assert(reach.contains(q));
            assert(bounded_in(m, f, reach, q));
            assert(m.open(dir.opposite_spec(), q));
            assert(next(m, dir.opposite_spec(), q) == p);
        }
    }
}

/// `n` centers, each a cell of the grid drawn at random.
pub fn pick_centers(rng: &mut StdRng, maze: &Maze, n: usize) -> (r: Vec<Pos>)
    requires
        n > 0 ==> maze.width() > 0 && maze.height() > 0,
    ensures
        r@.len() == n,
        forall|i: int| 0 <= i < r@.len() ==> maze.in_bounds(#[trigger] r@[i]),
{
    let mut centers: Vec<Pos> = Vec::new();
    for i in 0..n
        invariant
            n > 0 ==> maze.width() > 0 && maze.height() > 0,
            centers@.len() == i,
            forall|j: int| 0 <= j < centers@.len() ==> maze.in_bounds(#[trigger] centers@[j]),
    {
        let x = below(rng, 0, maze.w());
        let y = below(rng, 0, maze.h());
        centers.push((x, y));
    }
    centers
}

/// The largest distance in a field, or zero for an empty one.
pub fn max_distance(field: &Vec<(usize, usize)>) -> (r: usize)
    ensures
        forall|i: int| 0 <= i < field@.len() ==> #[trigger] field@[i].1 <= r,
        field@.len() == 0 ==> r == 0,
        field@.len() > 0 ==> exists|i: int| 0 <= i < field@.len() && #[trigger] field@[i].1 == r,
{
    let mut best: usize = 0;
    for i in 0..field.len()
        invariant
            forall|j: int| 0 <= j < i ==> #[trigger] field@[j].1 <= best,
            i == 0 ==> best == 0,
            i > 0 ==> exists|j: int| 0 <= j < i && #[trigger] field@[j].1 == best,
    {
        if field[i].1 > best || i == 0 {
            best = field[i].1;
        }
    }
    best
}

proof fn lemma_run_settles(m: &Maze, st: Search, k: nat, j: nat)
    requires
        search_run(m, st, k).1.len() == 0,
    ensures
        search_run(m, st, k + j) == search_run(m, st, k),
    decreases j,
{
    if j > 0 {
        lemma_run_settles(m, st, k, (j - 1) as nat);
        assert(search_run(m, st, k + j) == search_step(m, search_run(m, st, (k + j - 1) as nat)));
    }
}

/// The search hands out one field for a given maze and list of centers: its
/// result depends on nothing else.
pub proof fn lemma_search_deterministic(m: &Maze, centers: Seq<Pos>, f: Seq<(usize, usize)>, g: Seq<(usize, usize)>)
    requires
        searched_field(m, centers, f),
        searched_field(m, centers, g),
    ensures
        f == g,
{
    let st = search_start(m, centers);
    let k1 = choose|k: nat| #[trigger] search_run(m, st, k).1.len() == 0
        && f == search_run(m, st, k).0.map_values(|e: (usize, usize)| publish(e));
    let k2 = choose|k: nat| #[trigger] search_run(m, st, k).1.len() == 0
        && g == search_run(m, st, k).0.map_values(|e: (usize, usize)| publish(e));
    if k1 <= k2 {
        lemma_run_settles(m, st, k1, (k2 - k1) as nat);
    } else {
        lemma_run_settles(m, st, k2, (k1 - k2) as nat);
    }
}

} // verus!
