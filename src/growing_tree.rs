//! The growing-tree family: a frontier of visited cells is expanded one cell at
//! a time, carving into unvisited neighbours. Which cell the frontier hands out
//! next decides the character of the maze.
use vstd::prelude::*;
use vstd::set_lib::{lemma_int_range, lemma_len_subset, set_int_range};
use rand::rngs::StdRng;
use crate::maze::{connected, lemma_perfect_or_empty_connected, passages_are, Wall, Dir, Generator, Maze, Pos, Size, index_of, is_perfect, lemma_edge_symmetry, lemma_index_of, lemma_open_more, lemma_wall_ends, rooted_tree};
use crate::rng::{below, chance, draw_seed, draw_u32, seeded, shuffle};

verus! {

/// How long a straight corridor runs: after each step the carving turns with
/// probability `den / num`, that is one in `num / den`.
pub struct Turn {
    num: u32,
    den: u32,
}

impl Turn {
    #[verifier::type_invariant]
    spec fn proper(self) -> bool {
        0 < self.den <= self.num
    }

    pub closed spec fn num_spec(self) -> u32 {
        self.num
    }

    pub closed spec fn den_spec(self) -> u32 {
        self.den
    }

    /// The turn `num / den`, which must be at least one.
    pub fn ratio(num: u32, den: u32) -> (r: Option<Turn>)
        ensures
            r is Some <==> 0 < den <= num,
            r matches Some(t) ==> t.num_spec() == num && t.den_spec() == den,
    {
        if 0 < den && den <= num {
            Some(Turn { num, den })
        } else {
            None
        }
    }

    /// Turn after every step.
    pub fn always() -> (r: Turn)
        ensures
            r.num_spec() == 1 && r.den_spec() == 1,
    {
        Turn { num: 1, den: 1 }
    }

    /// Whether the corridor turns now.
    fn turns(&self, rng: &mut StdRng) -> bool {
        proof {
            use_type_invariant(self);
        }
        chance(rng, self.den, self.num)
    }
}

/// Some weighed entry is for cell `p`.
pub open spec fn listed(s: Seq<(u32, Pos)>, p: Pos) -> bool {
    exists|i: int| 0 <= i < s.len() && #[trigger] s[i].1 == p
}

/// `p` is the cell of an entry of least weight.
pub open spec fn lightest(s: Seq<(u32, Pos)>, p: Pos) -> bool {
    exists|i: int| 0 <= i < s.len() && #[trigger] s[i].1 == p && forall|j: int| 0 <= j < s.len() ==> s[i].0 <= #[trigger] s[j].0
}

/// The frontier of the growing tree, with its policy for handing out cells.
pub enum Frontier {
    /// Last in, first out: a depth-first search.
    Stack(Vec<Pos>),
    /// The cell of least weight first, each cell weighed once up front; the
    /// weights are listed in the grid's row-major order.
    Lightest { weighed: Vec<(u32, Pos)>, weights: Vec<u32> },
    /// Each new cell swaps places with a random one, then last out first; the
    /// swaps draw from a stream of their own.
    Swapped { items: Vec<Pos>, rng: StdRng },
}

impl Frontier {
    pub open spec fn count(&self) -> nat {
        match self {
            Frontier::Stack(v) => v@.len(),
            Frontier::Lightest { weighed, .. } => weighed@.len(),
            Frontier::Swapped { items, .. } => items@.len(),
        }
    }

    /// Every cell held lies on a `w x h` grid.
    pub open spec fn within(&self, w: usize, h: usize) -> bool {
        match self {
            Frontier::Stack(v) => forall|i: int| 0 <= i < v@.len() ==> #[trigger] v@[i].0 < w && v@[i].1 < h,
            Frontier::Lightest { weighed, .. } => forall|i: int|
                0 <= i < weighed@.len() ==> #[trigger] weighed@[i].1.0 < w && weighed@[i].1.1 < h,
            Frontier::Swapped { items, .. } => forall|i: int|
                0 <= i < items@.len() ==> #[trigger] items@[i].0 < w && items@[i].1 < h,
        }
    }

    /// There is a weight for each of `n` cells, where weights are used.
    pub open spec fn weighs(&self, n: nat) -> bool {
        match self {
            Frontier::Lightest { weights, .. } => weights@.len() == n,
            _ => true,
        }
    }

    /// Whether cell `p` waits in the frontier.
    pub open spec fn holds(&self, p: Pos) -> bool {
        match self {
            Frontier::Stack(v) => v@.contains(p),
            Frontier::Lightest { weighed, .. } => listed(weighed@, p),
            Frontier::Swapped { items, .. } => items@.contains(p),
        }
    }

    /// Adds cell `p`, whose row-major index is `k`.
    fn push(&mut self, p: Pos, k: usize, Ghost(w): Ghost<usize>, Ghost(h): Ghost<usize>, Ghost(n): Ghost<nat>)
        requires
            old(self).within(w, h),
            old(self).weighs(n),
            p.0 < w && p.1 < h,
            k < n,
        ensures
            final(self).count() == old(self).count() + 1,
            final(self).within(w, h),
            final(self).weighs(n),
            final(self).holds(p),
            forall|q: Pos| old(self).holds(q) ==> #[trigger] final(self).holds(q),
            forall|q: Pos| #[trigger] final(self).holds(q) ==> old(self).holds(q) || q == p,
    {
        match self {
            Frontier::Stack(v) => {
                let ghost before = v@;
                v.push(p);
                assert(v@[v@.len() - 1] == p);
                assert forall|q: Pos| before.contains(q) implies #[trigger] v@.contains(q) by {
                    let i = choose|i: int| 0 <= i < before.len() && before[i] == q;
                    assert(v@[i] == q);
                }
            },
            Frontier::Lightest { weighed, weights } => {
                let ghost before = weighed@;
                weighed.push((weights[k], p));
                assert(weighed@[weighed@.len() - 1].1 == p);
                assert forall|q: Pos| #[trigger] listed(before, q) implies listed(weighed@, q) by {
                    let i = choose|i: int| 0 <= i < before.len() && #[trigger] before[i].1 == q;
                    assert(weighed@[i].1 == q);
                }
            },
            Frontier::Swapped { items, rng } => {
                let ghost before = items@;
                items.push(p);
                let l = items.len();
                let j = below(rng, 0, l);
                let a = items[j];
                let b = items[l - 1];
                let ghost mid = items@;
                items.set(j, b);
                items.set(l - 1, a);
                assert(items@[j as int] == p);
                assert forall|q: Pos| before.contains(q) implies #[trigger] items@.contains(q) by {
                    let i = choose|i: int| 0 <= i < before.len() && before[i] == q;
                    if i == j {
                        assert(items@[l - 1] == q);
                    } else {
                        assert(items@[i] == q);
                    }
                }
            },
        }
    }

    /// Takes out the next cell, if any.
    fn pop(&mut self, Ghost(w): Ghost<usize>, Ghost(h): Ghost<usize>, Ghost(n): Ghost<nat>) -> (r: Option<Pos>)
        requires
            old(self).within(w, h),
            old(self).weighs(n),
        ensures
            r is None <==> old(self).count() == 0,
            r is Some ==> final(self).count() == old(self).count() - 1,
            r matches Some(p) ==> p.0 < w && p.1 < h,
            final(self).within(w, h),
            final(self).weighs(n),
            r is None ==> forall|q: Pos| !#[trigger] final(self).holds(q),
            r is None ==> forall|q: Pos| !#[trigger] old(self).holds(q),
            r matches Some(x) ==> forall|q: Pos| old(self).holds(q) && q != x ==> #[trigger] final(self).holds(q),
            r matches Some(x) ==> old(self).holds(x),
            r matches Some(x) ==> match *old(self) {
                Frontier::Stack(v) => x == v@.last(),
                Frontier::Lightest { weighed, .. } => lightest(weighed@, x),
                Frontier::Swapped { items, .. } => x == items@.last(),
            },
            forall|q: Pos| #[trigger] final(self).holds(q) ==> old(self).holds(q),
    {
        match self {
            Frontier::Stack(v) => {
                let ghost before = v@;
                let r = v.pop();
                proof {
                    if before.len() > 0 {
                        assert(before[before.len() - 1].0 < w);
                        assert forall|i: int| 0 <= i < v@.len() implies #[trigger] v@[i].0 < w && v@[i].1 < h by {
                            assert(v@[i] == before[i]);
                        }
                        assert forall|q: Pos| before.contains(q) && q != before[before.len() - 1] implies #[trigger] v@.contains(q) by {
                            let i = choose|i: int| 0 <= i < before.len() && before[i] == q;
                            assert(v@[i] == q);
                        }
                    }
                }
                r
            },
            Frontier::Lightest { weighed, .. } => {
                if weighed.len() == 0 {
                    assert forall|q: Pos| !#[trigger] listed(weighed@, q) by {}
                    return None;
                }
                let mut best: usize = 0;
                for i in 1..weighed.len()
                    invariant
                        best < i <= weighed@.len(),
                        forall|j: int| 0 <= j < i ==> weighed@[best as int].0 <= #[trigger] weighed@[j].0,
                {
                    if weighed[i].0 < weighed[best].0 {
                        best = i;
                    }
                }
                let ghost before = weighed@;
                assert(before[best as int].1 == before[best as int].1);
                let (_, p) = weighed.swap_remove(best);
                assert(before[best as int].1.0 < w);
                assert forall|q: Pos| #[trigger] listed(before, q) && q != p implies listed(weighed@, q) by {
                    let i = choose|i: int| 0 <= i < before.len() && #[trigger] before[i].1 == q;
                    if i == before.len() - 1 {
                        assert(weighed@[best as int].1 == q);
                    } else {
                        assert(weighed@[i].1 == q);
                    }
                }
                Some(p)
            },
            Frontier::Swapped { items, .. } => {
                let ghost before = items@;
                let r = items.pop();
                proof {
                    if before.len() > 0 {
                        assert(before[before.len() - 1].0 < w);
                        assert forall|q: Pos| before.contains(q) && q != before[before.len() - 1] implies #[trigger] items@.contains(q) by {
                            let i = choose|i: int| 0 <= i < before.len() && before[i] == q;
                            assert(items@[i] == q);
                        }
                    }
                }
                r
            },
        }
    }
}

/// Whether cell `p` has been visited, by the row-major flags `seen`.
pub open spec fn vis(seen: Seq<bool>, h: int, p: Pos) -> bool {
    seen[index_of(h, p)]
}

/// Every neighbour of `p` has been visited.
pub open spec fn closed_at(m: &Maze, seen: Seq<bool>, p: Pos) -> bool {
    forall|d: Dir| #[trigger] m.step(d, p) is Some ==> vis(seen, m.height() as int, m.step(d, p)->0)
}

/// A set of cells that holds `from` and the neighbours of each of its cells
/// holds every cell.
proof fn lemma_walk(m: &Maze, seen: Seq<bool>, from: Pos, to: Pos)
    requires
        m.in_bounds(from),
        m.in_bounds(to),
        vis(seen, m.height() as int, from),
        forall|p: Pos| m.in_bounds(p) && vis(seen, m.height() as int, p) ==> #[trigger] closed_at(m, seen, p),
    ensures
        vis(seen, m.height() as int, to),
    decreases
        (if from.0 < to.0 { to.0 - from.0 } else { from.0 - to.0 })
            + (if from.1 < to.1 { to.1 - from.1 } else { from.1 - to.1 }),
{
    if from != to {
        assert(closed_at(m, seen, from));
        let d = if from.0 < to.0 {
            Dir::Right
        } else if from.0 > to.0 {
            Dir::Left
        } else if from.1 < to.1 {
            Dir::Down
        } else {
            Dir::Up
        };
        assert(m.step(d, from) is Some);
        lemma_walk(m, seen, m.step(d, from)->0, to);
    }
}

/// Marking one more cell visited keeps every closed cell closed.
proof fn lemma_closed_grows(m0: &Maze, m1: &Maze, seen: Seq<bool>, dest: Pos)
    requires
        seen.len() == m0.width() * m0.height(),
        m0.in_bounds(dest),
        m1.width() == m0.width(),
        m1.height() == m0.height(),
    ensures
        forall|p: Pos| m0.in_bounds(p) && closed_at(m0, seen, p)
            ==> #[trigger] closed_at(m1, seen.update(index_of(m0.height() as int, dest), true), p),
{
    lemma_mark(m0, seen, dest);
    assert forall|p: Pos| m0.in_bounds(p) && closed_at(m0, seen, p)
        implies #[trigger] closed_at(m1, seen.update(index_of(m0.height() as int, dest), true), p) by {
        assert forall|d: Dir| #[trigger] m1.step(d, p) is Some implies
            vis(seen.update(index_of(m0.height() as int, dest), true), m1.height() as int, m1.step(d, p)->0) by {
            assert(m0.step(d, p) is Some);
            lemma_edge_symmetry(m0, d, p);
        }
    }
}

/// Marking `dest` visited marks nothing else.
proof fn lemma_mark(m: &Maze, seen: Seq<bool>, dest: Pos)
    requires
        seen.len() == m.width() * m.height(),
        m.in_bounds(dest),
    ensures
        forall|p: Pos| m.in_bounds(p) ==> #[trigger] vis(seen.update(index_of(m.height() as int, dest), true), m.height() as int, p)
            == (p == dest || vis(seen, m.height() as int, p)),
{
    assert forall|p: Pos| m.in_bounds(p) implies #[trigger] vis(seen.update(index_of(m.height() as int, dest), true), m.height() as int, p)
        == (p == dest || vis(seen, m.height() as int, p)) by {
        lemma_index_of(m.width() as int, m.height() as int, p, dest);
        lemma_index_of(m.width() as int, m.height() as int, dest, dest);
        let j = index_of(m.height() as int, p);
        let k = index_of(m.height() as int, dest);
        assert(0 <= j < seen.len() && 0 <= k < seen.len());
        if p == dest {
            assert(j == k);
        } else {
            assert(j != k);
            assert(seen.update(k, true)[j] == seen[j]);
        }
    }
}

/// The tree grown so far: unvisited cells have no open wall; each visited
/// cell but the start has an open wall to its parent, visited before it; and
/// every open wall links a cell to its parent.
#[verifier::opaque]
pub open spec fn tree_so_far(m: &Maze, seen: Seq<bool>, start: Pos, up: Map<Pos, Dir>, rank: Map<Pos, nat>, t: nat) -> bool {
    let h = m.height() as int;
    &&& m.in_bounds(start)
    &&& vis(seen, h, start)
    &&& forall|p: Pos, d: Dir| m.in_bounds(p) && !vis(seen, h, p) ==> !#[trigger] m.open(d, p)
    &&& forall|p: Pos| #[trigger] m.in_bounds(p) && vis(seen, h, p) ==> rank[p] <= t
    &&& forall|p: Pos| #[trigger] m.in_bounds(p) && vis(seen, h, p) && p != start ==> {
        &&& m.open(up[p], p)
        &&& rank[m.step(up[p], p)->0] < rank[p]
    }
    &&& forall|p: Pos, d: Dir| m.in_bounds(p) && #[trigger] m.open(d, p) ==> {
        ||| p != start && d == up[p]
        ||| m.step(d, p)->0 != start && up[m.step(d, p)->0] == d.opposite_spec()
    }
}

proof fn lemma_tree_start(m: &Maze, seen: Seq<bool>, start: Pos)
    requires
        m.in_bounds(start),
        seen.len() == m.width() * m.height(),
        forall|p: Pos| m.in_bounds(p) ==> (#[trigger] vis(seen, m.height() as int, p) <==> p == start),
        forall|d: Dir, p: Pos| m.in_bounds(p) ==> !#[trigger] m.open(d, p),
    ensures
        tree_so_far(m, seen, start, Map::empty(), Map::empty().insert(start, 0nat), 0),
{
    reveal(tree_so_far);
}

proof fn lemma_tree_carve(
    m0: &Maze,
    m1: &Maze,
    seen: Seq<bool>,
    start: Pos,
    up: Map<Pos, Dir>,
    rank: Map<Pos, nat>,
    t: nat,
    cur: Pos,
    dir: Dir,
)
    requires
        tree_so_far(m0, seen, start, up, rank, t),
        seen.len() == m0.width() * m0.height(),
        m0.in_bounds(cur),
        vis(seen, m0.height() as int, cur),
        m0.step(dir, cur) is Some,
        !vis(seen, m0.height() as int, m0.step(dir, cur)->0),
        m0.same_but(m1, Maze::wall(dir, cur)),
        m1.stored(Maze::wall(dir, cur)),
    ensures
        ({
            let dest = m0.step(dir, cur)->0;
            tree_so_far(
                m1,
                seen.update(index_of(m0.height() as int, dest), true),
                start,
                up.insert(dest, dir.opposite_spec()),
                rank.insert(dest, t + 1),
                t + 1,
            )
        }),
{
    reveal(tree_so_far);
    let h = m0.height() as int;
    let dest = m0.step(dir, cur)->0;
    let seen1 = seen.update(index_of(h, dest), true);
    let up1 = up.insert(dest, dir.opposite_spec());
    let rank1 = rank.insert(dest, t + 1);
    let wall = Maze::wall(dir, cur);
    lemma_edge_symmetry(m0, dir, cur);
    lemma_mark(m0, seen, dest);
    lemma_open_more(m0, m1, wall);
    assert(m1.open(dir, cur));
    assert(m1.open(dir.opposite_spec(), dest));
    // Cells with an open wall in `m0` were visited, so are not `dest`.
    assert forall|p: Pos, d: Dir| m0.in_bounds(p) && m0.open(d, p) implies vis(seen, h, p)
        && vis(seen, h, m0.step(d, p)->0) && p != dest && m0.step(d, p)->0 != dest by {
        lemma_edge_symmetry(m0, d, p);
        assert(m0.open(d.opposite_spec(), m0.step(d, p)->0));
    }
    assert forall|p: Pos, d: Dir| m1.in_bounds(p) && !vis(seen1, h, p) implies !#[trigger] m1.open(d, p) by {
        if m0.step(d, p) is Some && Maze::wall(d, p) == wall {
            lemma_wall_ends(m0, dir, cur, d, p);
        }
    }
    assert forall|p: Pos| #[trigger] m1.in_bounds(p) && vis(seen1, h, p) && p != start implies {
        &&& m1.open(up1[p], p)
        &&& rank1[m1.step(up1[p], p)->0] < rank1[p]
    } by {
        assert(m0.in_bounds(p));
        if p != dest {
            assert(vis(seen, h, p));
            assert(m0.open(up[p], p));
        }
    }
    assert forall|p: Pos, d: Dir| m1.in_bounds(p) && #[trigger] m1.open(d, p) implies {
        ||| p != start && d == up1[p]
        ||| m1.step(d, p)->0 != start && up1[m1.step(d, p)->0] == d.opposite_spec()
    } by {
        if m0.open(d, p) {
        } else {
            lemma_wall_ends(m0, dir, cur, d, p);
        }
    }
}

proof fn lemma_tree_done(m: &Maze, seen: Seq<bool>, start: Pos, up: Map<Pos, Dir>, rank: Map<Pos, nat>, t: nat)
    requires
        tree_so_far(m, seen, start, up, rank, t),
        forall|p: Pos| m.in_bounds(p) ==> #[trigger] vis(seen, m.height() as int, p),
    ensures
        is_perfect(m),
{
    reveal(tree_so_far);
    let upf = |p: Pos| up[p];
    let rankf = |p: Pos| rank[p];
    assert forall|p: Pos| #[trigger] m.in_bounds(p) && p != start implies {
        &&& m.open(upf(p), p)
        &&& rankf(m.step(upf(p), p)->0) < rankf(p)
    } by {
        assert(vis(seen, m.height() as int, p));
    }
    assert(rooted_tree(m, start, upf, rankf));
}

/// Grows a maze over a `w x h` grid from a random start cell, expanding the
/// cells that `frontier` hands out until it is empty.
fn grow(rng: &mut StdRng, size: Size, turn: &Turn, frontier: &mut Frontier) -> (m: Maze)
    requires
        size.0 <= isize::MAX,
        size.1 <= isize::MAX,
        size.0 * size.1 <= isize::MAX,
        old(frontier).count() == 0,
        old(frontier).weighs((size.0 * size.1) as nat),
    ensures
        m.width() == size.0,
        m.height() == size.1,
        size.0 > 0 && size.1 > 0 ==> is_perfect(&m),
{
    let (w, h) = size;
    let mut maze = Maze::new(size, false);
    if w == 0 || h == 0 {
        return maze;
    }
    proof {
        crate::maze::lemma_all_closed(&maze);
    }
    let n = maze.cell_count();
    let ghost hh = h as int;
    let ghost all = set_int_range(0, n as int);
    proof {
        lemma_int_range(0, n as int);
    }
    let mut seen: Vec<bool> = Vec::new();
    for i in 0..n
        invariant
            seen@.len() == i,
            forall|k: int| 0 <= k < i ==> !#[trigger] seen@[k],
    {
        seen.push(false);
    }
    let ghost mut visited: Set<int> = Set::empty();

    let start = (below(rng, 0, w), below(rng, 0, h));
    let k0 = maze.index(start);
    let ghost seen0 = seen@;
    seen.set(k0, true);
    proof {
        visited = visited.insert(k0 as int);
        lemma_len_subset(visited, all);
        lemma_mark(&maze, seen0, start);
        assert forall|p: Pos| maze.in_bounds(p) implies (#[trigger] vis(seen@, hh, p) <==> p == start) by {
            lemma_index_of(w as int, hh, p, p);
        }
        lemma_tree_start(&maze, seen@, start);
    }
    let ghost mut up: Map<Pos, Dir> = Map::empty();
    let ghost mut rank: Map<Pos, nat> = Map::empty().insert(start, 0nat);
    let ghost mut t: nat = 0;
    frontier.push(start, k0, Ghost(w), Ghost(h), Ghost(n as nat));

    loop
        invariant
            maze.width() == w,
            maze.height() == h,
            hh == h,
            n == w * h,
            all == set_int_range(0, n as int),
            all.finite(),
            all.len() == n,
            seen@.len() == n,
            visited.subset_of(all),
            visited.finite(),
            visited.len() <= n,
            forall|k: int| 0 <= k < n ==> (#[trigger] seen@[k] <==> visited.contains(k)),
            frontier.within(w, h),
            frontier.weighs(n as nat),
            tree_so_far(&maze, seen@, start, up, rank, t),
            forall|p: Pos| maze.in_bounds(p) && #[trigger] vis(seen@, hh, p) ==> frontier.holds(p) || closed_at(&maze, seen@, p),
            forall|q: Pos| #[trigger] frontier.holds(q) ==> vis(seen@, hh, q),
        ensures
            forall|q: Pos| !#[trigger] frontier.holds(q),
        decreases 2 * (n - visited.len()) + frontier.count(),
    {
        proof {
            lemma_len_subset(visited, all);
        }
        let ghost measure = 2 * (n - visited.len()) + frontier.count();
        let ghost held = *frontier;
        let pos = match frontier.pop(Ghost(w), Ghost(h), Ghost(n as nat)) {
            None => break,
            Some(p) => p,
        };
        proof {
            assert forall|p: Pos| maze.in_bounds(p) && #[trigger] vis(seen@, hh, p) implies p == pos || frontier.holds(p)
                || closed_at(&maze, seen@, p) by {
                assert(held.holds(p) || closed_at(&maze, seen@, p));
            }
        }
        let mut dirs = vec![Dir::Right, Dir::Down, Dir::Left, Dir::Up];
        let ghost all_dirs = dirs@;
        shuffle(rng, &mut dirs);
        proof {
            all_dirs.to_multiset_ensures();
            dirs@.to_multiset_ensures();
        }
        for i in 0..dirs.len()
            invariant
                pos.0 < w && pos.1 < h,
                dirs@.len() == 4,
                maze.width() == w,
                maze.height() == h,
                hh == h,
                n == w * h,
                all == set_int_range(0, n as int),
                all.finite(),
                all.len() == n,
                seen@.len() == n,
                visited.subset_of(all),
                visited.finite(),
                visited.len() <= n,
                forall|k: int| 0 <= k < n ==> (#[trigger] seen@[k] <==> visited.contains(k)),
                frontier.within(w, h),
                frontier.weighs(n as nat),
                2 * (n - visited.len()) + frontier.count() < measure,
                tree_so_far(&maze, seen@, start, up, rank, t),
                forall|p: Pos| maze.in_bounds(p) && #[trigger] vis(seen@, hh, p) ==> p == pos || frontier.holds(p)
                    || closed_at(&maze, seen@, p),
                forall|q: Pos| #[trigger] frontier.holds(q) ==> vis(seen@, hh, q),
                vis(seen@, hh, pos),
                forall|j: int| 0 <= j < i && maze.step(#[trigger] dirs@[j], pos) is Some
                    ==> vis(seen@, hh, maze.step(dirs@[j], pos)->0),
        {
            let dir = dirs[i];
            let mut cur = pos;
            loop
                invariant
                    pos.0 < w && pos.1 < h,
                    cur.0 < w && cur.1 < h,
                    dirs@.len() == 4,
                    dir == dirs@[i as int],
                    i < 4,
                    maze.width() == w,
                    maze.height() == h,
                    hh == h,
                    n == w * h,
                    all == set_int_range(0, n as int),
                    all.finite(),
                    all.len() == n,
                    seen@.len() == n,
                    visited.subset_of(all),
                    visited.finite(),
                    visited.len() <= n,
                    forall|k: int| 0 <= k < n ==> (#[trigger] seen@[k] <==> visited.contains(k)),
                    frontier.within(w, h),
                    frontier.weighs(n as nat),
                    2 * (n - visited.len()) + frontier.count() < measure,
                    tree_so_far(&maze, seen@, start, up, rank, t),
                    vis(seen@, hh, cur),
                    forall|p: Pos| maze.in_bounds(p) && #[trigger] vis(seen@, hh, p) ==> p == pos || frontier.holds(p)
                        || closed_at(&maze, seen@, p),
                    forall|q: Pos| #[trigger] frontier.holds(q) ==> vis(seen@, hh, q),
                    vis(seen@, hh, pos),
                    forall|j: int| 0 <= j < i && maze.step(#[trigger] dirs@[j], pos) is Some
                        ==> vis(seen@, hh, maze.step(dirs@[j], pos)->0),
                    cur != pos ==> maze.step(dir, pos) is Some && vis(seen@, hh, maze.step(dir, pos)->0),
                ensures
                    maze.step(dir, pos) is Some ==> vis(seen@, hh, maze.step(dir, pos)->0),
                decreases n - visited.len(),
            {
                proof {
                    lemma_len_subset(visited, all);
                    reveal(tree_so_far);
                }
                let dest = match maze.shift(dir, cur) {
                    None => break,
                    Some(d) => d,
                };
                let kd = maze.index(dest);
                if seen[kd] {
                    break;
                }
                let ghost m0 = maze;
                let ghost s0 = seen@;
                let ghost c0 = cur;
                let ghost f0 = *frontier;
                maze.set_open(dir, cur, true);
                cur = dest;
                seen.set(kd, true);
                proof {
                    lemma_index_of(w as int, hh, dest, dest);
                    lemma_tree_carve(&m0, &maze, s0, start, up, rank, t, c0, dir);
                    assert(!visited.contains(kd as int));
                    visited = visited.insert(kd as int);
                    lemma_len_subset(visited, all);
                    lemma_mark(&m0, s0, dest);
                    lemma_closed_grows(&m0, &maze, s0, dest);
                    up = up.insert(dest, dir.opposite_spec());
                    rank = rank.insert(dest, t + 1);
                    t = t + 1;
                }
                frontier.push(cur, kd, Ghost(w), Ghost(h), Ghost(n as nat));
                proof {
                    assert forall|p: Pos| maze.in_bounds(p) && #[trigger] vis(seen@, hh, p) implies p == pos || frontier.holds(p)
                        || closed_at(&maze, seen@, p) by {
                        if p != dest {
                            assert(vis(s0, hh, p));
                            assert(p == pos || f0.holds(p) || closed_at(&m0, s0, p));
                        }
                    }
                    assert forall|j: int| 0 <= j < i && maze.step(#[trigger] dirs@[j], pos) is Some
                        implies vis(seen@, hh, maze.step(dirs@[j], pos)->0) by {
                        assert(vis(s0, hh, m0.step(dirs@[j], pos)->0));
                    }
                    if c0 != pos {
                        assert(vis(s0, hh, m0.step(dir, pos)->0));
                    }
                    assert forall|q: Pos| #[trigger] frontier.holds(q) implies vis(seen@, hh, q) by {
                        if q != dest {
                            assert(f0.holds(q));
                            assert(vis(s0, hh, q));
                        }
                    }
                }
                if turn.turns(rng) {
                    break;
                }
            }
        }
        proof {
            assert forall|d: Dir| #[trigger] maze.step(d, pos) is Some implies vis(seen@, hh, maze.step(d, pos)->0) by {
                assert(all_dirs.contains(d)) by {
                    match d {
                        Dir::Right => assert(all_dirs[0] == d),
                        Dir::Down => assert(all_dirs[1] == d),
                        Dir::Left => assert(all_dirs[2] == d),
                        Dir::Up => assert(all_dirs[3] == d),
                    }
                }
                assert(all_dirs.to_multiset().count(d) > 0);
                assert(dirs@.contains(d));
                let j = choose|j: int| 0 <= j < dirs@.len() && dirs@[j] == d;
                assert(maze.step(dirs@[j], pos) is Some);
            }
            assert(closed_at(&maze, seen@, pos));
        }
    }
    proof {
        reveal(tree_so_far);
        assert forall|p: Pos| maze.in_bounds(p) && vis(seen@, hh, p) implies #[trigger] closed_at(&maze, seen@, p) by {
            assert(!frontier.holds(p));
        }
        assert forall|p: Pos| maze.in_bounds(p) implies #[trigger] vis(seen@, hh, p) by {
            lemma_walk(&maze, seen@, start, p);
        }
        lemma_tree_done(&maze, seen@, start, up, rank, t);
    }
    maze
}

/// Depth-first growth: the frontier is a stack.
pub struct Backtrack(pub Turn);

impl Generator for Backtrack {
    open spec fn accepts(&self, size: Size) -> bool {
        true
    }

    fn keys_cells(&self) -> (r: bool) {
        false
    }

    fn generate(&self, rng: &mut StdRng, size: Size) -> (m: Maze)
        ensures
            size.0 > 0 && size.1 > 0 ==> is_perfect(&m),
            connected(&m),
            size.0 > 0 && size.1 > 0 ==> exists|ws: Set<Wall>| #[trigger] passages_are(&m, ws) && ws.finite()
                && ws.len() == size.0 * size.1 - 1,
    {
        let mut frontier = Frontier::Stack(Vec::new());
        let m = grow(rng, size, &self.0, &mut frontier);
        proof {
            lemma_perfect_or_empty_connected(&m);
        }
        m
    }
}

/// Prim-like growth: the frontier hands out the cell of least random weight.
pub struct PrimTrue;

impl Generator for PrimTrue {
    open spec fn accepts(&self, size: Size) -> bool {
        true
    }

    fn keys_cells(&self) -> (r: bool) {
        false
    }

    fn generate(&self, rng: &mut StdRng, size: Size) -> (m: Maze)
        ensures
            size.0 > 0 && size.1 > 0 ==> is_perfect(&m),
            connected(&m),
            size.0 > 0 && size.1 > 0 ==> exists|ws: Set<Wall>| #[trigger] passages_are(&m, ws) && ws.finite()
                && ws.len() == size.0 * size.1 - 1,
    {
        let n = size.0 * size.1;
        let mut weights: Vec<u32> = Vec::new();
        for i in 0..n
            invariant
                weights@.len() == i,
        {
            weights.push(draw_u32(rng));
        }
        let mut frontier = Frontier::Lightest { weighed: Vec::new(), weights };
        let m = grow(rng, size, &Turn::always(), &mut frontier);
        proof {
            lemma_perfect_or_empty_connected(&m);
        }
        m
    }
}

/// A cheap stand-in for Prim's order: each new frontier cell swaps places with
/// a random one, drawn from a second stream seeded off the first.
pub struct PrimSimplified(pub Turn);

impl Generator for PrimSimplified {
    open spec fn accepts(&self, size: Size) -> bool {
        true
    }

    fn keys_cells(&self) -> (r: bool) {
        false
    }

    fn generate(&self, rng: &mut StdRng, size: Size) -> (m: Maze)
        ensures
            size.0 > 0 && size.1 > 0 ==> is_perfect(&m),
            connected(&m),
            size.0 > 0 && size.1 > 0 ==> exists|ws: Set<Wall>| #[trigger] passages_are(&m, ws) && ws.finite()
                && ws.len() == size.0 * size.1 - 1,
    {
        let seed = draw_seed(rng);
        let mut frontier = Frontier::Swapped { items: Vec::new(), rng: seeded(seed) };
        let m = grow(rng, size, &self.0, &mut frontier);
        proof {
            lemma_perfect_or_empty_connected(&m);
        }
        m
    }
}

} // verus!
