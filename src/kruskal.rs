//! Kruskal's algorithm: every interior wall, in random order, is opened unless
//! the cells on its two sides are already joined.
use vstd::prelude::*;
use rand::rngs::StdRng;
use crate::maze::{Dir, Generator, Maze, Pos, Size, Wall, connected, passages_are, lemma_all_closed, lemma_cell_of_index, lemma_wall_ends, index_of, lemma_edge_symmetry, lemma_index_of, lemma_linked_more, lemma_linked_refl, lemma_linked_step, lemma_linked_trans, lemma_open_more, linked};
use crate::rng::shuffle;
use crate::unify::{Key, merged, singletons, roots_of, well_rooted};
use vstd::set_lib::{lemma_int_range, set_int_range};

verus! {

pub struct Kruskal;

/// Every candidate wall, as a cell and a direction, lies on a `w x h` grid.
pub open spec fn candidates_in(edges: Seq<(Dir, Pos)>, w: usize, h: usize) -> bool {
    forall|e: (Dir, Pos)| #[trigger] edges.contains(e) ==> e.1.0 < w && e.1.1 < h
}

/// Every cell of a `w x h` grid offers its east and south wall.
pub open spec fn candidates_all(edges: Seq<(Dir, Pos)>, w: usize, h: usize) -> bool {
    forall|p: Pos| p.0 < w && p.1 < h ==> #[trigger] edges.contains((Dir::Down, p)) && edges.contains((Dir::Right, p))
}

/// The east and south wall of every cell of a `w x h` grid.
fn candidate_walls(w: usize, h: usize) -> (r: Vec<(Dir, Pos)>)
    ensures
        candidates_in(r@, w, h),
        candidates_all(r@, w, h),
{
    let mut edges: Vec<(Dir, Pos)> = Vec::new();
    for x in 0..w
        invariant
            candidates_in(edges@, w, h),
            forall|p: Pos| p.0 < x && p.1 < h ==> #[trigger] edges@.contains((Dir::Down, p)) && edges@.contains((Dir::Right, p)),
    {
        for y in 0..h
            invariant
                x < w,
                candidates_in(edges@, w, h),
                forall|p: Pos| (p.0 < x && p.1 < h) || (p.0 == x && p.1 < y)
                    ==> #[trigger] edges@.contains((Dir::Down, p)) && edges@.contains((Dir::Right, p)),
        {
            let ghost before = edges@;
            edges.push((Dir::Down, (x, y)));
            edges.push((Dir::Right, (x, y)));
            assert forall|e: (Dir, Pos)| #[trigger] edges@.contains(e) implies e.1.0 < w && e.1.1 < h by {
                let i = choose|i: int| 0 <= i < edges@.len() && edges@[i] == e;
                if i < before.len() {
                    assert(before.contains(e));
                }
            }
            assert(edges@[edges@.len() - 2] == (Dir::Down, (x, y)));
            assert(edges@[edges@.len() - 1] == (Dir::Right, (x, y)));
            assert forall|e: (Dir, Pos)| before.contains(e) implies #[trigger] edges@.contains(e) by {
                let i = choose|i: int| 0 <= i < before.len() && before[i] == e;
                assert(edges@[i] == e);
            }
            assert forall|p: Pos| (p.0 < x && p.1 < h) || (p.0 == x && p.1 < y + 1)
                implies #[trigger] edges@.contains((Dir::Down, p)) && edges@.contains((Dir::Right, p)) by {
                if p == (x, y) {
                    assert(edges@[edges@.len() - 2] == (Dir::Down, p));
                    assert(edges@[edges@.len() - 1] == (Dir::Right, p));
                } else {
                    assert(before.contains((Dir::Down, p)));
                    assert(before.contains((Dir::Right, p)));
                }
            }
        }
    }
    edges
}

/// The root of the set of cell `p`, in a table keyed by row-major index.
pub open spec fn root_at(roots: Seq<int>, m: &Maze, p: Pos) -> int {
    roots[index_of(m.height() as int, p)]
}

/// Cells in one set are linked through open walls.
pub open spec fn sets_linked(roots: Seq<int>, m: &Maze) -> bool {
    forall|p: Pos, q: Pos| m.in_bounds(p) && m.in_bounds(q) && root_at(roots, m, p) == root_at(roots, m, q)
        ==> #[trigger] linked(m, p, q)
}

/// Opening the wall between `a` and its neighbour `b`, and merging their
/// sets, keeps cells of one set linked.
pub(crate) proof fn lemma_union_links(m0: &Maze, m1: &Maze, s: Seq<int>, s1: Seq<int>, dir: Dir, a: Pos, r: int)
    requires
        sets_linked(s, m0),
        s.len() == m0.width() * m0.height(),
        m0.in_bounds(a),
        m0.step(dir, a) is Some,
        m1.width() == m0.width() && m1.height() == m0.height(),
        forall|d: Dir, c: Pos| m0.open(d, c) ==> #[trigger] m1.open(d, c),
        m1.open(dir, a),
        r == root_at(s, m0, a) || r == root_at(s, m0, m0.step(dir, a)->0),
        s1 == merged(s, index_of(m0.height() as int, a), index_of(m0.height() as int, m0.step(dir, a)->0), r),
    ensures
        sets_linked(s1, m1),
{
    let h = m0.height() as int;
    let b = m0.step(dir, a)->0;
    lemma_edge_symmetry(m0, dir, a);
    lemma_linked_step(m1, dir, a);
    assert forall|p: Pos, q: Pos| m1.in_bounds(p) && m1.in_bounds(q) && root_at(s1, m1, p) == root_at(s1, m1, q)
        implies #[trigger] linked(m1, p, q) by {
        lemma_index_of(m0.width() as int, h, p, p);
        lemma_index_of(m0.width() as int, h, q, q);
        lemma_index_of(m0.width() as int, h, a, a);
        lemma_index_of(m0.width() as int, h, b, b);
        let ra = root_at(s, m0, a);
        let rb = root_at(s, m0, b);
        let sp = root_at(s, m0, p);
        let sq = root_at(s, m0, q);
        let in_p = sp == ra || sp == rb;
        let in_q = sq == ra || sq == rb;
        if in_p && in_q {
            // p reaches an end of the new wall, crosses it if need be, and reaches q.
            let ep = if sp == ra { a } else { b };
            let eq = if sq == ra { a } else { b };
            assert(linked(m0, p, ep));
            lemma_linked_more(m0, m1, p, ep);
            assert(linked(m0, eq, q));
            lemma_linked_more(m0, m1, eq, q);
            if ep == eq {
                lemma_linked_trans(m1, p, ep, q);
            } else if ep == a {
                lemma_linked_trans(m1, p, a, b);
                lemma_linked_trans(m1, p, b, q);
            } else {
                lemma_linked_trans(m1, p, b, a);
                lemma_linked_trans(m1, p, a, q);
            }
        } else {
            assert(!in_p && !in_q);
            assert(linked(m0, p, q));
            lemma_linked_more(m0, m1, p, q);
        }
    }
}

/// Where every two neighbours share a set, every two cells do.
pub(crate) proof fn lemma_one_set(s: Seq<int>, m: &Maze, from: Pos, to: Pos)
    requires
        m.in_bounds(from),
        m.in_bounds(to),
        forall|p: Pos, d: Dir| m.in_bounds(p) && #[trigger] m.step(d, p) is Some
            ==> root_at(s, m, p) == root_at(s, m, m.step(d, p)->0),
    ensures
        root_at(s, m, from) == root_at(s, m, to),
    decreases
        (if from.0 < to.0 { to.0 - from.0 } else { from.0 - to.0 })
            + (if from.1 < to.1 { to.1 - from.1 } else { from.1 - to.1 }),
{
    if from != to {
        let d = if from.0 < to.0 {
            Dir::Right
        } else if from.0 > to.0 {
            Dir::Left
        } else if from.1 < to.1 {
            Dir::Down
        } else {
            Dir::Up
        };
        assert(m.step(d, from) is Some);
        lemma_one_set(s, m, m.step(d, from)->0, to);
    }
}

/// `ks` is the set of keys that are the roots of their sets.
pub open spec fn root_keys_are(s: Seq<int>, ks: Set<int>) -> bool {
    &&& forall|i: int| #[trigger] ks.contains(i) ==> 0 <= i < s.len() && s[i] == i
    &&& forall|i: int| 0 <= i < s.len() && #[trigger] s[i] == i ==> ks.contains(i)
}

/// Every open wall joins two cells of one set.
pub open spec fn walls_within_sets(m: &Maze, s: Seq<int>) -> bool {
    forall|p: Pos, d: Dir| m.in_bounds(p) && #[trigger] m.open(d, p)
        ==> root_at(s, m, p) == root_at(s, m, m.step(d, p)->0)
}

/// Opening the wall between two cells of different sets, and merging the
/// sets, adds one open wall and removes one root.
pub(crate) proof fn lemma_count_step(
    m0: &Maze,
    m1: &Maze,
    s0: Seq<int>,
    s1: Seq<int>,
    opened: Set<Wall>,
    ks: Set<int>,
    dir: Dir,
    pos: Pos,
    r: int,
)
    requires
        passages_are(m0, opened),
        root_keys_are(s0, ks),
        well_rooted(s0),
        s0.len() == m0.width() * m0.height(),
        walls_within_sets(m0, s0),
        m0.in_bounds(pos),
        m0.step(dir, pos) is Some,
        root_at(s0, m0, pos) != root_at(s0, m0, m0.step(dir, pos)->0),
        m0.same_but(m1, Maze::wall(dir, pos)),
        m1.stored(Maze::wall(dir, pos)),
        r == root_at(s0, m0, pos) || r == root_at(s0, m0, m0.step(dir, pos)->0),
        s1 == merged(s0, index_of(m0.height() as int, pos), index_of(m0.height() as int, m0.step(dir, pos)->0), r),
    ensures
        !opened.contains(Maze::wall(dir, pos)),
        passages_are(m1, opened.insert(Maze::wall(dir, pos))),
        ({
            let other = if r == root_at(s0, m0, pos) { root_at(s0, m0, m0.step(dir, pos)->0) } else { root_at(s0, m0, pos) };
            ks.contains(other) && root_keys_are(s1, ks.remove(other))
        }),
        walls_within_sets(m1, s1),
{
    let h = m0.height() as int;
    let pos2 = m0.step(dir, pos)->0;
    let ka = index_of(h, pos);
    let kb = index_of(h, pos2);
    let ra = s0[ka];
    let rb = s0[kb];
    let wall = Maze::wall(dir, pos);
    lemma_edge_symmetry(m0, dir, pos);
    lemma_index_of(m0.width() as int, h, pos, pos);
    lemma_index_of(m0.width() as int, h, pos2, pos2);
    assert(m0.interior(wall));
    assert(!m0.open(dir, pos));
    lemma_open_more(m0, m1, wall);
    let other = if r == ra { rb } else { ra };
    assert(s0[ra] == ra && s0[rb] == rb);
    assert forall|i: int| 0 <= i < s1.len() && #[trigger] s1[i] == i implies ks.remove(other).contains(i) by {
        if s0[i] == ra || s0[i] == rb {
            assert(i == r);
        }
    }
    assert forall|p: Pos, d: Dir| m1.in_bounds(p) && #[trigger] m1.open(d, p)
        implies root_at(s1, m1, p) == root_at(s1, m1, m1.step(d, p)->0) by {
        let q = m0.step(d, p)->0;
        lemma_edge_symmetry(m0, d, p);
        lemma_index_of(m0.width() as int, h, p, p);
        lemma_index_of(m0.width() as int, h, q, q);
        if m0.open(d, p) {
        } else {
            lemma_wall_ends(m0, dir, pos, d, p);
        }
    }
}

impl Generator for Kruskal {
    open spec fn accepts(&self, size: Size) -> bool {
        size.0 * size.1 <= u32::MAX
    }

    fn keys_cells(&self) -> (r: bool) {
        true
    }

    fn generate(&self, rng: &mut StdRng, size: Size) -> (m: Maze)
        ensures
            connected(&m),
            size.0 > 0 && size.1 > 0 ==> exists|ws: Set<Wall>| #[trigger] passages_are(&m, ws) && ws.finite()
                && ws.len() == size.0 * size.1 - 1,
    {
        let mut maze = Maze::new(size, false);
        let mut edges = candidate_walls(size.0, size.1);
        let ghost before = edges@;
        shuffle(rng, &mut edges);
        proof {
            before.to_multiset_ensures();
            edges@.to_multiset_ensures();
            assert forall|e: (Dir, Pos)| #[trigger] edges@.contains(e) implies e.1.0 < size.0 && e.1.1 < size.1 by {
                assert(before.to_multiset().count(e) > 0);
            }
            assert forall|p: Pos| p.0 < size.0 && p.1 < size.1 implies #[trigger] edges@.contains((Dir::Down, p))
                && edges@.contains((Dir::Right, p)) by {
                assert(before.contains((Dir::Down, p)));
                assert(before.contains((Dir::Right, p)));
                assert(before.to_multiset().count((Dir::Down, p)) > 0);
                assert(before.to_multiset().count((Dir::Right, p)) > 0);
            }
        }
        let n = maze.cell_count();
        let ghost hh = size.1 as int;
        let mut uf = singletons(n);
        let ghost mut opened: Set<Wall> = Set::empty();
        let ghost mut ks: Set<int> = set_int_range(0, n as int);
        proof {
            lemma_int_range(0, n as int);
            lemma_all_closed(&maze);
            assert forall|i: int| 0 <= i < roots_of(uf).len() && #[trigger] roots_of(uf)[i] == i implies ks.contains(i) by {}
            assert(root_keys_are(roots_of(uf), ks));
            assert(passages_are(&maze, opened));
            assert(walls_within_sets(&maze, roots_of(uf)));
            assert forall|p: Pos, q: Pos| maze.in_bounds(p) && maze.in_bounds(q)
                && root_at(roots_of(uf), &maze, p) == root_at(roots_of(uf), &maze, q) implies #[trigger] linked(&maze, p, q) by {
                lemma_index_of(size.0 as int, hh, p, q);
                lemma_index_of(size.0 as int, hh, q, q);
                lemma_linked_refl(&maze, p);
            }
        }
        for i in 0..edges.len()
            invariant
                candidates_in(edges@, size.0, size.1),
                candidates_all(edges@, size.0, size.1),
                maze.width() == size.0,
                maze.height() == size.1,
                hh == size.1,
                n == size.0 * size.1 <= u32::MAX,
                roots_of(uf).len() == n,
                well_rooted(roots_of(uf)),
                sets_linked(roots_of(uf), &maze),
                opened.finite(),
                ks.finite(),
                opened.len() + ks.len() == n,
                passages_are(&maze, opened),
                root_keys_are(roots_of(uf), ks),
                walls_within_sets(&maze, roots_of(uf)),
                forall|j: int| 0 <= j < i && maze.step(#[trigger] edges@[j].0, edges@[j].1) is Some
                    ==> root_at(roots_of(uf), &maze, edges@[j].1) == root_at(roots_of(uf), &maze, maze.step(edges@[j].0, edges@[j].1)->0),
        {
            let (dir, pos) = edges[i];
            assert(edges@.contains(edges@[i as int]));
            match maze.shift(dir, pos) {
                Some(pos2) => {
                    let a = maze.index(pos);
                    let b = maze.index(pos2);
                    if !uf.unioned(Key(a as u32), Key(b as u32)) {
                        let ghost s0 = roots_of(uf);
                        let ghost m0 = maze;
                        uf.union(Key(a as u32), Key(b as u32));
                        maze.set_open(dir, pos, true);
                        proof {
                            lemma_open_more(&m0, &maze, Maze::wall(dir, pos));
                            let r = choose|r: int| (r == s0[a as int] || r == s0[b as int])
                                && roots_of(uf) == #[trigger] merged(s0, a as int, b as int, r);
                            lemma_union_links(&m0, &maze, s0, roots_of(uf), dir, pos, r);
                            lemma_index_of(size.0 as int, hh, pos, pos);
                            lemma_index_of(size.0 as int, hh, pos2, pos2);
                            lemma_count_step(&m0, &maze, s0, roots_of(uf), opened, ks, dir, pos, r);
                            let other = if r == root_at(s0, &m0, pos) { root_at(s0, &m0, pos2) } else { root_at(s0, &m0, pos) };
                            opened = opened.insert(Maze::wall(dir, pos));
                            ks = ks.remove(other);
                            assert forall|j: int| 0 <= j < i + 1 && maze.step(#[trigger] edges@[j].0, edges@[j].1) is Some
                                implies root_at(roots_of(uf), &maze, edges@[j].1)
                                    == root_at(roots_of(uf), &maze, maze.step(edges@[j].0, edges@[j].1)->0) by {
                                let e = edges@[j];
                                assert(edges@.contains(e));
                                let q = maze.step(e.0, e.1)->0;
                                lemma_index_of(size.0 as int, hh, e.1, e.1);
                                lemma_index_of(size.0 as int, hh, q, q);
                            }
                        }
                    }
                },
                None => {},
            }
        }
        proof {
            let s = roots_of(uf);
            assert forall|p: Pos, d: Dir| maze.in_bounds(p) && #[trigger] maze.step(d, p) is Some
                implies root_at(s, &maze, p) == root_at(s, &maze, maze.step(d, p)->0) by {
                let q = maze.step(d, p)->0;
                match d {
                    Dir::Right => {
                        assert(edges@.contains((Dir::Down, p)));
                        let j = choose|j: int| 0 <= j < edges@.len() && edges@[j] == (Dir::Right, p);
                        assert(maze.step(edges@[j].0, edges@[j].1) is Some);
                    },
                    Dir::Down => {
                        assert(edges@.contains((Dir::Down, p)));
                        let j = choose|j: int| 0 <= j < edges@.len() && edges@[j] == (Dir::Down, p);
                        assert(maze.step(edges@[j].0, edges@[j].1) is Some);
                    },
                    Dir::Left => {
                        lemma_edge_symmetry(&maze, d, p);
                        assert(edges@.contains((Dir::Down, q)));
                        assert(edges@.contains((Dir::Right, q)));
                        let j = choose|j: int| 0 <= j < edges@.len() && edges@[j] == (Dir::Right, q);
                        assert(maze.step(edges@[j].0, edges@[j].1) is Some);
                    },
                    Dir::Up => {
                        lemma_edge_symmetry(&maze, d, p);
                        assert(edges@.contains((Dir::Down, q)));
                        let j = choose|j: int| 0 <= j < edges@.len() && edges@[j] == (Dir::Down, q);
                        assert(maze.step(edges@[j].0, edges@[j].1) is Some);
                    },
                }
            }
            assert forall|p: Pos, q: Pos| maze.in_bounds(p) && maze.in_bounds(q) implies #[trigger] linked(&maze, p, q) by {
                lemma_one_set(s, &maze, p, q);
            }
            if size.0 > 0 && size.1 > 0 {
                let k0 = index_of(hh, (0usize, 0usize));
                assert(s[k0] == root_at(s, &maze, (0usize, 0usize)));
                assert forall|i: int| #[trigger] ks.contains(i) implies i == s[k0] by {
                    lemma_cell_of_index(size.0 as int, hh, i);
                    let p: Pos = ((i / hh) as usize, (i % hh) as usize);
                    lemma_one_set(s, &maze, p, (0usize, 0usize));
                }
                lemma_index_of(size.0 as int, hh, (0usize, 0usize), (0usize, 0usize));
                assert(0 <= k0 < s.len());
                assert(0 <= s[k0] < s.len() && s[s[k0]] == s[k0]);
                assert(ks.contains(s[k0]));
                assert(ks =~= set![s[k0]]);
                assert(passages_are(&maze, opened));
            }
        }
        maze
    }
}

} // verus!
