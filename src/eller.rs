//! Eller's algorithm: rows are carved from top to bottom, joining runs within a
//! row and dropping at least one passage from every set into the next row.
use vstd::prelude::*;
use rand::rngs::StdRng;
use crate::maze::{Dir, Generator, Maze, Pos, Size, Wall, class_drops, passages_are, connected, lemma_classes_drop, index_of, lemma_all_closed, lemma_cell_of_index, lemma_index_of, lemma_open_more, linked};
use vstd::set_lib::{lemma_int_range, set_int_range};
use crate::kruskal::{lemma_count_step, lemma_union_links, root_at, root_keys_are, sets_linked, walls_within_sets};
use crate::rng::{chance, pick, shuffle};
use crate::unify::{Key, merged, roots_of, singletons, well_rooted};

verus! {

pub struct Eller;

/// Some cell of row `y`, among the first `w` columns, has an open south wall.
pub open spec fn has_drop(m: &Maze, y: usize, w: usize) -> bool {
    exists|x: usize| x < w && #[trigger] m.open(Dir::Down, (x, y))
}

/// Opening a wall keeps every row's drops.
proof fn lemma_drops_kept(before: &Maze, after: &Maze, d: Dir, p: Pos, w: usize)
    requires
        before.same_but(after, Maze::wall(d, p)),
        after.stored(Maze::wall(d, p)),
    ensures
        forall|r: usize| has_drop(before, r, w) ==> #[trigger] has_drop(after, r, w),
{
    lemma_open_more(before, after, Maze::wall(d, p));
    assert forall|r: usize| has_drop(before, r, w) implies #[trigger] has_drop(after, r, w) by {
        let x = choose|x: usize| x < w && #[trigger] before.open(Dir::Down, (x, r));
        assert(after.open(Dir::Down, (x, r)));
    }
}

/// The root of the set of cell `p`, in a table keyed by row-major index on
/// a grid of height `h`.
pub open spec fn rt(s: Seq<int>, h: usize, p: Pos) -> int {
    s[index_of(h as int, p)]
}

/// Cells `p` and `q` are in one set.
pub open spec fn same_set(s: Seq<int>, h: usize, p: Pos, q: Pos) -> bool {
    rt(s, h, p) == rt(s, h, q)
}

/// Cell `p` shares its set with some cell of row `y`, among `w` columns.
pub open spec fn feeds(s: Seq<int>, w: usize, h: usize, p: Pos, y: usize) -> bool {
    exists|x: usize| x < w && #[trigger] rt(s, h, (x, y)) == rt(s, h, p)
}

/// Cell `q` is alone in its set, among the cells of a `w x h` grid.
pub open spec fn lone(s: Seq<int>, w: usize, h: usize, q: Pos) -> bool {
    &&& rt(s, h, q) == index_of(h as int, q)
    &&& forall|q2: Pos| q2.0 < w && q2.1 < h && #[trigger] rt(s, h, q2) == index_of(h as int, q) ==> q2 == q
}

/// Merging the sets of `a` and `b` leaves every other lone cell alone.
proof fn lemma_lone_kept(s: Seq<int>, w: usize, h: usize, a: Pos, b: Pos, r: int)
    requires
        s.len() == w * h,
        a.0 < w && a.1 < h,
        b.0 < w && b.1 < h,
        r == rt(s, h, a) || r == rt(s, h, b),
    ensures
        forall|q: Pos| q.0 < w && q.1 < h && q != a && q != b && lone(s, w, h, q)
            ==> #[trigger] lone(merged(s, index_of(h as int, a), index_of(h as int, b), r), w, h, q),
{
    let s1 = merged(s, index_of(h as int, a), index_of(h as int, b), r);
    lemma_index_of(w as int, h as int, a, a);
    lemma_index_of(w as int, h as int, b, b);
    assert forall|q: Pos| q.0 < w && q.1 < h && q != a && q != b && lone(s, w, h, q)
        implies #[trigger] lone(s1, w, h, q) by {
        lemma_index_of(w as int, h as int, q, q);
        assert(rt(s, h, a) != index_of(h as int, q));
        assert(rt(s, h, b) != index_of(h as int, q));
        assert forall|q2: Pos| q2.0 < w && q2.1 < h && #[trigger] rt(s1, h, q2) == index_of(h as int, q) implies q2 == q by {
            lemma_index_of(w as int, h as int, q2, q2);
            assert(rt(s, h, q2) == index_of(h as int, q));
        }
    }
}

/// Column `x` is listed in some group.
spec fn in_groups(ms: Seq<Vec<usize>>, x: usize) -> bool {
    exists|g: int, i: int| 0 <= g < ms.len() && 0 <= i < ms[g]@.len() && #[trigger] ms[g]@[i] == x
}

/// Merging two sets keeps together every two cells that were together.
proof fn lemma_merge_keeps(s: Seq<int>, w: usize, h: usize, a: int, b: int, r: int)
    requires
        s.len() == w * h,
    ensures
        forall|p: Pos, q: Pos| p.0 < w && p.1 < h && q.0 < w && q.1 < h && same_set(s, h, p, q)
            ==> #[trigger] same_set(merged(s, a, b, r), h, p, q),
        forall|p: Pos, y: usize| p.0 < w && p.1 < h && y < h && feeds(s, w, h, p, y)
            ==> #[trigger] feeds(merged(s, a, b, r), w, h, p, y),
{
    let s1 = merged(s, a, b, r);
    assert forall|p: Pos, q: Pos| p.0 < w && p.1 < h && q.0 < w && q.1 < h && same_set(s, h, p, q)
        implies #[trigger] same_set(s1, h, p, q) by {
        lemma_index_of(w as int, h as int, p, q);
        lemma_index_of(w as int, h as int, q, q);
    }
    assert forall|p: Pos, y: usize| p.0 < w && p.1 < h && y < h && feeds(s, w, h, p, y)
        implies #[trigger] feeds(s1, w, h, p, y) by {
        let x = choose|x: usize| x < w && #[trigger] rt(s, h, (x, y)) == rt(s, h, p);
        assert(same_set(s, h, (x, y), p));
        assert(same_set(s1, h, (x, y), p));
    }
}

/// Where each cell of row `y` shares a set with the next, all of the row does.
proof fn lemma_row_one_set(s: Seq<int>, w: usize, h: usize, y: usize, x: usize)
    requires
        x < w,
        forall|c: usize| c + 1 < w ==> #[trigger] same_set(s, h, (c, y), ((c + 1) as usize, y)),
    ensures
        same_set(s, h, (x, y), (0usize, y)),
    decreases x,
{
    if x > 0 {
        let c = (x - 1) as usize;
        assert(same_set(s, h, (c, y), ((c + 1) as usize, y)));
        assert((c + 1) as usize == x);
        lemma_row_one_set(s, w, h, y, c);
    }
}

/// The columns `0..w`, in random order.
fn shuffled_columns(rng: &mut StdRng, w: usize) -> (r: Vec<usize>)
    ensures
        r@.len() == w,
        forall|i: int| 0 <= i < r@.len() ==> #[trigger] r@[i] < w,
        forall|x: usize| x < w ==> #[trigger] r@.contains(x),
{
    let mut xs: Vec<usize> = Vec::new();
    for x in 0..w
        invariant
            xs@.len() == x,
            forall|i: int| 0 <= i < xs@.len() ==> #[trigger] xs@[i] < w,
            forall|i: int| 0 <= i < xs@.len() ==> #[trigger] xs@[i] == i,
    {
        xs.push(x);
    }
    let ghost before = xs@;
    shuffle(rng, &mut xs);
    proof {
        before.to_multiset_ensures();
        xs@.to_multiset_ensures();
        assert forall|i: int| 0 <= i < xs@.len() implies #[trigger] xs@[i] < w by {
            assert(xs@.contains(xs@[i]));
            assert(before.to_multiset().count(xs@[i]) > 0);
        }
        assert forall|x: usize| x < w implies #[trigger] xs@.contains(x) by {
            assert(before[x as int] == x);
            assert(before.contains(x));
            assert(xs@.to_multiset().count(x) > 0);
        }
    }
    xs
}

impl Generator for Eller {
    open spec fn accepts(&self, size: Size) -> bool {
        size.0 * size.1 <= u32::MAX
    }

    fn keys_cells(&self) -> (r: bool) {
        true
    }

    fn generate(&self, rng: &mut StdRng, size: Size) -> (m: Maze)
        ensures
            forall|y: usize| y + 1 < size.1 && size.0 > 0 ==> #[trigger] has_drop(&m, y, size.0),
            connected(&m),
            forall|p: Pos| m.in_bounds(p) && p.1 + 1 < size.1 ==> #[trigger] class_drops(&m, p.1, p),
            size.0 > 0 && size.1 > 0 ==> exists|ws: Set<Wall>| #[trigger] passages_are(&m, ws) && ws.finite()
                && ws.len() == size.0 * size.1 - 1,
    {
        let (w, h) = size;
        let mut maze = Maze::new(size, false);
        let n = maze.cell_count();
        let mut uf = singletons(n);
        let mut slot: Vec<usize> = Vec::new();
        for i in 0..n
            invariant
                slot@.len() == i,
                forall|r: int| 0 <= r < slot@.len() ==> #[trigger] slot@[r] == 0,
        {
            slot.push(0);
        }
        proof {
            assert forall|p: Pos, q: Pos| maze.in_bounds(p) && maze.in_bounds(q)
                && root_at(roots_of(uf), &maze, p) == root_at(roots_of(uf), &maze, q) implies #[trigger] linked(&maze, p, q) by {
                lemma_index_of(w as int, h as int, p, q);
                lemma_index_of(w as int, h as int, q, q);
                crate::maze::lemma_linked_refl(&maze, p);
            }
        }
        let ghost mut opened: Set<Wall> = Set::empty();
        let ghost mut ks: Set<int> = set_int_range(0, n as int);
        proof {
            lemma_int_range(0, n as int);
            lemma_all_closed(&maze);
            assert forall|i: int| 0 <= i < roots_of(uf).len() && #[trigger] roots_of(uf)[i] == i implies ks.contains(i) by {}
            assert(root_keys_are(roots_of(uf), ks));
            assert(passages_are(&maze, opened));
            assert(walls_within_sets(&maze, roots_of(uf)));
            assert forall|q: Pos| maze.in_bounds(q) && q.1 > 0 implies #[trigger] lone(roots_of(uf), w, h, q) by {
                lemma_index_of(w as int, h as int, q, q);
                assert forall|q2: Pos| q2.0 < w && q2.1 < h && #[trigger] rt(roots_of(uf), h, q2) == index_of(h as int, q)
                    implies q2 == q by {
                    lemma_index_of(w as int, h as int, q2, q);
                    lemma_index_of(w as int, h as int, q2, q2);
                }
            }
        }
        let mut y: usize = 0;
        while y < h
            invariant
                y <= h,
                maze.width() == w,
                maze.height() == h,
                n == w * h <= u32::MAX,
                roots_of(uf).len() == n,
                well_rooted(roots_of(uf)),
                forall|r: usize| r < y && r + 1 < h && w > 0 ==> #[trigger] has_drop(&maze, r, w),
                slot@.len() == n,
                forall|r: int| 0 <= r < n ==> #[trigger] slot@[r] == 0,
                sets_linked(roots_of(uf), &maze),
                opened.finite(),
                ks.finite(),
                opened.len() + ks.len() == n,
                passages_are(&maze, opened),
                root_keys_are(roots_of(uf), ks),
                walls_within_sets(&maze, roots_of(uf)),
                forall|q: Pos| maze.in_bounds(q) && q.1 > y ==> #[trigger] lone(roots_of(uf), w, h, q),
                y < h ==> forall|p: Pos| maze.in_bounds(p) && p.1 < y ==> #[trigger] feeds(roots_of(uf), w, h, p, y),
                y == h && w > 0 && h > 0 ==> forall|p: Pos| maze.in_bounds(p)
                    ==> #[trigger] same_set(roots_of(uf), h, p, (0usize, (h - 1) as usize)),
            decreases h - y,
        {
            // Join neighbours within the row; on the last row, join every pair
            // still apart.
            let xs = shuffled_columns(rng, w);
            for i in 0..xs.len()
                invariant
                    y < h,
                    xs@.len() == w,
                    forall|i: int| 0 <= i < xs@.len() ==> #[trigger] xs@[i] < w,
                    maze.width() == w,
                    maze.height() == h,
                    n == w * h <= u32::MAX,
                    roots_of(uf).len() == n,
                    well_rooted(roots_of(uf)),
                    forall|r: usize| r < y && r + 1 < h && w > 0 ==> #[trigger] has_drop(&maze, r, w),
                    forall|x: usize| x < w ==> #[trigger] xs@.contains(x),
                    sets_linked(roots_of(uf), &maze),
                    opened.finite(),
                    ks.finite(),
                    opened.len() + ks.len() == n,
                    passages_are(&maze, opened),
                    root_keys_are(roots_of(uf), ks),
                    walls_within_sets(&maze, roots_of(uf)),
                    forall|q: Pos| maze.in_bounds(q) && q.1 > y ==> #[trigger] lone(roots_of(uf), w, h, q),
                    forall|p: Pos| maze.in_bounds(p) && p.1 < y ==> #[trigger] feeds(roots_of(uf), w, h, p, y),
                    y + 1 == h ==> forall|j: int| 0 <= j < i && #[trigger] xs@[j] + 1 < w
                        ==> same_set(roots_of(uf), h, (xs@[j], y), ((xs@[j] + 1) as usize, y)),
            {
                let pos = (xs[i], y);
                match maze.shift(Dir::Right, pos) {
                    Some(pos2) => {
                        let a = Key(maze.index(pos) as u32);
                        let b = Key(maze.index(pos2) as u32);
                        let ghost s0 = roots_of(uf);
                        proof {
                            lemma_index_of(w as int, h as int, pos, pos);
                            lemma_index_of(w as int, h as int, pos2, pos2);
                        }
                        if !uf.unioned(a, b) && (y == h - 1 || chance(rng, 1, 2)) {
                            uf.union(a, b);
                            let ghost before = maze;
                            maze.set_open(Dir::Right, pos, true);
                            proof {
                                lemma_drops_kept(&before, &maze, Dir::Right, pos, w);
                                lemma_open_more(&before, &maze, Maze::wall(Dir::Right, pos));
                                let r = choose|r: int| (r == s0[a.0 as int] || r == s0[b.0 as int])
                                    && roots_of(uf) == #[trigger] merged(s0, a.0 as int, b.0 as int, r);
                                lemma_union_links(&before, &maze, s0, roots_of(uf), Dir::Right, pos, r);
                                lemma_count_step(&before, &maze, s0, roots_of(uf), opened, ks, Dir::Right, pos, r);
                                lemma_lone_kept(s0, w, h, pos, pos2, r);
                                let other = if r == root_at(s0, &before, pos) { root_at(s0, &before, pos2) } else { root_at(s0, &before, pos) };
                                opened = opened.insert(Maze::wall(Dir::Right, pos));
                                ks = ks.remove(other);
                                assert forall|q: Pos| maze.in_bounds(q) && q.1 > y implies #[trigger] lone(roots_of(uf), w, h, q) by {
                                    assert(lone(s0, w, h, q));
                                }
                                lemma_merge_keeps(s0, w, h, a.0 as int, b.0 as int, r);
                                assert(same_set(roots_of(uf), h, pos, pos2));
                            }
                        }
                        proof {
                            assert forall|j: int| 0 <= j < i + 1 && #[trigger] xs@[j] + 1 < w && y + 1 == h
                                implies same_set(roots_of(uf), h, (xs@[j], y), ((xs@[j] + 1) as usize, y)) by {
                                if j < i {
                                    assert(same_set(s0, h, (xs@[j], y), ((xs@[j] + 1) as usize, y)));
                                }
                            }
                            assert forall|p: Pos| maze.in_bounds(p) && p.1 < y implies #[trigger] feeds(roots_of(uf), w, h, p, y) by {
                                assert(feeds(s0, w, h, p, y));
                            }
                        }
                    },
                    None => {},
                }
            }

            proof {
                if y + 1 == h && w > 0 {
                    let s0 = roots_of(uf);
                    assert forall|c: usize| c + 1 < w implies #[trigger] same_set(s0, h, (c, y), ((c + 1) as usize, y)) by {
                        assert(xs@.contains(c));
                        let j = choose|j: int| 0 <= j < xs@.len() && xs@[j] == c;
                        assert(xs@[j] + 1 < w);
                    }
                    assert forall|p: Pos| maze.in_bounds(p) implies #[trigger] same_set(s0, h, p, (0usize, y)) by {
                        if p.1 == y {
                            lemma_row_one_set(s0, w, h, y, p.0);
                        } else {
                            assert(feeds(s0, w, h, p, y));
                            let x = choose|x: usize| x < w && #[trigger] rt(s0, h, (x, y)) == rt(s0, h, p);
                            lemma_row_one_set(s0, w, h, y, x);
                        }
                    }
                }
            }

            // Gather the row's columns by set, in order of first appearance.
            let mut group_roots: Vec<usize> = Vec::new();
            let mut members: Vec<Vec<usize>> = Vec::new();
            for x in 0..w
                invariant
                    y < h,
                    maze.width() == w,
                    maze.height() == h,
                    n == w * h <= u32::MAX,
                    roots_of(uf).len() == n,
                    well_rooted(roots_of(uf)),
                    forall|r: usize| r < y && r + 1 < h && w > 0 ==> #[trigger] has_drop(&maze, r, w),
                    slot@.len() == n,
                    members@.len() == group_roots@.len(),
                    forall|g: int| 0 <= g < members@.len() ==> #[trigger] members@[g]@.len() > 0,
                    x > 0 ==> members@.len() > 0,
                    forall|g: int, i: int|
                        0 <= g < members@.len() && 0 <= i < members@[g]@.len() ==> #[trigger] members@[g]@[i] < w,
                    forall|g: int| 0 <= g < group_roots@.len() ==> #[trigger] group_roots@[g] < n,
                    forall|r: int| 0 <= r < n ==> #[trigger] slot@[r] <= members@.len(),
                    forall|r: int|
                        0 <= r < n && slot@[r] != 0 ==> exists|g: int|
                            0 <= g < group_roots@.len() && #[trigger] group_roots@[g] == r,
                    sets_linked(roots_of(uf), &maze),
                    opened.finite(),
                    ks.finite(),
                    opened.len() + ks.len() == n,
                    passages_are(&maze, opened),
                    root_keys_are(roots_of(uf), ks),
                    walls_within_sets(&maze, roots_of(uf)),
                    forall|q: Pos| maze.in_bounds(q) && q.1 > y ==> #[trigger] lone(roots_of(uf), w, h, q),
                    forall|g1: int, i1: int, g2: int, i2: int| 0 <= g1 < members@.len() && 0 <= i1 < members@[g1]@.len()
                        && 0 <= g2 < members@.len() && 0 <= i2 < members@[g2]@.len() && #[trigger] members@[g1]@[i1] == #[trigger] members@[g2]@[i2]
                        ==> g1 == g2 && i1 == i2,
                    forall|g2: int, j: int| 0 <= g2 < members@.len() && 0 <= j < members@[g2]@.len() ==> #[trigger] members@[g2]@[j] < x,
                    forall|p: Pos| maze.in_bounds(p) && p.1 < y ==> #[trigger] feeds(roots_of(uf), w, h, p, y),
                    y + 1 == h && w > 0 ==> forall|p: Pos| maze.in_bounds(p) ==> #[trigger] same_set(roots_of(uf), h, p, (0usize, y)),
                    forall|g: int, i: int| 0 <= g < members@.len() && 0 <= i < members@[g]@.len()
                        ==> #[trigger] rt(roots_of(uf), h, (members@[g]@[i], y)) == group_roots@[g],
                    forall|r: int| 0 <= r < n && #[trigger] slot@[r] != 0 ==> group_roots@[slot@[r] - 1] == r,
                    forall|c: usize| c < x ==> #[trigger] in_groups(members@, c),
            {
                let k = maze.index((x, y));
                let r = uf.find(Key(k as u32)).0 as usize;
                if slot[r] == 0 {
                    let ghost old_roots = group_roots@;
                    let ghost old_slot = slot@;
                    let ghost old_members = members@;
                    group_roots.push(r);
                    members.push(vec![x]);
                    slot.set(r, members.len());
                    proof {
                        lemma_index_of(w as int, h as int, (x, y), (x, y));
                        assert(members@[members@.len() - 1]@[0] == x);
                        assert forall|c: usize| c < x + 1 implies #[trigger] in_groups(members@, c) by {
                            if c == x {
                                assert(members@[members@.len() - 1]@[0] == c);
                            } else {
                                assert(in_groups(old_members, c));
                                let (g, i) = choose|g: int, i: int| 0 <= g < old_members.len() && 0 <= i < old_members[g]@.len()
                                    && #[trigger] old_members[g]@[i] == c;
                                assert(members@[g] == old_members[g]);
                            }
                        }
                        assert forall|g: int, i: int| 0 <= g < members@.len() && 0 <= i < members@[g]@.len()
                            implies #[trigger] rt(roots_of(uf), h, (members@[g]@[i], y)) == group_roots@[g] by {
                            if g < old_members.len() {
                                assert(members@[g] == old_members[g]);
                            }
                        }
                    }
                    assert forall|q: int| 0 <= q < n && slot@[q] != 0 implies exists|g: int|
                        0 <= g < group_roots@.len() && #[trigger] group_roots@[g] == q by {
                        if q == r {
                            assert(group_roots@[group_roots@.len() - 1] == q);
                        } else {
                            assert(old_slot[q] != 0);
                            let g = choose|g: int| 0 <= g < old_roots.len() && #[trigger] old_roots[g] == q;
                            assert(group_roots@[g] == q);
                        }
                    }
                } else {
                    let g = slot[r] - 1;
                    let ghost old_members = members@;
                    members[g].push(x);
                    proof {
                        lemma_index_of(w as int, h as int, (x, y), (x, y));
                        assert(members@[g as int]@[members@[g as int]@.len() - 1] == x);
                        assert forall|c: usize| c < x + 1 implies #[trigger] in_groups(members@, c) by {
                            if c == x {
                                assert(members@[g as int]@[members@[g as int]@.len() - 1] == c);
                            } else {
                                assert(in_groups(old_members, c));
                                let (g2, i) = choose|g2: int, i: int| 0 <= g2 < old_members.len() && 0 <= i < old_members[g2]@.len()
                                    && #[trigger] old_members[g2]@[i] == c;
                                assert(members@[g2]@[i] == c);
                            }
                        }
                        assert forall|g2: int, i: int| 0 <= g2 < members@.len() && 0 <= i < members@[g2]@.len()
                            implies #[trigger] rt(roots_of(uf), h, (members@[g2]@[i], y)) == group_roots@[g2] by {
                            if g2 != g || i < old_members[g2]@.len() {
                                assert(members@[g2]@[i] == old_members[g2]@[i]);
                            }
                        }
                    }
                }
            }

            proof {
                let s1 = roots_of(uf);
                assert forall|c: usize| c < w implies !#[trigger] maze.open(Dir::Down, (c, y)) by {
                    if y + 1 < h && maze.open(Dir::Down, (c, y)) {
                        let q: Pos = (c, (y + 1) as usize);
                        assert(maze.in_bounds((c, y)));
                        assert(root_at(s1, &maze, (c, y)) == root_at(s1, &maze, q));
                        assert(lone(s1, w, h, q));
                        assert(rt(s1, h, (c, y)) == index_of(h as int, q));
                    }
                }
            }
            // Every set drops at least one passage into the next row.
            for g in 0..members.len()
                invariant
                    y < h,
                    maze.width() == w,
                    maze.height() == h,
                    n == w * h <= u32::MAX,
                    roots_of(uf).len() == n,
                    well_rooted(roots_of(uf)),
                    forall|r: usize| r < y && r + 1 < h && w > 0 ==> #[trigger] has_drop(&maze, r, w),
                    slot@.len() == n,
                    members@.len() == group_roots@.len(),
                    forall|g: int| 0 <= g < members@.len() ==> #[trigger] members@[g]@.len() > 0,
                    w > 0 ==> members@.len() > 0,
                    g > 0 && y + 1 < h ==> has_drop(&maze, y, w),
                    forall|g: int, i: int|
                        0 <= g < members@.len() && 0 <= i < members@[g]@.len() ==> #[trigger] members@[g]@[i] < w,
                    forall|g: int| 0 <= g < group_roots@.len() ==> #[trigger] group_roots@[g] < n,
                    forall|r: int|
                        0 <= r < n && slot@[r] != 0 ==> exists|j: int|
                            g <= j < group_roots@.len() && #[trigger] group_roots@[j] == r,
                    sets_linked(roots_of(uf), &maze),
                    opened.finite(),
                    ks.finite(),
                    opened.len() + ks.len() == n,
                    passages_are(&maze, opened),
                    root_keys_are(roots_of(uf), ks),
                    walls_within_sets(&maze, roots_of(uf)),
                    forall|q: Pos| maze.in_bounds(q) && q.1 > y + 1 ==> #[trigger] lone(roots_of(uf), w, h, q),
                    forall|c: usize| c < w && y + 1 < h && !maze.open(Dir::Down, (c, y)) ==> #[trigger] lone(roots_of(uf), w, h, (c, (y + 1) as usize)),
                    forall|g1: int, i1: int, g2: int, i2: int| 0 <= g1 < members@.len() && 0 <= i1 < members@[g1]@.len()
                        && 0 <= g2 < members@.len() && 0 <= i2 < members@[g2]@.len() && #[trigger] members@[g1]@[i1] == #[trigger] members@[g2]@[i2]
                        ==> g1 == g2 && i1 == i2,
                    forall|g2: int, j: int| g <= g2 < members@.len() && 0 <= j < members@[g2]@.len() ==> !maze.open(Dir::Down, (#[trigger] members@[g2]@[j], y)),
                    forall|p: Pos| maze.in_bounds(p) && p.1 < y ==> #[trigger] feeds(roots_of(uf), w, h, p, y),
                    y + 1 == h && w > 0 ==> forall|p: Pos| maze.in_bounds(p) ==> #[trigger] same_set(roots_of(uf), h, p, (0usize, y)),
                    forall|g2: int, i: int| 0 <= g2 < members@.len() && 0 <= i < members@[g2]@.len()
                        ==> #[trigger] same_set(roots_of(uf), h, (members@[g2]@[i], y), (members@[g2]@[0], y)),
                    forall|c: usize| c < w ==> #[trigger] in_groups(members@, c),
                    y + 1 < h ==> forall|g2: int| 0 <= g2 < g ==> #[trigger] feeds(roots_of(uf), w, h, (members@[g2]@[0], y), (y + 1) as usize),
            {
                let group = &members[g];
                let chosen = pick(rng, group);
                for i in 0..group.len()
                    invariant
                        y < h,
                        group@.contains(chosen),
                        g > 0 && y + 1 < h ==> has_drop(&maze, y, w),
                        (exists|j: int| 0 <= j < i && group@[j] == chosen) && y + 1 < h ==> has_drop(&maze, y, w),
                        g < members@.len(),
                        group == members@[g as int],
                        forall|i: int| 0 <= i < group@.len() ==> #[trigger] group@[i] < w,
                        maze.width() == w,
                        maze.height() == h,
                        n == w * h <= u32::MAX,
                        roots_of(uf).len() == n,
                        well_rooted(roots_of(uf)),
                        forall|r: usize| r < y && r + 1 < h && w > 0 ==> #[trigger] has_drop(&maze, r, w),
                        sets_linked(roots_of(uf), &maze),
                        opened.finite(),
                        ks.finite(),
                        opened.len() + ks.len() == n,
                        passages_are(&maze, opened),
                        root_keys_are(roots_of(uf), ks),
                        walls_within_sets(&maze, roots_of(uf)),
                        forall|q: Pos| maze.in_bounds(q) && q.1 > y + 1 ==> #[trigger] lone(roots_of(uf), w, h, q),
                        forall|c: usize| c < w && y + 1 < h && !maze.open(Dir::Down, (c, y)) ==> #[trigger] lone(roots_of(uf), w, h, (c, (y + 1) as usize)),
                        forall|g1: int, i1: int, g2: int, i2: int| 0 <= g1 < members@.len() && 0 <= i1 < members@[g1]@.len()
                            && 0 <= g2 < members@.len() && 0 <= i2 < members@[g2]@.len() && #[trigger] members@[g1]@[i1] == #[trigger] members@[g2]@[i2]
                            ==> g1 == g2 && i1 == i2,
                        forall|g2: int, j: int| ((g < g2 < members@.len() && 0 <= j < members@[g2]@.len()) || (g2 == g && i <= j < members@[g2]@.len())) ==> !maze.open(Dir::Down, (#[trigger] members@[g2]@[j], y)),
                        forall|p: Pos| maze.in_bounds(p) && p.1 < y ==> #[trigger] feeds(roots_of(uf), w, h, p, y),
                        y + 1 == h && w > 0 ==> forall|p: Pos| maze.in_bounds(p) ==> #[trigger] same_set(roots_of(uf), h, p, (0usize, y)),
                        forall|g2: int, i: int| 0 <= g2 < members@.len() && 0 <= i < members@[g2]@.len()
                            ==> #[trigger] same_set(roots_of(uf), h, (members@[g2]@[i], y), (members@[g2]@[0], y)),
                        forall|c: usize| c < w ==> #[trigger] in_groups(members@, c),
                        y + 1 < h ==> forall|g2: int| 0 <= g2 < g ==> #[trigger] feeds(roots_of(uf), w, h, (members@[g2]@[0], y), (y + 1) as usize),
                        y + 1 < h && (exists|j: int| 0 <= j < i && group@[j] == chosen) ==> feeds(roots_of(uf), w, h, (chosen, y), (y + 1) as usize),
                        members@.len() == group_roots@.len(),
                        forall|g2: int| 0 <= g2 < members@.len() ==> #[trigger] members@[g2]@.len() > 0,
                        forall|g2: int, i: int|
                            0 <= g2 < members@.len() && 0 <= i < members@[g2]@.len() ==> #[trigger] members@[g2]@[i] < w,
                {
                    let pos = (group[i], y);
                    match maze.shift(Dir::Down, pos) {
                        Some(pos2) => {
                            if group[i] == chosen || chance(rng, 1, 2) {
                                let a = Key(maze.index(pos) as u32);
                                let b = Key(maze.index(pos2) as u32);
                                let ghost s0 = roots_of(uf);
                                uf.union(a, b);
                                let ghost before = maze;
                                maze.set_open(Dir::Down, pos, true);
                                proof {
                                    lemma_index_of(w as int, h as int, pos, pos);
                                    lemma_index_of(w as int, h as int, pos2, pos2);
                                    lemma_open_more(&before, &maze, Maze::wall(Dir::Down, pos));
                                    let r = choose|r: int| (r == s0[a.0 as int] || r == s0[b.0 as int])
                                        && roots_of(uf) == #[trigger] merged(s0, a.0 as int, b.0 as int, r);
                                    lemma_union_links(&before, &maze, s0, roots_of(uf), Dir::Down, pos, r);
                                    assert(!before.open(Dir::Down, pos));
                                    assert(lone(s0, w, h, pos2));
                                    assert(rt(s0, h, pos) != rt(s0, h, pos2));
                                    lemma_count_step(&before, &maze, s0, roots_of(uf), opened, ks, Dir::Down, pos, r);
                                    lemma_lone_kept(s0, w, h, pos, pos2, r);
                                    let other = if r == root_at(s0, &before, pos) { root_at(s0, &before, pos2) } else { root_at(s0, &before, pos) };
                                    opened = opened.insert(Maze::wall(Dir::Down, pos));
                                    ks = ks.remove(other);
                                    assert forall|q: Pos| maze.in_bounds(q) && q.1 > y + 1 implies #[trigger] lone(roots_of(uf), w, h, q) by {
                                        assert(lone(s0, w, h, q));
                                    }
                                    assert forall|c: usize| c < w && y + 1 < h && !maze.open(Dir::Down, (c, y)) implies #[trigger] lone(roots_of(uf), w, h, (c, (y + 1) as usize)) by {
                                        assert(c != group[i as int]);
                                        assert(!before.open(Dir::Down, (c, y)));
                                        assert(lone(s0, w, h, (c, (y + 1) as usize)));
                                    }
                                    assert forall|g2: int, j: int| ((g < g2 < members@.len() && 0 <= j < members@[g2]@.len()) || (g2 == g && i + 1 <= j < members@[g2]@.len()))
                                        implies !maze.open(Dir::Down, (#[trigger] members@[g2]@[j], y)) by {
                                        assert(members@[g2]@[j] != members@[g as int]@[i as int]);
                                        assert(!before.open(Dir::Down, (members@[g2]@[j], y)));
                                    }
                                    lemma_merge_keeps(s0, w, h, a.0 as int, b.0 as int, r);
                                    assert(same_set(roots_of(uf), h, pos, pos2));
                                    assert forall|p: Pos| maze.in_bounds(p) && p.1 < y implies #[trigger] feeds(roots_of(uf), w, h, p, y) by {
                                        assert(feeds(s0, w, h, p, y));
                                    }
                                    assert forall|g2: int| 0 <= g2 < g && y + 1 < h implies #[trigger] feeds(roots_of(uf), w, h, (members@[g2]@[0], y), (y + 1) as usize) by {
                                        assert(members@[g2]@.len() > 0);
                                        assert(members@[g2]@[0] < w);
                                        assert(feeds(s0, w, h, (members@[g2]@[0], y), (y + 1) as usize));
                                    }
                                    assert forall|g2: int, i: int| 0 <= g2 < members@.len() && 0 <= i < members@[g2]@.len()
                                        implies #[trigger] same_set(roots_of(uf), h, (members@[g2]@[i], y), (members@[g2]@[0], y)) by {
                                        assert(same_set(s0, h, (members@[g2]@[i], y), (members@[g2]@[0], y)));
                                    }
                                    if y + 1 == h && w > 0 {
                                        assert forall|p: Pos| maze.in_bounds(p) implies #[trigger] same_set(roots_of(uf), h, p, (0usize, y)) by {
                                            assert(same_set(s0, h, p, (0usize, y)));
                                        }
                                    }
                                    if y + 1 < h {
                                        if group[i as int] == chosen {
                                            assert(rt(roots_of(uf), h, (chosen, (y + 1) as usize)) == rt(roots_of(uf), h, (chosen, y)));
                                        } else if exists|j: int| 0 <= j < i && group@[j] == chosen {
                                            assert(feeds(s0, w, h, (chosen, y), (y + 1) as usize));
                                        }
                                    }
                                    lemma_drops_kept(&before, &maze, Dir::Down, pos, w);
                                    assert(maze.open(Dir::Down, pos));
                                    assert(has_drop(&maze, y, w));
                                }
                            }
                        },
                        None => {},
                    }
                }
                proof {
                    if y + 1 < h {
                        let k = choose|k: int| 0 <= k < group@.len() && group@[k] == chosen;
                        assert(same_set(roots_of(uf), h, (group@[k], y), (group@[0], y)));
                        let s1 = roots_of(uf);
                        assert(feeds(s1, w, h, (chosen, y), (y + 1) as usize));
                        let x = choose|x: usize| x < w && #[trigger] rt(s1, h, (x, (y + 1) as usize)) == rt(s1, h, (chosen, y));
                        assert(rt(s1, h, (x, (y + 1) as usize)) == rt(s1, h, (members@[g as int]@[0], y)));
                    }
                }
                slot.set(group_roots[g], 0);
            }
            proof {
                let s1 = roots_of(uf);
                if y + 1 < h {
                    assert forall|p: Pos| maze.in_bounds(p) && p.1 < y + 1 implies #[trigger] feeds(s1, w, h, p, (y + 1) as usize) by {
                        let c: usize = if p.1 == y {
                            p.0
                        } else {
                            assert(feeds(s1, w, h, p, y));
                            choose|x: usize| x < w && #[trigger] rt(s1, h, (x, y)) == rt(s1, h, p)
                        };
                        assert(in_groups(members@, c));
                        let (g2, i) = choose|g2: int, i: int| 0 <= g2 < members@.len() && 0 <= i < members@[g2]@.len()
                            && #[trigger] members@[g2]@[i] == c;
                        assert(same_set(s1, h, (members@[g2]@[i], y), (members@[g2]@[0], y)));
                        assert(feeds(s1, w, h, (members@[g2]@[0], y), (y + 1) as usize));
                        let x = choose|x: usize| x < w && #[trigger] rt(s1, h, (x, (y + 1) as usize)) == rt(s1, h, (members@[g2]@[0], y));
                        assert(rt(s1, h, (x, (y + 1) as usize)) == rt(s1, h, p));
                    }
                }
            }
            y = y + 1;
        }
        proof {
            if w > 0 && h > 0 {
                let s1 = roots_of(uf);
                assert forall|p: Pos, q: Pos| maze.in_bounds(p) && maze.in_bounds(q) implies #[trigger] linked(&maze, p, q) by {
                    assert(same_set(s1, h, p, (0usize, (h - 1) as usize)));
                    assert(same_set(s1, h, q, (0usize, (h - 1) as usize)));
                }
                let last: Pos = (0usize, (h - 1) as usize);
                let k0 = index_of(h as int, last);
                lemma_index_of(w as int, h as int, last, last);
                assert(same_set(s1, h, last, last));
                assert forall|i: int| #[trigger] ks.contains(i) implies i == s1[k0] by {
                    lemma_cell_of_index(w as int, h as int, i);
                    let p: Pos = ((i / h as int) as usize, (i % h as int) as usize);
                    assert(same_set(s1, h, p, last));
                }
                assert(0 <= s1[k0] < s1.len() && s1[s1[k0]] == s1[k0]);
                assert(ks.contains(s1[k0]));
                assert(ks =~= set![s1[k0]]);
                assert(passages_are(&maze, opened));
            }
            assert(connected(&maze));
            assert forall|p: Pos| maze.in_bounds(p) && p.1 + 1 < h implies #[trigger] class_drops(&maze, p.1, p) by {
                lemma_classes_drop(&maze, p.1, p);
            }
        }
        maze
    }
}

} // verus!
