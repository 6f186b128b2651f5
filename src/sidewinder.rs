//! The sidewinder algorithm: each row is cut into runs of open east walls, and
//! every run opens one north wall; the top row is a single run.
use vstd::prelude::*;
use rand::rngs::StdRng;
use crate::maze::{connected, lemma_perfect_or_empty_connected, passages_are, Wall, Dir, Generator, Maze, Pos, Size, is_perfect, lemma_all_closed, lemma_edge_symmetry, lemma_one_wall, rooted_tree};
use crate::rng::{below, chance};

verus! {

pub struct SideWinder;

/// Every east wall of row `y` from column `a` up to column `b` is open.
pub open spec fn joined(m: &Maze, y: usize, a: usize, b: usize) -> bool {
    forall|i: usize| a <= i < b ==> #[trigger] m.open(Dir::Right, (i, y))
}

/// Columns `c` and `k` of row `y` lie in one run.
pub open spec fn same_run(m: &Maze, y: usize, c: usize, k: usize) -> bool {
    if c <= k { joined(m, y, c, k) } else { joined(m, y, k, c) }
}

/// The run of column `c` in row `y` opens a north wall.
pub open spec fn has_exit(m: &Maze, y: usize, c: usize) -> bool {
    exists|k: usize| k < m.width() && m.open(Dir::Up, (k, y)) && #[trigger] same_run(m, y, c, k)
}

/// Row `y` is cut into runs, each of which opens exactly one north wall.
pub open spec fn row_done(m: &Maze, y: usize) -> bool {
    &&& forall|c: usize| c < m.width() ==> #[trigger] has_exit(m, y, c)
    &&& forall|j: usize, k: usize| j < k < m.width() && #[trigger] m.open(Dir::Up, (j, y))
        && #[trigger] m.open(Dir::Up, (k, y)) ==> !joined(m, y, j, k)
}

/// The north wall that the run of cell `p` opens.
spec fn exit_of(m: &Maze, p: Pos) -> usize {
    choose|k: usize| k < m.width() && m.open(Dir::Up, (k, p.1)) && #[trigger] same_run(m, p.1, p.0, k)
}

proof fn lemma_exit_unique(m: &Maze, y: usize, c: usize, k1: usize, k2: usize)
    requires
        row_done(m, y),
        k1 < m.width() && k2 < m.width(),
        m.open(Dir::Up, (k1, y)) && m.open(Dir::Up, (k2, y)),
        same_run(m, y, c, k1) && same_run(m, y, c, k2),
    ensures
        k1 == k2,
{
    if k1 < k2 {
        assert forall|i: usize| k1 <= i < k2 implies #[trigger] m.open(Dir::Right, (i, y)) by {
            if i < c {
                assert(joined(m, y, k1, c));
            } else {
                assert(joined(m, y, c, k2));
            }
        }
        assert(joined(m, y, k1, k2));
    } else if k2 < k1 {
        assert forall|i: usize| k2 <= i < k1 implies #[trigger] m.open(Dir::Right, (i, y)) by {
            if i < c {
                assert(joined(m, y, k2, c));
            } else {
                assert(joined(m, y, c, k1));
            }
        }
        assert(joined(m, y, k2, k1));
    }
}

/// The exit of a cell is also the exit of its neighbours in the same run.
proof fn lemma_exit_of(m: &Maze, p: Pos)
    requires
        m.in_bounds(p),
        p.1 > 0,
        row_done(m, p.1),
    ensures
        exit_of(m, p) < m.width(),
        m.open(Dir::Up, (exit_of(m, p), p.1)),
        same_run(m, p.1, p.0, exit_of(m, p)),
        m.open(Dir::Up, p) ==> exit_of(m, p) == p.0,
        m.open(Dir::Right, p) ==> exit_of(m, ((p.0 + 1) as usize, p.1)) == exit_of(m, p),
{
    let y = p.1;
    assert(has_exit(m, y, p.0));
    let k = exit_of(m, p);
    if m.open(Dir::Up, p) {
        assert(same_run(m, y, p.0, p.0));
        lemma_exit_unique(m, y, p.0, k, p.0);
    }
    if m.open(Dir::Right, p) {
        let q: Pos = ((p.0 + 1) as usize, y);
        assert(m.in_bounds(q));
        assert(has_exit(m, y, q.0));
        let k2 = exit_of(m, q);
        if k <= p.0 {
            assert forall|i: usize| k <= i < q.0 implies #[trigger] m.open(Dir::Right, (i, y)) by {
                if i < p.0 {
                    assert(joined(m, y, k, p.0));
                }
            }
            assert(same_run(m, y, q.0, k));
        } else {
            assert(same_run(m, y, q.0, k));
        }
        lemma_exit_unique(m, y, q.0, k, k2);
    }
}

spec fn up_of(m: &Maze, p: Pos) -> Dir {
    if p.1 == 0 {
        Dir::Left
    } else if exit_of(m, p) == p.0 {
        Dir::Up
    } else if exit_of(m, p) > p.0 {
        Dir::Right
    } else {
        Dir::Left
    }
}

spec fn offset_of(m: &Maze, p: Pos) -> int {
    if p.1 == 0 {
        p.0 as int
    } else if exit_of(m, p) >= p.0 {
        exit_of(m, p) - p.0
    } else {
        p.0 - exit_of(m, p)
    }
}

spec fn rank_of(m: &Maze, p: Pos) -> nat {
    (p.1 * (m.width() + 1) + offset_of(m, p)) as nat
}

proof fn lemma_offset_bound(m: &Maze, p: Pos)
    requires
        m.in_bounds(p),
        p.1 > 0 ==> row_done(m, p.1),
    ensures
        0 <= offset_of(m, p) < m.width(),
{
    if p.1 > 0 {
        lemma_exit_of(m, p);
    }
}

proof fn lemma_parent_descends(m: &Maze, p: Pos)
    requires
        m.width() > 0,
        m.in_bounds(p),
        p != (0usize, 0usize),
        joined(m, 0, 0, (m.width() - 1) as usize),
        forall|y: usize| 0 < y < m.height() ==> #[trigger] row_done(m, y),
    ensures
        m.open(up_of(m, p), p),
        rank_of(m, m.step(up_of(m, p), p)->0) < rank_of(m, p),
{
    let w = m.width() as int;
    let y = p.1;
    lemma_offset_bound(m, p);
    if y == 0 {
        let q: Pos = ((p.0 - 1) as usize, 0);
        assert(m.open(Dir::Right, q));
        lemma_edge_symmetry(m, Dir::Right, q);
    } else {
        assert(row_done(m, y));
        lemma_exit_of(m, p);
        let k = exit_of(m, p);
        if k == p.0 {
            let q: Pos = (p.0, (y - 1) as usize);
            if q.1 > 0 {
                assert(row_done(m, q.1));
            }
            lemma_offset_bound(m, q);
            assert((y - 1) * (w + 1) + w < y * (w + 1)) by (nonlinear_arith);
        } else if k > p.0 {
            assert(joined(m, y, p.0, k));
            assert(m.open(Dir::Right, p));
            lemma_exit_of(m, p);
        } else {
            let q: Pos = ((p.0 - 1) as usize, y);
            assert(joined(m, y, k, p.0));
            assert(m.open(Dir::Right, q));
            lemma_edge_symmetry(m, Dir::Right, q);
            lemma_exit_of(m, q);
        }
    }
}

proof fn lemma_open_is_link(m: &Maze, p: Pos, d: Dir)
    requires
        m.width() > 0,
        m.in_bounds(p),
        m.open(d, p),
        joined(m, 0, 0, (m.width() - 1) as usize),
        forall|y: usize| 0 < y < m.height() ==> #[trigger] row_done(m, y),
    ensures
        (p != (0usize, 0usize) && d == up_of(m, p))
            || (m.step(d, p)->0 != (0usize, 0usize) && up_of(m, m.step(d, p)->0) == d.opposite_spec()),
{
    lemma_edge_symmetry(m, d, p);
    let q = m.step(d, p)->0;
    match d {
        Dir::Right => {
            if p.1 > 0 {
                assert(row_done(m, p.1));
                lemma_exit_of(m, p);
                lemma_exit_of(m, q);
            }
        },
        Dir::Left => {
            if p.1 > 0 {
                assert(row_done(m, p.1));
                lemma_exit_of(m, p);
                lemma_exit_of(m, q);
            }
        },
        Dir::Up => {
            assert(row_done(m, p.1));
            lemma_exit_of(m, p);
        },
        Dir::Down => {
            assert(row_done(m, q.1));
            lemma_exit_of(m, q);
        },
    }
}

/// A maze whose top row is one corridor and whose other rows are cut into
/// runs that each open one north wall is a spanning tree rooted at the
/// top-left cell.
proof fn lemma_runs_are_perfect(m: &Maze)
    requires
        m.width() > 0 && m.height() > 0,
        joined(m, 0, 0, (m.width() - 1) as usize),
        forall|y: usize| 0 < y < m.height() ==> #[trigger] row_done(m, y),
    ensures
        is_perfect(m),
{
    let root: Pos = (0, 0);
    let up = |p: Pos| up_of(m, p);
    let rank = |p: Pos| rank_of(m, p);
    assert forall|p: Pos| #[trigger] m.in_bounds(p) && p != root implies {
        &&& m.open(up(p), p)
        &&& rank(m.step(up(p), p)->0) < rank(p)
    } by {
        lemma_parent_descends(m, p);
    }
    assert forall|p: Pos, d: Dir| m.in_bounds(p) && #[trigger] m.open(d, p) implies {
        ||| p != root && d == up(p)
        ||| m.step(d, p)->0 != root && up(m.step(d, p)->0) == d.opposite_spec()
    } by {
        lemma_open_is_link(m, p, d);
    }
    assert(rooted_tree(m, root, up, rank));
}

/// Row `y` reads the same in both grids.
pub open spec fn row_same(a: &Maze, b: &Maze, y: usize) -> bool {
    &&& forall|i: usize| #[trigger] b.open(Dir::Right, (i, y)) == a.open(Dir::Right, (i, y))
    &&& forall|i: usize| #[trigger] b.open(Dir::Up, (i, y)) == a.open(Dir::Up, (i, y))
}

proof fn lemma_row_same(a: &Maze, b: &Maze, y: usize)
    requires
        a.width() == b.width(),
        row_same(a, b, y),
        row_done(a, y),
    ensures
        row_done(b, y),
{
    assert forall|c: usize| c < b.width() implies #[trigger] has_exit(b, y, c) by {
        assert(has_exit(a, y, c));
        let k = choose|k: usize| k < a.width() && a.open(Dir::Up, (k, y)) && #[trigger] same_run(a, y, c, k);
        assert(same_run(b, y, c, k));
    }
    assert forall|j: usize, k: usize| j < k < b.width() && #[trigger] b.open(Dir::Up, (j, y))
        && #[trigger] b.open(Dir::Up, (k, y)) implies !joined(b, y, j, k) by {
        assert(!joined(a, y, j, k));
        let i = choose|i: usize| j <= i < k && !#[trigger] a.open(Dir::Right, (i, y));
        assert(!b.open(Dir::Right, (i, y)));
    }
}

impl Generator for SideWinder {
    open spec fn accepts(&self, size: Size) -> bool {
        true
    }

    fn keys_cells(&self) -> (r: bool) {
        false
    }

    fn generate(&self, rng: &mut StdRng, size: Size) -> (m: Maze)
        ensures
            size.0 > 0 && size.1 > 0 ==> joined(&m, 0, 0, (size.0 - 1) as usize),
            forall|y: usize| 0 < y < size.1 ==> #[trigger] row_done(&m, y),
            size.0 > 0 && size.1 > 0 ==> is_perfect(&m),
            connected(&m),
            size.0 > 0 && size.1 > 0 ==> exists|ws: Set<Wall>| #[trigger] passages_are(&m, ws) && ws.finite()
                && ws.len() == size.0 * size.1 - 1,
    {
        let (w, h) = size;
        let mut maze = Maze::new(size, false);
        proof {
            lemma_all_closed(&maze);
        }
        // A run ends at each cell with probability 1 / (diffusion + 1).
        let diffusion: u32 = if chance(rng, 1, 2) { 4 } else { 1 };
        if h > 0 && w > 0 {
            for x in 0..w - 1
                invariant
                    maze.width() == w,
                    maze.height() == h,
                    h > 0 && w > 0,
                    joined(&maze, 0, 0, x),
                    forall|p: Pos| maze.in_bounds(p) && p.1 >= 1 ==> !#[trigger] maze.open(Dir::Right, p),
                    forall|p: Pos| maze.in_bounds(p) && p.1 >= 1 ==> !#[trigger] maze.open(Dir::Up, p),
            {
                let ghost before = maze;
                maze.set_open(Dir::Right, (x, 0), true);
                proof {
                    lemma_one_wall(&before, &maze, Maze::wall(Dir::Right, (x, 0)));
                    assert forall|p: Pos| maze.in_bounds(p) && p.1 >= 1 implies !#[trigger] maze.open(Dir::Right, p) by {
                        assert(!before.open(Dir::Right, p));
                        assert(Maze::wall(Dir::Right, p) != Maze::wall(Dir::Right, (x, 0)));
                    }
                    assert forall|p: Pos| maze.in_bounds(p) && p.1 >= 1 implies !#[trigger] maze.open(Dir::Up, p) by {
                        assert(!before.open(Dir::Up, p));
                        assert(Maze::wall(Dir::Up, p) != Maze::wall(Dir::Right, (x, 0)));
                    }
                    assert forall|i: usize| 0 <= i < x + 1 implies #[trigger] maze.open(Dir::Right, (i, 0usize)) by {
                        if i < x {
                            assert(before.open(Dir::Right, (i, 0usize)));
                        }
                    }
                }
            }
        }
        let mut y: usize = 1;
        while y < h
            invariant
                maze.width() == w,
                maze.height() == h,
                diffusion <= 4,
                y >= 1,
                w > 0 && h > 0 ==> joined(&maze, 0, 0, (w - 1) as usize),
                forall|r: usize| 0 < r < y && r < h ==> #[trigger] row_done(&maze, r),
                forall|p: Pos| maze.in_bounds(p) && p.1 >= y ==> !#[trigger] maze.open(Dir::Right, p),
                forall|p: Pos| maze.in_bounds(p) && p.1 >= y ==> !#[trigger] maze.open(Dir::Up, p),
            decreases h - y,
        {
            let ghost snap = maze;
            let mut run: usize = 0;
            assert forall|i: usize| i < w implies !#[trigger] maze.open(Dir::Up, (i, y)) by {
                assert(maze.in_bounds((i, y)));
            }
            assert forall|i: usize| i < w implies !#[trigger] maze.open(Dir::Right, (i, y)) by {
                assert(maze.in_bounds((i, y)));
            }
            for x in 0..w
                invariant
                    0 < y < h,
                    maze.width() == w,
                    maze.height() == h,
                    diffusion <= 4,
                    run <= x,
                    x == w && w > 0 ==> run == w,
                    forall|c: usize| c < run ==> #[trigger] has_exit(&maze, y, c),
                    forall|j: usize, k: usize| j < k < w && #[trigger] maze.open(Dir::Up, (j, y))
                        && #[trigger] maze.open(Dir::Up, (k, y)) ==> !joined(&maze, y, j, k),
                    joined(&maze, y, run, x),
                    run > 0 ==> !maze.open(Dir::Right, ((run - 1) as usize, y)),
                    forall|i: usize| x <= i < w ==> !#[trigger] maze.open(Dir::Right, (i, y)),
                    forall|i: usize| run <= i < w ==> !#[trigger] maze.open(Dir::Up, (i, y)),
                    forall|r: usize| r != y ==> #[trigger] row_same(&snap, &maze, r),
            {
                let ghost before = maze;
                if x + 1 == w || chance(rng, 1, diffusion + 1) {
                    let k = below(rng, run, x + 1);
                    maze.set_open(Dir::Up, (k, y), true);
                    proof {
                        lemma_one_wall(&before, &maze, Maze::wall(Dir::Up, (k, y)));
                        assert forall|c: usize| c < x + 1 implies #[trigger] has_exit(&maze, y, c) by {
                            if c < run {
                                assert(has_exit(&before, y, c));
                                let k2 = choose|k2: usize| k2 < w && before.open(Dir::Up, (k2, y)) && #[trigger] same_run(&before, y, c, k2);
                                assert(k2 < run);
                                assert(same_run(&maze, y, c, k2));
                            } else {
                                assert(same_run(&maze, y, c, k));
                            }
                        }
                        assert forall|j: usize, k2: usize| j < k2 < w && #[trigger] maze.open(Dir::Up, (j, y))
                            && #[trigger] maze.open(Dir::Up, (k2, y)) implies !joined(&maze, y, j, k2) by {
                            if k2 == k {
                                assert(j < run);
                                assert(!maze.open(Dir::Right, ((run - 1) as usize, y)));
                            } else {
                                assert(!joined(&before, y, j, k2));
                                let i = choose|i: usize| j <= i < k2 && !#[trigger] before.open(Dir::Right, (i, y));
                                assert(!maze.open(Dir::Right, (i, y)));
                            }
                        }
                        assert forall|r: usize| r != y implies #[trigger] row_same(&snap, &maze, r) by {
                            assert(row_same(&snap, &before, r));
                        }
                    }
                    run = x + 1;
                } else {
                    maze.set_open(Dir::Right, (x, y), true);
                    proof {
                        lemma_one_wall(&before, &maze, Maze::wall(Dir::Right, (x, y)));
                        assert forall|c: usize| c < run implies #[trigger] has_exit(&maze, y, c) by {
                            assert(has_exit(&before, y, c));
                            let k2 = choose|k2: usize| k2 < w && before.open(Dir::Up, (k2, y)) && #[trigger] same_run(&before, y, c, k2);
                            assert(k2 < run);
                            assert(same_run(&maze, y, c, k2));
                        }
                        assert forall|j: usize, k2: usize| j < k2 < w && #[trigger] maze.open(Dir::Up, (j, y))
                            && #[trigger] maze.open(Dir::Up, (k2, y)) implies !joined(&maze, y, j, k2) by {
                            assert(k2 < run);
                            assert(!joined(&before, y, j, k2));
                            let i = choose|i: usize| j <= i < k2 && !#[trigger] before.open(Dir::Right, (i, y));
                            assert(!maze.open(Dir::Right, (i, y)));
                        }
                        assert forall|r: usize| r != y implies #[trigger] row_same(&snap, &maze, r) by {
                            assert(row_same(&snap, &before, r));
                        }
                    }
                }
            }
            proof {
                assert forall|r: usize| 0 < r < y + 1 && r < h implies #[trigger] row_done(&maze, r) by {
                    if r < y {
                        assert(row_done(&snap, r));
                        assert(row_same(&snap, &maze, r));
                        lemma_row_same(&snap, &maze, r);
                    }
                }
                if w > 0 {
                    assert(row_same(&snap, &maze, 0));
                    assert(joined(&maze, 0, 0, (w - 1) as usize));
                }
                assert forall|p: Pos| maze.in_bounds(p) && p.1 >= y + 1 implies !#[trigger] maze.open(Dir::Right, p) by {
                    assert(row_same(&snap, &maze, p.1));
                }
                assert forall|p: Pos| maze.in_bounds(p) && p.1 >= y + 1 implies !#[trigger] maze.open(Dir::Up, p) by {
                    assert(row_same(&snap, &maze, p.1));
                }
            }
            y = y + 1;
        }
        proof {
            if w > 0 && h > 0 {
                lemma_runs_are_perfect(&maze);
            }
        }
        proof {
            lemma_perfect_or_empty_connected(&maze);
        }
        maze
    }
}

} // verus!
