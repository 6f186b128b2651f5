//! The binary-tree algorithm: every cell opens one wall, towards one of two
//! sides fixed by a chosen corner.
use vstd::prelude::*;
use rand::rngs::StdRng;
use crate::maze::{connected, lemma_perfect_or_empty_connected, passages_are, Wall, Dir, Generator, Maze, Pos, Size, is_perfect, rooted_tree};
use crate::rng::chance;

verus! {

/// The corner that every passage leads towards.
#[derive(Clone, Copy, Debug, PartialEq, Eq)]
pub enum Direction {
    Southeast,
    Southwest,
    Northwest,
    Northeast,
}

impl Direction {
    /// The vertical and the horizontal move towards the corner.
    pub open spec fn moves_spec(self) -> (Dir, Dir) {
        match self {
            Direction::Southeast => (Dir::Down, Dir::Right),
            Direction::Southwest => (Dir::Down, Dir::Left),
            Direction::Northwest => (Dir::Up, Dir::Left),
            Direction::Northeast => (Dir::Up, Dir::Right),
        }
    }

    pub fn moves(self) -> (r: (Dir, Dir))
        ensures
            r == self.moves_spec(),
    {
        match self {
            Direction::Southeast => (Dir::Down, Dir::Right),
            Direction::Southwest => (Dir::Down, Dir::Left),
            Direction::Northwest => (Dir::Up, Dir::Left),
            Direction::Northeast => (Dir::Up, Dir::Right),
        }
    }
}

impl Direction {
    /// The corner cell of a `w x h` grid that every passage leads towards.
    pub open spec fn corner(self, w: usize, h: usize) -> Pos {
        let (v, hz) = self.moves_spec();
        (
            (if hz == Dir::Right { w - 1 } else { 0 }) as usize,
            (if v == Dir::Down { h - 1 } else { 0 }) as usize,
        )
    }

    /// Steps from `p` to the corner, on a grid without walls.
    pub open spec fn rank(self, w: usize, h: usize, p: Pos) -> nat {
        let (v, hz) = self.moves_spec();
        ((if hz == Dir::Right { w - 1 - p.0 } else { p.0 as int })
            + (if v == Dir::Down { h - 1 - p.1 } else { p.1 as int })) as nat
    }
}

/// Cell `p` has opened exactly one of its walls towards the corner, or none
/// if it is the corner.
pub open spec fn carved(m: &Maze, v: Dir, hz: Dir, p: Pos) -> bool {
    if m.step(v, p) is None && m.step(hz, p) is None {
        !m.open(v, p) && !m.open(hz, p)
    } else {
        m.open(v, p) != m.open(hz, p)
    }
}

/// The parent of a cell: its open wall towards the corner.
pub open spec fn parent(m: &Maze, v: Dir, hz: Dir, p: Pos) -> Dir {
    if m.open(v, p) { v } else { hz }
}

proof fn lemma_parents_descend(m: &Maze, dirn: Direction, p: Pos)
    requires
        m.in_bounds(p),
        p != dirn.corner(m.width(), m.height()),
        carved(m, dirn.moves_spec().0, dirn.moves_spec().1, p),
    ensures
        m.open(parent(m, dirn.moves_spec().0, dirn.moves_spec().1, p), p),
        dirn.rank(m.width(), m.height(), m.step(parent(m, dirn.moves_spec().0, dirn.moves_spec().1, p), p)->0)
            < dirn.rank(m.width(), m.height(), p),
{
    match dirn {
        Direction::Southeast => {},
        Direction::Southwest => {},
        Direction::Northwest => {},
        Direction::Northeast => {},
    }
}

proof fn lemma_open_is_parent_link(m: &Maze, dirn: Direction, p: Pos, d: Dir)
    requires
        m.in_bounds(p),
        m.open(d, p),
        forall|q: Pos| #[trigger] m.in_bounds(q) ==> carved(m, dirn.moves_spec().0, dirn.moves_spec().1, q),
    ensures
        ({
            let (v, hz) = dirn.moves_spec();
            let root = dirn.corner(m.width(), m.height());
            ||| p != root && d == parent(m, v, hz, p)
            ||| m.step(d, p)->0 != root && parent(m, v, hz, m.step(d, p)->0) == d.opposite_spec()
        }),
{
    let (v, hz) = dirn.moves_spec();
    assert(carved(m, v, hz, p));
    crate::maze::lemma_edge_symmetry(m, d, p);
    let q = m.step(d, p)->0;
    assert(carved(m, v, hz, q));
    match dirn {
        Direction::Southeast => {},
        Direction::Southwest => {},
        Direction::Northwest => {},
        Direction::Northeast => {},
    }
}

/// A maze in which every cell but the corner opens exactly one of its walls
/// towards the corner is a spanning tree rooted at the corner.
proof fn lemma_carved_is_perfect(m: &Maze, dirn: Direction)
    requires
        m.width() > 0 && m.height() > 0,
        forall|p: Pos| #[trigger] m.in_bounds(p) ==> carved(m, dirn.moves_spec().0, dirn.moves_spec().1, p),
    ensures
        is_perfect(m),
{
    let (v, hz) = dirn.moves_spec();
    let w = m.width();
    let h = m.height();
    let root = dirn.corner(w, h);
    let up = |p: Pos| parent(m, v, hz, p);
    let rank = |p: Pos| dirn.rank(w, h, p);
    assert forall|p: Pos| #[trigger] m.in_bounds(p) && p != root implies {
        &&& m.open(up(p), p)
        &&& rank(m.step(up(p), p)->0) < rank(p)
    } by {
        lemma_parents_descend(m, dirn, p);
    }
    assert forall|p: Pos, d: Dir| m.in_bounds(p) && #[trigger] m.open(d, p) implies {
        ||| p != root && d == up(p)
        ||| m.step(d, p)->0 != root && up(m.step(d, p)->0) == d.opposite_spec()
    } by {
        lemma_open_is_parent_link(m, dirn, p, d);
    }
    assert(rooted_tree(m, root, up, rank));
}

pub struct BinaryTree(pub Direction);

impl Generator for BinaryTree {
    open spec fn accepts(&self, size: Size) -> bool {
        true
    }

    fn keys_cells(&self) -> (r: bool) {
        false
    }

    fn generate(&self, rng: &mut StdRng, size: Size) -> (m: Maze)
        ensures
            forall|p: Pos| #[trigger] m.in_bounds(p) ==> carved(&m, self.0.moves_spec().0, self.0.moves_spec().1, p),
            size.0 > 0 && size.1 > 0 ==> is_perfect(&m),
            connected(&m),
            size.0 > 0 && size.1 > 0 ==> exists|ws: Set<Wall>| #[trigger] passages_are(&m, ws) && ws.finite()
                && ws.len() == size.0 * size.1 - 1,
    {
        let (w, h) = size;
        let mut maze = Maze::new(size, false);
        let (vdir, hdir) = self.0.moves();
        assert forall|p: Pos| #[trigger] maze.in_bounds(p) implies !maze.open(vdir, p) && !maze.open(hdir, p) by {
            assert(maze.step(vdir, p) is Some ==> maze.interior(Maze::wall(vdir, p)));
            assert(maze.step(hdir, p) is Some ==> maze.interior(Maze::wall(hdir, p)));
        }
        for x in 0..w
            invariant
                maze.width() == w,
                maze.height() == h,
                (vdir, hdir) == self.0.moves_spec(),
                forall|p: Pos| #[trigger] maze.in_bounds(p) ==> if p.0 < x {
                    carved(&maze, vdir, hdir, p)
                } else {
                    !maze.open(vdir, p) && !maze.open(hdir, p)
                },
        {
            for y in 0..h
                invariant
                    x < w,
                    maze.width() == w,
                    maze.height() == h,
                    (vdir, hdir) == self.0.moves_spec(),
                    forall|p: Pos| #[trigger] maze.in_bounds(p) ==> if p.0 < x || (p.0 == x && p.1 < y) {
                        carved(&maze, vdir, hdir, p)
                    } else {
                        !maze.open(vdir, p) && !maze.open(hdir, p)
                    },
            {
                let ghost before = maze;
                let pos = (x, y);
                let can_v = maze.shift(vdir, pos).is_some();
                let can_h = maze.shift(hdir, pos).is_some();
                if can_v && can_h {
                    let dir = if chance(rng, 1, 2) { vdir } else { hdir };
                    maze.set_open(dir, pos, true);
                } else if can_v {
                    maze.set_open(vdir, pos, true);
                } else if can_h {
                    maze.set_open(hdir, pos, true);
                }
                assert forall|p: Pos| #[trigger] maze.in_bounds(p) implies if p.0 < x || (p.0 == x && p.1 <= y) {
                    carved(&maze, vdir, hdir, p)
                } else {
                    !maze.open(vdir, p) && !maze.open(hdir, p)
                } by {
                    assert(before.in_bounds(p));
                    if p != pos {
                        assert(Maze::wall(vdir, p) != Maze::wall(vdir, pos));
                        assert(Maze::wall(vdir, p) != Maze::wall(hdir, pos));
                        assert(Maze::wall(hdir, p) != Maze::wall(vdir, pos));
                        assert(Maze::wall(hdir, p) != Maze::wall(hdir, pos));
                        assert(maze.open(vdir, p) == before.open(vdir, p));
                        assert(maze.open(hdir, p) == before.open(hdir, p));
                    }
                }
            }
        }
        proof {
            if w > 0 && h > 0 {
                lemma_carved_is_perfect(&maze, self.0);
            }
        }
        proof {
            lemma_perfect_or_empty_connected(&maze);
        }
        maze
    }
}

} // verus!
