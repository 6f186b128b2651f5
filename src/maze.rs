//! The grid: a `w x h` lattice of cells whose walls are open or closed.
//!
//! Every cell owns two walls, the one to its east and the one to its south;
//! the west and north walls of a cell are the east and south walls of its
//! neighbours. Walls on the perimeter of the grid always read as closed.
use vstd::prelude::*;
use vstd::string::StringExecFns;
use ndarray::Array2;
use rand::rngs::StdRng;

verus! {

/// One of the four moves on the lattice; `x` grows to the right, `y` downwards.
#[derive(Clone, Copy, Debug, PartialEq, Eq)]
pub enum Dir {
    Right,
    Down,
    Left,
    Up,
}

/// A cell, as `(x, y)`.
pub type Pos = (usize, usize);

/// Grid dimensions, as `(width, height)`.
pub type Size = (usize, usize);

impl Dir {
    pub open spec fn opposite_spec(self) -> Dir {
        match self {
            Dir::Right => Dir::Left,
            Dir::Down => Dir::Up,
            Dir::Left => Dir::Right,
            Dir::Up => Dir::Down,
        }
    }

    /// The direction that undoes this one.
    pub fn opposite(self) -> (r: Dir)
        ensures
            r == self.opposite_spec(),
    {
        match self {
            Dir::Right => Dir::Left,
            Dir::Down => Dir::Up,
            Dir::Left => Dir::Right,
            Dir::Up => Dir::Down,
        }
    }
}

/// The wall storage: one `(east, south)` pair per cell, in a 2-D array.
#[verifier::external_body]
pub struct WallArray {
    cells: Array2<(bool, bool)>,
}

/// What a wall array holds: the `(east, south)` pair stored for each cell.
pub uninterp spec fn walls_of(a: WallArray) -> Map<(int, int), (bool, bool)>;

/// The shape a wall array was made with, as `(rows, columns)`.
pub uninterp spec fn shape_of(a: WallArray) -> (nat, nat);

impl WallArray {
    /// Relies on `ndarray::Array2::from_elem`: a `w x h` array with every
    /// element equal to the given one; it panics when the product of the
    /// non-zero extents overflows `isize`.
    #[verifier::external_body]
    pub(crate) fn filled(w: usize, h: usize, v: (bool, bool)) -> (r: WallArray)
        requires
            w <= isize::MAX,
            h <= isize::MAX,
            w * h <= isize::MAX,
        ensures
            shape_of(r) == (w as nat, h as nat),
            forall|x: int, y: int|
                0 <= x < w && 0 <= y < h ==> #[trigger] walls_of(r)[(x, y)] == v,
    {
        WallArray { cells: Array2::from_elem((w, h), v) }
    }

    /// Relies on `ndarray::ArrayBase::nrows`: the first extent of the shape.
    #[verifier::external_body]
    pub(crate) fn rows(&self) -> (r: usize)
        ensures
            r == shape_of(*self).0,
    {
        self.cells.nrows()
    }

    /// Relies on `ndarray::ArrayBase::ncols`: the second extent of the shape.
    #[verifier::external_body]
    pub(crate) fn cols(&self) -> (r: usize)
        ensures
            r == shape_of(*self).1,
    {
        self.cells.ncols()
    }

    /// Relies on `Index<(usize, usize)>` of `ndarray::ArrayBase`: the element
    /// at `(x, y)`; it panics out of bounds.
    #[verifier::external_body]
    pub(crate) fn get(&self, x: usize, y: usize) -> (r: (bool, bool))
        requires
            x < shape_of(*self).0,
            y < shape_of(*self).1,
        ensures
            r == walls_of(*self)[(x as int, y as int)],
    {
        self.cells[(x, y)]
    }

    /// Relies on `IndexMut<(usize, usize)>` of `ndarray::ArrayBase`: writes the
    /// element at `(x, y)` and nothing else; it panics out of bounds.
    #[verifier::external_body]
    pub(crate) fn set(&mut self, x: usize, y: usize, v: (bool, bool))
        requires
            x < shape_of(*old(self)).0,
            y < shape_of(*old(self)).1,
        ensures
            shape_of(*final(self)) == shape_of(*old(self)),
            walls_of(*final(self)) == walls_of(*old(self)).insert((x as int, y as int), v),
        no_unwind
    {
        self.cells[(x, y)] = v;
    }
}

/// A wall named by its owner: `(x, y, true)` is the east wall of `(x, y)`,
/// `(x, y, false)` its south wall.
pub type Wall = (int, int, bool);

pub struct Maze {
    data: WallArray,
}

/// The position of cell `p` in a row-major listing of a grid of height `h`.
pub open spec fn index_of(h: int, p: Pos) -> int {
    p.0 * h + p.1
}

/// Cells of a `w x h` grid have distinct indices, all below `w * h`.
pub proof fn lemma_index_of(w: int, h: int, p: Pos, q: Pos)
    requires
        p.0 < w && p.1 < h,
        q.0 < w && q.1 < h,
    ensures
        0 <= index_of(h, p) < w * h,
        index_of(h, p) == index_of(h, q) ==> p == q,
{
    assert(0 <= p.0 * h + p.1 < w * h) by (nonlinear_arith)
        requires
            0 <= p.0 < w && 0 <= p.1 < h,
    ;
    if p.0 < q.0 {
        assert(p.0 * h + p.1 < q.0 * h + q.1) by (nonlinear_arith)
            requires
                p.0 < q.0 && 0 <= p.1 < h && 0 <= q.1,
        ;
    } else if q.0 < p.0 {
        assert(q.0 * h + q.1 < p.0 * h + p.1) by (nonlinear_arith)
            requires
                q.0 < p.0 && 0 <= q.1 < h && 0 <= p.1,
        ;
    }
}

impl Maze {
    #[verifier::type_invariant]
    spec fn fits(self) -> bool {
        &&& shape_of(self.data).0 <= usize::MAX
        &&& shape_of(self.data).1 <= usize::MAX
        &&& shape_of(self.data).0 * shape_of(self.data).1 <= isize::MAX
    }

    /// Number of columns.
    pub closed spec fn width(&self) -> usize {
        shape_of(self.data).0 as usize
    }

    /// Number of rows.
    pub closed spec fn height(&self) -> usize {
        shape_of(self.data).1 as usize
    }

    /// The stored flag of a wall, whether or not it lies on the perimeter.
    pub closed spec fn stored(&self, wall: Wall) -> bool {
        if wall.2 {
            walls_of(self.data)[(wall.0, wall.1)].0
        } else {
            walls_of(self.data)[(wall.0, wall.1)].1
        }
    }

    pub open spec fn in_bounds(&self, p: Pos) -> bool {
        p.0 < self.width() && p.1 < self.height()
    }

    /// The neighbour of `p` in direction `d`, if it lies on the grid.
    pub open spec fn step(&self, d: Dir, p: Pos) -> Option<Pos> {
        match d {
            Dir::Right => if p.0 + 1 < self.width() { Some(((p.0 + 1) as usize, p.1)) } else { None },
            Dir::Down => if p.1 + 1 < self.height() { Some((p.0, (p.1 + 1) as usize)) } else { None },
            Dir::Left => if p.0 > 0 { Some(((p.0 - 1) as usize, p.1)) } else { None },
            Dir::Up => if p.1 > 0 { Some((p.0, (p.1 - 1) as usize)) } else { None },
        }
    }

    /// The wall between `p` and its neighbour in direction `d`, named by its owner.
    pub open spec fn wall(d: Dir, p: Pos) -> Wall {
        match d {
            Dir::Right => (p.0 as int, p.1 as int, true),
            Dir::Down => (p.0 as int, p.1 as int, false),
            Dir::Left => (p.0 - 1, p.1 as int, true),
            Dir::Up => (p.0 as int, p.1 - 1, false),
        }
    }

    /// Whether one can pass from `p` in direction `d`: never across the perimeter.
    pub open spec fn open(&self, d: Dir, p: Pos) -> bool {
        self.step(d, p) is Some && self.stored(Self::wall(d, p))
    }

    /// An interior wall: one whose owner and the cell beyond both lie on the grid.
    pub open spec fn interior(&self, wall: Wall) -> bool {
        &&& 0 <= wall.0 && 0 <= wall.1
        &&& if wall.2 {
            wall.0 + 1 < self.width() && wall.1 < self.height()
        } else {
            wall.0 < self.width() && wall.1 + 1 < self.height()
        }
    }

    /// The same grid but for one wall.
    pub open spec fn same_but(&self, other: &Maze, wall: Wall) -> bool {
        &&& other.width() == self.width()
        &&& other.height() == self.height()
        &&& forall|w: Wall| w != wall ==> #[trigger] other.stored(w) == self.stored(w)
    }

    /// A `w x h` grid with every interior wall open or every one closed.
    pub fn new(size: Size, open: bool) -> (r: Maze)
        requires
            size.0 <= isize::MAX,
            size.1 <= isize::MAX,
            size.0 * size.1 <= isize::MAX,
        ensures
            r.width() == size.0,
            r.height() == size.1,
            forall|wall: Wall| #[trigger] r.interior(wall) ==> r.stored(wall) == open,
    {
        Maze { data: WallArray::filled(size.0, size.1, (open, open)) }
    }

    /// The neighbour of a cell in a direction, or `None` past the perimeter.
    pub fn shift(&self, dir: Dir, pos: Pos) -> (r: Option<Pos>)
        requires
            self.in_bounds(pos),
        ensures
            r == self.step(dir, pos),
    {
        let (x, y) = pos;
        match dir {
            Dir::Right => if x == self.w() - 1 { None } else { Some((x + 1, y)) },
            Dir::Down => if y == self.h() - 1 { None } else { Some((x, y + 1)) },
            Dir::Left => if x == 0 { None } else { Some((x - 1, y)) },
            Dir::Up => if y == 0 { None } else { Some((x, y - 1)) },
        }
    }

    /// The number of cells, `w * h`.
    pub fn cell_count(&self) -> (r: usize)
        ensures
            r == self.width() * self.height(),
    {
        proof {
            use_type_invariant(self);
        }
        self.w() * self.h()
    }

    /// The position of a cell in the row-major listing of the grid's cells.
    pub fn index(&self, p: Pos) -> (r: usize)
        requires
            self.in_bounds(p),
        ensures
            r == index_of(self.height() as int, p),
            r < self.width() * self.height(),
    {
        proof {
            use_type_invariant(self);
            lemma_index_of(self.width() as int, self.height() as int, p, p);
        }
        p.0 * self.h() + p.1
    }

    pub fn w(&self) -> (r: usize)
        ensures
            r == self.width(),
    {
        self.data.rows()
    }

    pub fn h(&self) -> (r: usize)
        ensures
            r == self.height(),
    {
        self.data.cols()
    }

    /// Whether the wall of `pos` in direction `dir` is open; perimeter walls
    /// are always closed.
    pub fn is_open(&self, dir: Dir, pos: Pos) -> (r: bool)
        requires
            self.in_bounds(pos),
        ensures
            r == self.open(dir, pos),
    {
        match self.shift(dir, pos) {
            None => false,
            Some(pos2) => match dir {
                Dir::Right => self.data.get(pos.0, pos.1).0,
                Dir::Down => self.data.get(pos.0, pos.1).1,
                Dir::Left => self.data.get(pos2.0, pos2.1).0,
                Dir::Up => self.data.get(pos2.0, pos2.1).1,
            },
        }
    }

    /// Opens or closes the wall of `pos` in direction `dir`, which must not lie
    /// on the perimeter. The wall is shared with the neighbour, which sees the
    /// change from the other side.
    pub fn set_open(&mut self, dir: Dir, pos: Pos, value: bool)
        requires
            old(self).in_bounds(pos),
            old(self).step(dir, pos) is Some,
        ensures
            old(self).same_but(final(self), Self::wall(dir, pos)),
            final(self).stored(Self::wall(dir, pos)) == value,
    {
        proof {
            use_type_invariant(&*self);
        }
        let pos2 = self.shift(dir, pos).unwrap();
        let (x, y) = match dir {
            Dir::Right | Dir::Down => pos,
            Dir::Left | Dir::Up => pos2,
        };
        let (east, south) = self.data.get(x, y);
        let cell = match dir {
            Dir::Right | Dir::Left => (value, south),
            Dir::Down | Dir::Up => (east, value),
        };
        self.data.set(x, y, cell);
        proof {
            let wall = Self::wall(dir, pos);
            assert forall|w: Wall| w != wall implies #[trigger] self.stored(w) == old(self).stored(w) by {
                if w.0 == wall.0 && w.1 == wall.1 {
                } else {
                    assert(walls_of(self.data)[(w.0, w.1)] == walls_of(old(self).data)[(w.0, w.1)]);
                }
            }
        }
    }
}

/// A maze-building strategy: from a random source and a size, a finished grid.
pub trait Generator {
    /// Sizes the strategy can build beyond what the grid itself allows; those
    /// that number cells with `u32` keys take at most `u32::MAX` cells.
    spec fn accepts(&self, size: Size) -> bool;

    /// Whether the strategy numbers cells with `u32` keys.
    fn keys_cells(&self) -> (r: bool)
        ensures
            forall|s: Size| #[trigger] self.accepts(s) <==> (r ==> s.0 * s.1 <= u32::MAX),
    ;

    fn generate(&self, rng: &mut StdRng, size: Size) -> (m: Maze)
        requires
            size.0 <= isize::MAX,
            size.1 <= isize::MAX,
            size.0 * size.1 <= isize::MAX,
            self.accepts(size),
        ensures
            m.width() == size.0,
            m.height() == size.1,
    ;
}

/// The wall shared by two neighbours is seen open, or closed, from both sides.
pub proof fn lemma_edge_symmetry(m: &Maze, d: Dir, p: Pos)
    requires
        m.in_bounds(p),
        m.step(d, p) is Some,
    ensures
        m.in_bounds(m.step(d, p)->0),
        m.step(d.opposite_spec(), m.step(d, p)->0) == Some(p),
        m.open(d, p) == m.open(d.opposite_spec(), m.step(d, p)->0),
{
    let q = m.step(d, p)->0;
    match d {
        Dir::Right => assert(q.0 == p.0 + 1 && q.1 == p.1),
        Dir::Down => assert(q.0 == p.0 && q.1 == p.1 + 1),
        Dir::Left => assert(q.0 + 1 == p.0 && q.1 == p.1),
        Dir::Up => assert(q.0 == p.0 && q.1 + 1 == p.1),
    }
}

/// No wall on the perimeter ever reads as open.
pub proof fn lemma_boundary_closed(m: &Maze, p: Pos)
    requires
        m.in_bounds(p),
    ensures
        p.0 + 1 == m.width() ==> !m.open(Dir::Right, p),
        p.1 + 1 == m.height() ==> !m.open(Dir::Down, p),
        p.0 == 0 ==> !m.open(Dir::Left, p),
        p.1 == 0 ==> !m.open(Dir::Up, p),
{
}

/// The open walls of `m` form a spanning tree rooted at `root`: every other
/// cell opens the wall towards its parent `up(p)`, which lies closer to the
/// root by `rank`, and no other wall is open. Following parents from any cell
/// reaches the root, so the maze is connected; the open walls are exactly one
/// per cell but the root, `w * h - 1` in all, so it has no cycle.
pub open spec fn rooted_tree(m: &Maze, root: Pos, up: spec_fn(Pos) -> Dir, rank: spec_fn(Pos) -> nat) -> bool {
    &&& m.in_bounds(root)
    &&& forall|p: Pos| #[trigger] m.in_bounds(p) && p != root ==> {
        &&& m.open(up(p), p)
        &&& rank(m.step(up(p), p)->0) < rank(p)
    }
    &&& forall|p: Pos, d: Dir| m.in_bounds(p) && #[trigger] m.open(d, p) ==> {
        ||| p != root && d == up(p)
        ||| m.step(d, p)->0 != root && up(m.step(d, p)->0) == d.opposite_spec()
    }
}

/// A perfect maze: its open walls form a spanning tree of its cells.
pub open spec fn is_perfect(m: &Maze) -> bool {
    exists|root: Pos, up: spec_fn(Pos) -> Dir, rank: spec_fn(Pos) -> nat| rooted_tree(m, root, up, rank)
}

/// Changing one wall changes what is open across that wall only.
pub proof fn lemma_one_wall(before: &Maze, after: &Maze, wall: Wall)
    requires
        before.same_but(after, wall),
    ensures
        forall|d: Dir, p: Pos| Maze::wall(d, p) != wall ==> #[trigger] after.open(d, p) == before.open(d, p),
{
}

/// In a grid made with every wall closed, nothing is open.
pub proof fn lemma_all_closed(m: &Maze)
    requires
        forall|wall: Wall| #[trigger] m.interior(wall) ==> !m.stored(wall),
    ensures
        forall|d: Dir, p: Pos| m.in_bounds(p) ==> !#[trigger] m.open(d, p),
{
    assert forall|d: Dir, p: Pos| m.in_bounds(p) implies !#[trigger] m.open(d, p) by {
        if m.step(d, p) is Some {
            assert(m.interior(Maze::wall(d, p)));
        }
    }
}

/// Two names of one interior wall: from the same cell in the same direction,
/// or from the cell beyond it in the opposite direction.
pub proof fn lemma_wall_ends(m: &Maze, d: Dir, p: Pos, d2: Dir, q: Pos)
    requires
        m.in_bounds(p),
        m.in_bounds(q),
        m.step(d, p) is Some,
        m.step(d2, q) is Some,
        Maze::wall(d, p) == Maze::wall(d2, q),
    ensures
        (q == p && d2 == d) || (q == m.step(d, p)->0 && d2 == d.opposite_spec()),
{
}

/// Opening one wall closes nothing, and opens nothing else.
pub proof fn lemma_open_more(before: &Maze, after: &Maze, wall: Wall)
    requires
        before.same_but(after, wall),
        after.stored(wall),
    ensures
        forall|d: Dir, p: Pos| #[trigger] after.open(d, p) == (before.open(d, p)
            || (before.step(d, p) is Some && Maze::wall(d, p) == wall)),
{
}

/// The top line of the drawing of `m`, over its first `upto` columns: a
/// half block at each corner, and across each cell its north wall.
pub open spec fn top_text(m: &Maze, upto: nat) -> Seq<char>
    decreases upto,
{
    if upto == 0 {
        seq!['▄']
    } else {
        let x = (upto - 1) as usize;
        top_text(m, (upto - 1) as nat) + seq![if m.open(Dir::Up, (x, 0)) { ' ' } else { '▄' }, '▄']
    }
}

/// The line of the drawing for row `y`, over its first `upto` columns: a new
/// line, the west wall, then for each cell its south and east walls.
pub open spec fn row_text(m: &Maze, y: usize, upto: nat) -> Seq<char>
    decreases upto,
{
    if upto == 0 {
        seq!['\n', if m.open(Dir::Left, (0, y)) { '▄' } else { '█' }]
    } else {
        let x = (upto - 1) as usize;
        row_text(m, y, (upto - 1) as nat) + seq![
            if m.open(Dir::Down, (x, y)) { ' ' } else { '▄' },
            if m.open(Dir::Right, (x, y)) { '▄' } else { '█' },
        ]
    }
}

/// The drawing of `m` down to its first `rows` rows.
pub open spec fn maze_text(m: &Maze, rows: nat) -> Seq<char>
    decreases rows,
{
    if rows == 0 {
        top_text(m, m.width() as nat)
    } else {
        maze_text(m, (rows - 1) as nat) + row_text(m, (rows - 1) as usize, m.width() as nat)
    }
}

impl Maze {
    /// A drawing of the maze in block characters, one line per row below a
    /// top line; a full block is a closed east wall, a lower half block a
    /// closed south wall.
    pub fn to_text(&self) -> (r: String)
        ensures
            r@ == maze_text(self, self.height() as nat),
    {
        let w = self.w();
        let h = self.h();
        let mut out = String::new();
        proof {
            reveal_strlit("▄");
            reveal_strlit(" ");
            reveal_strlit("█");
            reveal_strlit("\n");
        }
        out.append("▄");
        for x in 0..w
            invariant
                w == self.width(),
                h == self.height(),
                out@ == top_text(self, x as nat),
        {
            if h > 0 && self.is_open(Dir::Up, (x, 0)) {
                out.append(" ");
            } else {
                out.append("▄");
            }
            out.append("▄");
            proof {
                reveal_strlit("▄");
                reveal_strlit(" ");
                assert(h == 0 ==> !self.open(Dir::Up, (x, 0usize)));
                assert(out@ =~= top_text(self, (x + 1) as nat));
            }
        }
        for y in 0..h
            invariant
                w == self.width(),
                h == self.height(),
                out@ == maze_text(self, y as nat),
        {
            let ghost before = out@;
            out.append("\n");
            if w > 0 && self.is_open(Dir::Left, (0, y)) {
                out.append("▄");
            } else {
                out.append("█");
            }
            proof {
                reveal_strlit("▄");
                reveal_strlit("█");
                reveal_strlit("\n");
                assert(w == 0 ==> !self.open(Dir::Left, (0usize, y)));
                assert(out@ =~= before + row_text(self, y, 0));
            }
            for x in 0..w
                invariant
                    w == self.width(),
                    h == self.height(),
                    y < h,
                    out@ == before + row_text(self, y, x as nat),
            {
                if self.is_open(Dir::Down, (x, y)) {
                    out.append(" ");
                } else {
                    out.append("▄");
                }
                if self.is_open(Dir::Right, (x, y)) {
                    out.append("▄");
                } else {
                    out.append("█");
                }
                proof {
                    reveal_strlit("▄");
                    reveal_strlit(" ");
                    reveal_strlit("█");
                    assert(out@ =~= before + row_text(self, y, (x + 1) as nat));
                }
            }
        }
        out
    }
}

/// `q` lies next to `p`, across an open wall.
pub open spec fn adjacent_open(m: &Maze, p: Pos, q: Pos) -> bool {
    exists|d: Dir| #[trigger] m.open(d, p) && m.step(d, p) == Some(q)
}

/// `s` is a walk through open walls: a cell of the grid, then each next one
/// across an open wall from the one before.
pub open spec fn is_walk(m: &Maze, s: Seq<Pos>) -> bool {
    &&& s.len() > 0
    &&& forall|i: int| 0 <= i < s.len() ==> m.in_bounds(#[trigger] s[i])
    &&& forall|i: int| 0 <= i < s.len() - 1 ==> #[trigger] adjacent_open(m, s[i], s[i + 1])
}

/// A walk through open walls leads from `p` to `q`.
pub open spec fn linked(m: &Maze, p: Pos, q: Pos) -> bool {
    exists|s: Seq<Pos>| #[trigger] is_walk(m, s) && s[0] == p && s.last() == q
}

/// Every cell can be reached from every other through open walls.
pub open spec fn connected(m: &Maze) -> bool {
    forall|p: Pos, q: Pos| m.in_bounds(p) && m.in_bounds(q) ==> #[trigger] linked(m, p, q)
}

pub proof fn lemma_linked_refl(m: &Maze, p: Pos)
    requires
        m.in_bounds(p),
    ensures
        linked(m, p, p),
{
    let s = seq![p];
    assert(is_walk(m, s));
}

pub proof fn lemma_linked_step(m: &Maze, d: Dir, p: Pos)
    requires
        m.in_bounds(p),
        m.open(d, p),
    ensures
        linked(m, p, m.step(d, p)->0),
        linked(m, m.step(d, p)->0, p),
{
    lemma_edge_symmetry(m, d, p);
    let q = m.step(d, p)->0;
    let s = seq![p, q];
    assert(adjacent_open(m, s[0], s[1]));
    assert(is_walk(m, s));
    let t = seq![q, p];
    assert(m.open(d.opposite_spec(), q));
    assert(adjacent_open(m, t[0], t[1]));
    assert(is_walk(m, t));
}

pub proof fn lemma_linked_trans(m: &Maze, p: Pos, q: Pos, r: Pos)
    requires
        linked(m, p, q),
        linked(m, q, r),
    ensures
        linked(m, p, r),
{
    let s1 = choose|s: Seq<Pos>| #[trigger] is_walk(m, s) && s[0] == p && s.last() == q;
    let s2 = choose|s: Seq<Pos>| #[trigger] is_walk(m, s) && s[0] == q && s.last() == r;
    let s = s1 + s2.drop_first();
    assert forall|i: int| 0 <= i < s.len() implies m.in_bounds(#[trigger] s[i]) by {
        if i < s1.len() {
            assert(s[i] == s1[i]);
        } else {
            assert(s[i] == s2[i - s1.len() + 1]);
        }
    }
    assert forall|i: int| 0 <= i < s.len() - 1 implies #[trigger] adjacent_open(m, s[i], s[i + 1]) by {
        if i < s1.len() - 1 {
            assert(s[i] == s1[i] && s[i + 1] == s1[i + 1]);
        } else if i == s1.len() - 1 {
            assert(s[i] == s2[0] && s[i + 1] == s2[1]);
        } else {
            assert(s[i] == s2[i - s1.len() + 1] && s[i + 1] == s2[i - s1.len() + 2]);
        }
    }
    assert(is_walk(m, s));
    if s2.len() == 1 {
        assert(s.last() == s1.last());
    } else {
        assert(s.last() == s2.last());
    }
}

pub proof fn lemma_linked_symm(m: &Maze, p: Pos, q: Pos)
    requires
        linked(m, p, q),
    ensures
        linked(m, q, p),
{
    let s = choose|s: Seq<Pos>| #[trigger] is_walk(m, s) && s[0] == p && s.last() == q;
    let t = s.reverse();
    assert forall|i: int| 0 <= i < t.len() - 1 implies #[trigger] adjacent_open(m, t[i], t[i + 1]) by {
        let j = s.len() - 2 - i;
        assert(t[i] == s[j + 1] && t[i + 1] == s[j]);
        assert(adjacent_open(m, s[j], s[j + 1]));
        let d = choose|d: Dir| #[trigger] m.open(d, s[j]) && m.step(d, s[j]) == Some(s[j + 1]);
        lemma_edge_symmetry(m, d, s[j]);
        assert(m.open(d.opposite_spec(), s[j + 1]));
    }
    assert forall|i: int| 0 <= i < t.len() implies m.in_bounds(#[trigger] t[i]) by {
        assert(t[i] == s[s.len() - 1 - i]);
    }
    assert(is_walk(m, t));
    assert(t[0] == q && t.last() == p);
}

/// Walks of one grid carry over to another in which the two sides of each
/// open wall of the first are still linked.
pub proof fn lemma_reroute(m0: &Maze, m1: &Maze, p: Pos, q: Pos)
    requires
        linked(m0, p, q),
        m1.width() == m0.width() && m1.height() == m0.height(),
        forall|c: Pos, d: Dir| m0.in_bounds(c) && #[trigger] m0.open(d, c) ==> linked(m1, c, m0.step(d, c)->0),
    ensures
        linked(m1, p, q),
{
    let s = choose|s: Seq<Pos>| #[trigger] is_walk(m0, s) && s[0] == p && s.last() == q;
    lemma_reroute_prefix(m0, m1, s, s.len() - 1);
}

proof fn lemma_reroute_prefix(m0: &Maze, m1: &Maze, s: Seq<Pos>, k: int)
    requires
        is_walk(m0, s),
        0 <= k < s.len(),
        m1.width() == m0.width() && m1.height() == m0.height(),
        forall|c: Pos, d: Dir| m0.in_bounds(c) && #[trigger] m0.open(d, c) ==> linked(m1, c, m0.step(d, c)->0),
    ensures
        linked(m1, s[0], s[k]),
    decreases k,
{
    if k == 0 {
        assert(m0.in_bounds(s[0]));
        lemma_linked_refl(m1, s[0]);
    } else {
        lemma_reroute_prefix(m0, m1, s, k - 1);
        let j = k - 1;
        assert(adjacent_open(m0, s[j], s[j + 1]));
        assert(j + 1 == k);
        let d = choose|d: Dir| #[trigger] m0.open(d, s[k - 1]) && m0.step(d, s[k - 1]) == Some(s[k]);
        assert(linked(m1, s[k - 1], s[k]));
        lemma_linked_trans(m1, s[0], s[k - 1], s[k]);
    }
}

/// A walk stays a walk when more walls open.
pub proof fn lemma_linked_more(m0: &Maze, m1: &Maze, p: Pos, q: Pos)
    requires
        linked(m0, p, q),
        m1.width() == m0.width(),
        m1.height() == m0.height(),
        forall|d: Dir, c: Pos| m0.open(d, c) ==> #[trigger] m1.open(d, c),
    ensures
        linked(m1, p, q),
{
    let s = choose|s: Seq<Pos>| #[trigger] is_walk(m0, s) && s[0] == p && s.last() == q;
    assert forall|i: int| 0 <= i < s.len() - 1 implies #[trigger] adjacent_open(m1, s[i], s[i + 1]) by {
        assert(adjacent_open(m0, s[i], s[i + 1]));
        let d = choose|d: Dir| #[trigger] m0.open(d, s[i]) && m0.step(d, s[i]) == Some(s[i + 1]);
        assert(m1.open(d, s[i]));
    }
    assert(is_walk(m1, s));
}

/// Every index below `w * h` is the row-major index of a cell.
pub proof fn lemma_cell_of_index(w: int, h: int, i: int)
    requires
        0 < h <= usize::MAX,
        w <= usize::MAX,
        0 <= i < w * h,
    ensures
        0 <= i / h < w,
        0 <= i % h < h,
        index_of(h, ((i / h) as usize, (i % h) as usize)) == i,
{
    vstd::arithmetic::div_mod::lemma_fundamental_div_mod(i, h);
    assert(0 <= i % h < h);
    assert(0 <= i / h) by (nonlinear_arith)
        requires
            i == h * (i / h) + (i % h),
            0 <= i % h < h,
            0 <= i,
            0 < h,
    ;
    assert(i / h < w) by (nonlinear_arith)
        requires
            i == h * (i / h) + (i % h),
            0 <= i % h,
            i < w * h,
            0 < h,
    ;
    assert(i / h * h + i % h == i) by (nonlinear_arith)
        requires
            i == h * (i / h) + (i % h),
    ;
    assert(((i / h) as usize) as int == i / h);
    assert(((i % h) as usize) as int == i % h);
}

/// A walk through open walls from `p` to `q` that never leaves rows `0..=y`.
pub open spec fn linked_within(m: &Maze, y: usize, p: Pos, q: Pos) -> bool {
    exists|s: Seq<Pos>| #[trigger] is_walk(m, s) && s[0] == p && s.last() == q
        && forall|i: int| 0 <= i < s.len() ==> #[trigger] s[i].1 <= y
}

/// The cells of row `y` that `p` reaches without leaving rows `0..=y` include
/// one whose south wall is open.
pub open spec fn class_drops(m: &Maze, y: usize, p: Pos) -> bool {
    exists|c: Pos| c.1 == y && c.0 < m.width() && #[trigger] linked_within(m, y, p, c) && m.open(Dir::Down, c)
}

proof fn lemma_first_exit(m: &Maze, y: usize, s: Seq<Pos>, i: int)
    requires
        is_walk(m, s),
        0 <= i < s.len(),
        forall|j: int| 0 <= j <= i ==> #[trigger] s[j].1 <= y,
        s.last().1 > y,
    ensures
        class_drops(m, y, s[0]),
    decreases s.len() - i,
{
    assert(i + 1 < s.len());
    if s[i + 1].1 > y {
        let c = s[i];
        assert(adjacent_open(m, s[i], s[i + 1]));
        let d = choose|d: Dir| #[trigger] m.open(d, s[i]) && m.step(d, s[i]) == Some(s[i + 1]);
        assert(d == Dir::Down);
        let t = s.subrange(0, i + 1);
        assert forall|j: int| 0 <= j < t.len() - 1 implies #[trigger] adjacent_open(m, t[j], t[j + 1]) by {
            assert(t[j] == s[j] && t[j + 1] == s[j + 1]);
        }
        assert forall|j: int| 0 <= j < t.len() implies m.in_bounds(#[trigger] t[j]) by {
            assert(t[j] == s[j]);
        }
        assert(is_walk(m, t));
        assert forall|j: int| 0 <= j < t.len() implies #[trigger] t[j].1 <= y by {
            assert(t[j] == s[j]);
        }
        assert(t.last() == c);
        assert(linked_within(m, y, s[0], c));
        assert(m.in_bounds(c));
    } else {
        lemma_first_exit(m, y, s, i + 1);
    }
}

/// In a connected maze, every class of cells of row `y` joined through rows
/// `0..=y` has a cell whose south wall is open, unless `y` is the last row.
pub proof fn lemma_classes_drop(m: &Maze, y: usize, p: Pos)
    requires
        connected(m),
        m.in_bounds(p),
        p.1 == y,
        y + 1 < m.height(),
    ensures
        class_drops(m, y, p),
{
    let q: Pos = (p.0, (y + 1) as usize);
    assert(linked(m, p, q));
    let s = choose|s: Seq<Pos>| #[trigger] is_walk(m, s) && s[0] == p && s.last() == q;
    lemma_first_exit(m, y, s, 0);
}

proof fn lemma_to_root(m: &Maze, root: Pos, up: spec_fn(Pos) -> Dir, rank: spec_fn(Pos) -> nat, p: Pos)
    requires
        rooted_tree(m, root, up, rank),
        m.in_bounds(p),
    ensures
        linked(m, p, root),
    decreases rank(p),
{
    if p == root {
        lemma_linked_refl(m, p);
    } else {
        let q = m.step(up(p), p)->0;
        lemma_linked_step(m, up(p), p);
        lemma_edge_symmetry(m, up(p), p);
        lemma_to_root(m, root, up, rank, q);
        lemma_linked_trans(m, p, q, root);
    }
}

/// A perfect maze is connected.
pub proof fn lemma_perfect_connected(m: &Maze)
    requires
        is_perfect(m),
    ensures
        connected(m),
{
    let (root, up, rank) = choose|root: Pos, up: spec_fn(Pos) -> Dir, rank: spec_fn(Pos) -> nat| rooted_tree(m, root, up, rank);
    assert forall|p: Pos, q: Pos| m.in_bounds(p) && m.in_bounds(q) implies #[trigger] linked(m, p, q) by {
        lemma_to_root(m, root, up, rank, p);
        lemma_to_root(m, root, up, rank, q);
        lemma_linked_symm(m, q, root);
        lemma_linked_trans(m, p, root, q);
    }
}

/// A grid that is perfect whenever it has cells is connected, and has one
/// open interior wall fewer than it has cells.
pub proof fn lemma_perfect_or_empty_connected(m: &Maze)
    requires
        m.width() > 0 && m.height() > 0 ==> is_perfect(m),
    ensures
        connected(m),
        m.width() > 0 && m.height() > 0 ==> exists|ws: Set<Wall>| #[trigger] passages_are(m, ws) && ws.finite()
            && ws.len() == m.width() * m.height() - 1,
{
    if m.width() > 0 && m.height() > 0 {
        lemma_perfect_connected(m);
        lemma_perfect_count(m);
    }
}

/// `ws` is the set of open interior walls of `m`.
pub open spec fn passages_are(m: &Maze, ws: Set<Wall>) -> bool {
    forall|wall: Wall| #[trigger] ws.contains(wall) <==> m.interior(wall) && m.stored(wall)
}

/// The cell with row-major index `i` in a grid of height `h`.
pub open spec fn cell_of(h: int, i: int) -> Pos {
    ((i / h) as usize, (i % h) as usize)
}

/// The cells of a grid, as a set of `w * h` elements.
proof fn lemma_cells(m: &Maze) -> (cells: Set<Pos>)
    requires
        m.width() > 0 && m.height() > 0,
    ensures
        cells.finite(),
        cells.len() == m.width() * m.height(),
        forall|p: Pos| #[trigger] cells.contains(p) <==> m.in_bounds(p),
{
    let w = m.width() as int;
    let h = m.height() as int;
    let idxs = vstd::set_lib::set_int_range(0, w * h);
    vstd::set_lib::lemma_int_range(0, w * h);
    let f = |i: int| cell_of(h, i);
    let cells = idxs.map(f);
    assert(vstd::relations::injective_on(f, idxs)) by {
        assert forall|i: int, j: int| idxs.contains(i) && idxs.contains(j) && #[trigger] f(i) == #[trigger] f(j) implies i == j by {
            lemma_cell_of_index(w, h, i);
            lemma_cell_of_index(w, h, j);
        }
    }
    vstd::set_lib::lemma_map_size(idxs, cells, f);
    assert forall|p: Pos| #[trigger] cells.contains(p) <==> m.in_bounds(p) by {
        if cells.contains(p) {
            let i = choose|i: int| idxs.contains(i) && f(i) == p;
            lemma_cell_of_index(w, h, i);
        }
        if m.in_bounds(p) {
            let i = index_of(h, p);
            lemma_index_of(w, h, p, p);
            lemma_cell_of_index(w, h, i);
            lemma_index_of(w, h, p, cell_of(h, i));
            assert(idxs.contains(i));
            assert(f(i) == p);
        }
    }
    cells
}

/// A perfect maze of `w x h` cells has exactly `w * h - 1` open interior walls.
pub proof fn lemma_perfect_count(m: &Maze)
    requires
        is_perfect(m),
        m.width() > 0 && m.height() > 0,
    ensures
        exists|ws: Set<Wall>| #[trigger] passages_are(m, ws) && ws.finite() && ws.len() == m.width() * m.height() - 1,
{
    let (root, up, rank) = choose|root: Pos, up: spec_fn(Pos) -> Dir, rank: spec_fn(Pos) -> nat| rooted_tree(m, root, up, rank);
    let cells = lemma_cells(m);
    let others = cells.remove(root);
    let g = |p: Pos| Maze::wall(up(p), p);
    let ws = others.map(g);
    assert(vstd::relations::injective_on(g, others)) by {
        assert forall|p: Pos, q: Pos| others.contains(p) && others.contains(q) && #[trigger] g(p) == #[trigger] g(q) implies p == q by {
            if p != q {
                lemma_wall_ends(m, up(p), p, up(q), q);
                lemma_edge_symmetry(m, up(p), p);
                lemma_edge_symmetry(m, up(q), q);
            }
        }
    }
    vstd::set_lib::lemma_map_size(others, ws, g);
    assert forall|wall: Wall| #[trigger] ws.contains(wall) <==> m.interior(wall) && m.stored(wall) by {
        if ws.contains(wall) {
            let p = choose|p: Pos| others.contains(p) && g(p) == wall;
            assert(m.open(up(p), p));
            assert(m.interior(Maze::wall(up(p), p)));
        }
        if m.interior(wall) && m.stored(wall) {
            let p: Pos = (wall.0 as usize, wall.1 as usize);
            let d = if wall.2 { Dir::Right } else { Dir::Down };
            assert(Maze::wall(d, p) == wall);
            assert(m.open(d, p));
            lemma_edge_symmetry(m, d, p);
            let q = m.step(d, p)->0;
            if p != root && d == up(p) {
                assert(others.contains(p) && g(p) == wall);
            } else {
                assert(q != root && up(q) == d.opposite_spec());
                assert(Maze::wall(d.opposite_spec(), q) == wall);
                assert(others.contains(q) && g(q) == wall);
            }
        }
    }
    assert(passages_are(m, ws));
}

/// The cells `(x, y)` with `x < w` and `y < h`, as a set of `w * h` elements.
pub proof fn lemma_grid(w: int, h: int) -> (g: Set<Pos>)
    requires
        0 <= w <= usize::MAX,
        0 <= h <= usize::MAX,
    ensures
        g.finite(),
        g.len() == w * h,
        forall|p: Pos| #[trigger] g.contains(p) <==> p.0 < w && p.1 < h,
{
    if h == 0 || w == 0 {
        let g = Set::<Pos>::empty();
        assert(w * h == 0) by (nonlinear_arith)
            requires
                h == 0 || w == 0,
        ;
        g
    } else {
        let idxs = vstd::set_lib::set_int_range(0, w * h);
        vstd::set_lib::lemma_int_range(0, w * h);
        let f = |i: int| cell_of(h, i);
        let g = idxs.map(f);
        assert(vstd::relations::injective_on(f, idxs)) by {
            assert forall|i: int, j: int| idxs.contains(i) && idxs.contains(j) && #[trigger] f(i) == #[trigger] f(j) implies i == j by {
                lemma_cell_of_index(w, h, i);
                lemma_cell_of_index(w, h, j);
            }
        }
        vstd::set_lib::lemma_map_size(idxs, g, f);
        assert forall|p: Pos| #[trigger] g.contains(p) <==> p.0 < w && p.1 < h by {
            if g.contains(p) {
                let i = choose|i: int| idxs.contains(i) && f(i) == p;
                lemma_cell_of_index(w, h, i);
            }
            if p.0 < w && p.1 < h {
                let i = index_of(h, p);
                lemma_index_of(w, h, p, p);
                lemma_cell_of_index(w, h, i);
                lemma_index_of(w, h, p, cell_of(h, i));
                assert(idxs.contains(i));
                assert(f(i) == p);
            }
        }
        g
    }
}

/// The interior walls of a grid with cells, as a set.
pub proof fn lemma_interior_walls(m: &Maze) -> (iw: Set<Wall>)
    requires
        m.width() > 0 && m.height() > 0,
    ensures
        iw.finite(),
        iw.len() == (m.width() - 1) * m.height() + m.width() * (m.height() - 1),
        forall|wall: Wall| #[trigger] iw.contains(wall) <==> m.interior(wall),
{
    let w = m.width() as int;
    let h = m.height() as int;
    let ge = lemma_grid(w - 1, h);
    let gs = lemma_grid(w, h - 1);
    let fe = |p: Pos| (p.0 as int, p.1 as int, true);
    let fs = |p: Pos| (p.0 as int, p.1 as int, false);
    let east = ge.map(fe);
    let south = gs.map(fs);
    assert(vstd::relations::injective_on(fe, ge));
    assert(vstd::relations::injective_on(fs, gs));
    vstd::set_lib::lemma_map_size(ge, east, fe);
    vstd::set_lib::lemma_map_size(gs, south, fs);
    assert(east.disjoint(south));
    vstd::set_lib::lemma_set_disjoint_lens(east, south);
    let iw = east + south;
    assert forall|wall: Wall| #[trigger] iw.contains(wall) <==> m.interior(wall) by {
        if m.interior(wall) {
            let p: Pos = (wall.0 as usize, wall.1 as usize);
            if wall.2 {
                assert(ge.contains(p) && fe(p) == wall);
            } else {
                assert(gs.contains(p) && fs(p) == wall);
            }
        }
    }
    iw
}

} // verus!
