//! Cells, shape tags and pieces.

use crate::game::random::random_in_range;
use vstd::prelude::*;

verus! {

/// The seven tetromino tags.
#[derive(Debug, PartialEq, Eq, Clone, Copy, Structural)]
pub enum Shape {
    I,
    O,
    T,
    J,
    L,
    S,
    Z,
}

impl Shape {
    /// The tag with the given number; every number above five, and every
    /// negative one, gives `Z`.
    pub open spec fn of_index(i: int) -> Shape {
        if i == 0 {
            Shape::I
        } else if i == 1 {
            Shape::O
        } else if i == 2 {
            Shape::T
        } else if i == 3 {
            Shape::J
        } else if i == 4 {
            Shape::L
        } else if i == 5 {
            Shape::S
        } else {
            Shape::Z
        }
    }

    /// The tag with the given number.
    pub fn from_index(i: i32) -> (s: Shape)
        ensures
            s == Shape::of_index(i as int),
    {
        match i {
            0 => Shape::I,
            1 => Shape::O,
            2 => Shape::T,
            3 => Shape::J,
            4 => Shape::L,
            5 => Shape::S,
            _ => Shape::Z,
        }
    }
}

/// A point of the integer plane: column first, then row. Rows grow downward.
pub type Point = (int, int);

/// A coordinate pair (column, row), used for board positions and for offsets.
#[derive(Debug, Hash, PartialEq, Eq, Clone, Copy, Structural)]
pub struct Cell(pub i32, pub i32);

impl View for Cell {
    type V = Point;

    open spec fn view(&self) -> Point {
        (self.0 as int, self.1 as int)
    }
}

/// Whether a point can be held in a `Cell`.
pub open spec fn point_fits(p: Point) -> bool {
    i32::MIN <= p.0 <= i32::MAX && i32::MIN <= p.1 <= i32::MAX
}

/// The point reached from `p` by the offset `d`.
pub open spec fn point_add(p: Point, d: Point) -> Point {
    (p.0 + d.0, p.1 + d.1)
}

impl vstd::std_specs::ops::AddSpecImpl for Cell {
    open spec fn obeys_add_spec() -> bool {
        true
    }

    open spec fn add_req(self, rhs: Cell) -> bool {
        point_fits(point_add(self@, rhs@))
    }

    open spec fn add_spec(self, rhs: Cell) -> Cell {
        Cell((self.0 + rhs.0) as i32, (self.1 + rhs.1) as i32)
    }
}

impl std::ops::Add for Cell {
    type Output = Cell;

    /// The sum of two cells, coordinate by coordinate.
    fn add(self, rhs: Cell) -> (r: Cell)
        ensures
            r@ == point_add(self@, rhs@),
    {
        Cell(self.0 + rhs.0, self.1 + rhs.1)
    }
}

impl vstd::std_specs::convert::FromSpecImpl<(i32, i32)> for Cell {
    open spec fn obeys_from_spec() -> bool {
        true
    }

    open spec fn from_spec(lhs: (i32, i32)) -> Cell {
        Cell(lhs.0, lhs.1)
    }
}

impl From<(i32, i32)> for Cell {
    /// The cell with the given column and row.
    fn from(lhs: (i32, i32)) -> (r: Cell)
        ensures
            r@ == (lhs.0 as int, lhs.1 as int),
    {
        Cell(lhs.0, lhs.1)
    }
}

/// The image of `c` under the quarter turn about `pivot`.
pub open spec fn rotate_about(pivot: Point, c: Point) -> Point {
    (pivot.0 + pivot.1 - c.1, pivot.1 - pivot.0 + c.0)
}

/// Where a cell that survives the removal of row `y` ends up: cells above
/// the row move one row down, cells below it stay.
pub open spec fn settle(y: int, c: Point) -> Point {
    if c.1 < y {
        (c.0, c.1 + 1)
    } else {
        c
    }
}

/// The move by `d`, as a function on points.
pub open spec fn translate_by(d: Point) -> spec_fn(Point) -> Point {
    |c: Point| point_add(c, d)
}

/// The quarter turn about `pivot`, as a function on points.
pub open spec fn rotate_by(pivot: Point) -> spec_fn(Point) -> Point {
    |c: Point| rotate_about(pivot, c)
}

/// `settle` for the row `y`, as a function on points.
pub open spec fn settle_by(y: int) -> spec_fn(Point) -> Point {
    |c: Point| settle(y, c)
}

/// The test that a point lies outside the row `y`.
pub open spec fn off_row(y: int) -> spec_fn(Point) -> bool {
    |c: Point| c.1 != y
}

/// The points held by a sequence of cells.
pub open spec fn cells_of(s: Seq<Cell>) -> Set<Point> {
    s.map_values(|c: Cell| c@).to_set()
}

/// The mathematical value of a piece: a tag, a set of occupied points and a
/// pivot. The pivot need not be occupied.
pub struct PieceView {
    pub shape: Shape,
    pub cells: Set<Point>,
    pub pivot: Point,
}

impl PieceView {
    /// A piece occupies finitely many points.
    pub open spec fn valid(self) -> bool {
        self.cells.finite()
    }

    /// Every coordinate of the piece can be held in a `Cell`.
    pub open spec fn fits(self) -> bool {
        &&& point_fits(self.pivot)
        &&& forall|p: Point| #[trigger] self.cells.contains(p) ==> point_fits(p)
    }

    /// The canonical layout of each tag.
    pub open spec fn template(shape: Shape) -> PieceView {
        match shape {
            Shape::I => PieceView {
                shape,
                cells: set![(0int, 0int), (1int, 0int), (2int, 0int), (3int, 0int)],
                pivot: (1, 0),
            },
            Shape::O => PieceView {
                shape,
                cells: set![(0int, 0int), (1int, 0int), (0int, 1int), (1int, 1int)],
                pivot: (0, 0),
            },
            Shape::T => PieceView {
                shape,
                cells: set![(0int, 0int), (1int, 0int), (2int, 0int), (1int, 1int)],
                pivot: (1, 0),
            },
            Shape::J => PieceView {
                shape,
                cells: set![(0int, 0int), (0int, 1int), (0int, 2int), (-1int, 2int)],
                pivot: (0, 1),
            },
            Shape::L => PieceView {
                shape,
                cells: set![(0int, 0int), (0int, 1int), (0int, 2int), (1int, 2int)],
                pivot: (0, 1),
            },
            Shape::S => PieceView {
                shape,
                cells: set![(0int, 0int), (1int, 0int), (0int, 1int), (-1int, 1int)],
                pivot: (0, 0),
            },
            Shape::Z => PieceView {
                shape,
                cells: set![(0int, 0int), (-1int, 0int), (0int, 1int), (1int, 1int)],
                pivot: (0, 0),
            },
        }
    }

    /// The piece moved by `d`: every cell and the pivot.
    pub open spec fn translate(self, d: Point) -> PieceView {
        PieceView {
            shape: self.shape,
            cells: self.cells.map(translate_by(d)),
            pivot: point_add(self.pivot, d),
        }
    }

    /// The piece turned by a quarter about its pivot.
    pub open spec fn rotate(self) -> PieceView {
        PieceView {
            shape: self.shape,
            cells: self.cells.map(rotate_by(self.pivot)),
            pivot: self.pivot,
        }
    }

    /// The piece after row `y` is deleted and everything above it has moved
    /// one row down.
    pub open spec fn remove_row(self, y: int) -> PieceView {
        PieceView {
            shape: self.shape,
            cells: self.cells.filter(off_row(y)).map(settle_by(y)),
            pivot: self.pivot,
        }
    }

    /// Whether the two pieces share a point.
    pub open spec fn collides(self, other: PieceView) -> bool {
        exists|p: Point| self.cells.contains(p) && other.cells.contains(p)
    }
}

impl PieceView {
    /// A point is in the translated piece exactly if the point it came from
    /// is in the piece; the number of cells is kept.
    pub proof fn lemma_translate(self, d: Point)
        ensures
            forall|p: Point| #[trigger]
                self.translate(d).cells.contains(p) <==> self.cells.contains(
                    (p.0 - d.0, p.1 - d.1),
                ),
            self.valid() ==> self.translate(d).valid() && self.translate(d).cells.len()
                == self.cells.len(),
    {
        let f = translate_by(d);
        assert forall|p: Point| #[trigger]
            self.translate(d).cells.contains(p) <==> self.cells.contains(
                (p.0 - d.0, p.1 - d.1),
            ) by {
            let q = (p.0 - d.0, p.1 - d.1);
            if self.cells.contains(q) {
                assert(f(q) == p);
            }
        }
        if self.valid() {
            assert(vstd::relations::injective_on(f, self.cells)) by {
                assert forall|x1: Point, x2: Point|
                    self.cells.contains(x1) && self.cells.contains(x2) && #[trigger] f(x1)
                        == #[trigger] f(x2) implies x1 == x2 by {}
            }
            vstd::set_lib::lemma_map_size(self.cells, self.translate(d).cells, f);
        }
    }

    /// A point is in the rotated piece exactly if the point it came from is
    /// in the piece; the number of cells is kept.
    pub proof fn lemma_rotate(self)
        ensures
            forall|p: Point| #[trigger]
                self.rotate().cells.contains(p) <==> self.cells.contains(
                    (p.1 - self.pivot.1 + self.pivot.0, self.pivot.0 + self.pivot.1 - p.0),
                ),
            self.valid() ==> self.rotate().valid() && self.rotate().cells.len()
                == self.cells.len(),
    {
        let f = rotate_by(self.pivot);
        assert forall|p: Point| #[trigger]
            self.rotate().cells.contains(p) <==> self.cells.contains(
                (p.1 - self.pivot.1 + self.pivot.0, self.pivot.0 + self.pivot.1 - p.0),
            ) by {
            let q = (p.1 - self.pivot.1 + self.pivot.0, self.pivot.0 + self.pivot.1 - p.0);
            if self.cells.contains(q) {
                assert(f(q) == p);
            }
        }
        if self.valid() {
            assert(vstd::relations::injective_on(f, self.cells)) by {
                assert forall|x1: Point, x2: Point|
                    self.cells.contains(x1) && self.cells.contains(x2) && #[trigger] f(x1)
                        == #[trigger] f(x2) implies x1 == x2 by {}
            }
            vstd::set_lib::lemma_map_size(self.cells, self.rotate().cells, f);
        }
    }

    /// After the removal of row `y`, a point on or above the row is occupied
    /// exactly if the point right above it was, and a point below the row
    /// exactly if it was itself; no cell is gained.
    pub proof fn lemma_remove_row(self, y: int)
        ensures
            forall|p: Point| #[trigger]
                self.remove_row(y).cells.contains(p) <==> (if p.1 <= y {
                    self.cells.contains((p.0, p.1 - 1))
                } else {
                    self.cells.contains(p)
                }),
            self.valid() ==> self.remove_row(y).valid() && self.remove_row(y).cells.len()
                <= self.cells.len(),
    {
        let keep = off_row(y);
        let f = settle_by(y);
        assert forall|p: Point| #[trigger]
            self.remove_row(y).cells.contains(p) <==> (if p.1 <= y {
                self.cells.contains((p.0, p.1 - 1))
            } else {
                self.cells.contains(p)
            }) by {
            if p.1 <= y {
                let q = (p.0, p.1 - 1);
                if self.cells.contains(q) {
                    assert(self.cells.filter(keep).contains(q));
                    assert(f(q) == p);
                }
            } else {
                if self.cells.contains(p) {
                    assert(self.cells.filter(keep).contains(p));
                    assert(f(p) == p);
                }
            }
        }
        if self.valid() {
            self.cells.lemma_len_filter(keep);
            vstd::set_lib::lemma_map_size_bound(
                self.cells.filter(keep),
                self.remove_row(y).cells,
                f,
            );
        }
    }
}

/// Every template holds exactly four points, all of them small.
pub proof fn lemma_template_cells(shape: Shape)
    ensures
        PieceView::template(shape).valid(),
        PieceView::template(shape).cells.len() == 4,
        PieceView::template(shape).cells.contains(PieceView::template(shape).pivot),
        forall|p: Point| #[trigger]
            PieceView::template(shape).cells.contains(p) ==> -1 <= p.0 <= 3 && 0 <= p.1 <= 2,
{
}

/// A tetromino: a tag, its occupied cells and the pivot it turns about.
#[derive(Debug)]
pub struct Piece {
    shape: Shape,
    positions: Vec<Cell>,
    pivot: Cell,
}

impl View for Piece {
    type V = PieceView;

    closed spec fn view(&self) -> PieceView {
        PieceView { shape: self.shape, cells: cells_of(self.positions@), pivot: self.pivot@ }
    }
}

/// A sequence of distinct cells holds as many points as it is long.
pub proof fn lemma_cells_of_distinct(s: Seq<Cell>)
    requires
        s.no_duplicates(),
    ensures
        cells_of(s).finite(),
        cells_of(s).len() == s.len(),
{
    let f = |c: Cell| c@;
    let m = s.map_values(f);
    assert(m.no_duplicates()) by {
        assert forall|i: int, j: int| 0 <= i < m.len() && 0 <= j < m.len() && i != j implies m[i]
            != m[j] by {
            assert(s[i] != s[j]);
        }
    }
    m.unique_seq_to_set();
}

/// Membership in `cells_of`, by index.
pub proof fn lemma_cells_of_contains(s: Seq<Cell>, p: Point)
    ensures
        cells_of(s).contains(p) <==> exists|i: int| 0 <= i < s.len() && #[trigger] s[i]@ == p,
{
    let m = s.map_values(|c: Cell| c@);
    if cells_of(s).contains(p) {
        let i = choose|i: int| 0 <= i < m.len() && m[i] == p;
        assert(s[i]@ == p);
    }
    if exists|i: int| 0 <= i < s.len() && #[trigger] s[i]@ == p {
        let i = choose|i: int| 0 <= i < s.len() && #[trigger] s[i]@ == p;
        assert(m[i] == p);
    }
}

/// The points of a prefix that is one longer.
proof fn lemma_cells_of_take_next(s: Seq<Cell>, i: int)
    requires
        0 <= i < s.len(),
    ensures
        cells_of(s.take(i + 1)) == cells_of(s.take(i)).insert(s[i]@),
{
    let t0 = s.take(i);
    let t1 = s.take(i + 1);
    assert forall|q: Point| cells_of(t1).contains(q) <==> cells_of(t0).insert(s[i]@).contains(
        q,
    ) by {
        lemma_cells_of_contains(t1, q);
        lemma_cells_of_contains(t0, q);
        if cells_of(t0).contains(q) {
            let k = choose|k: int| 0 <= k < t0.len() && #[trigger] t0[k]@ == q;
            assert(t1[k]@ == q);
        }
        if q == s[i]@ {
            assert(t1[i]@ == q);
        }
    }
    assert(cells_of(t1) =~= cells_of(t0).insert(s[i]@));
}

/// Whether `c` is among the cells of `v`.
fn holds(v: &Vec<Cell>, c: Cell) -> (b: bool)
    ensures
        b == cells_of(v@).contains(c@),
        b == v@.contains(c),
{
    let mut i: usize = 0;
    while i < v.len()
        invariant
            i <= v.len(),
            forall|j: int| 0 <= j < i ==> v@[j] != c,
        decreases v.len() - i,
    {
        if v[i] == c {
            proof {
                lemma_cells_of_contains(v@, c@);
            }
            return true;
        }
        i += 1;
    }
    proof {
        lemma_cells_of_contains(v@, c@);
    }
    false
}

/// Adds `c` to `v` unless it is there already.
fn insert_cell(v: &mut Vec<Cell>, c: Cell)
    requires
        old(v)@.no_duplicates(),
    ensures
        final(v)@.no_duplicates(),
        cells_of(final(v)@) == cells_of(old(v)@).insert(c@),
        final(v)@.len() <= old(v)@.len() + 1,
        final(v)@.len() >= old(v)@.len(),
{
    if !holds(v, c) {
        v.push(c);
        proof {
            assert forall|p: Point| cells_of(v@).contains(p) <==> cells_of(old(v)@).insert(
                c@,
            ).contains(p) by {
                lemma_cells_of_contains(v@, p);
                lemma_cells_of_contains(old(v)@, p);
                if cells_of(old(v)@).insert(c@).contains(p) {
                    if p == c@ {
                        assert(v@[old(v)@.len() as int]@ == p);
                    } else {
                        let i = choose|i: int|
                            0 <= i < old(v)@.len() && #[trigger] old(v)@[i]@ == p;
                        assert(v@[i]@ == p);
                    }
                }
            }
        }
    } else {
        assert(cells_of(v@) =~= cells_of(old(v)@).insert(c@));
    }
}

impl Piece {
    /// The representation invariant: no cell is listed twice, and there are
    /// at most four.
    pub closed spec fn wf(&self) -> bool {
        &&& self.positions@.no_duplicates()
        &&& self.positions@.len() <= 4
    }

    /// What the invariant means for the value of the piece.
    pub proof fn lemma_wf_view(&self)
        requires
            self.wf(),
        ensures
            self@.valid(),
            self@.fits(),
            self@.cells.len() <= 4,
    {
        lemma_cells_of_distinct(self.positions@);
        assert forall|p: Point| #[trigger] self@.cells.contains(p) implies point_fits(p) by {
            lemma_cells_of_contains(self.positions@, p);
        }
    }

    /// A piece with the given tag, cells and pivot. A cell given twice is
    /// held once.
    fn new_piece(s: Shape, cells: [Cell; 4], p: Cell) -> (r: Piece)
        ensures
            r.wf(),
            r@ == (PieceView { shape: s, cells: cells_of(cells@), pivot: p@ }),
    {
        let mut positions: Vec<Cell> = Vec::new();
        let mut i: usize = 0;
        while i < 4
            invariant
                i <= 4,
                positions@.no_duplicates(),
                positions@.len() <= i,
                cells_of(positions@) == cells_of(cells@.take(i as int)),
            decreases 4 - i,
        {
            insert_cell(&mut positions, cells[i]);
            proof {
                lemma_cells_of_take_next(cells@, i as int);
            }
            i += 1;
        }
        assert(cells@.take(4) =~= cells@);
        Piece { shape: s, positions, pivot: p }
    }

    /// The canonical piece of the given tag.
    pub fn new(shape: Shape) -> (r: Piece)
        ensures
            r.wf(),
            r@ == PieceView::template(shape),
            r@.shape == shape,
            r@.cells.len() == 4,
    {
        let (cells, pivot): ([Cell; 4], Cell) = match shape {
            Shape::I => ([Cell(0, 0), Cell(1, 0), Cell(2, 0), Cell(3, 0)], Cell(1, 0)),
            Shape::O => ([Cell(0, 0), Cell(1, 0), Cell(0, 1), Cell(1, 1)], Cell(0, 0)),
            Shape::T => ([Cell(0, 0), Cell(1, 0), Cell(2, 0), Cell(1, 1)], Cell(1, 0)),
            Shape::J => ([Cell(0, 0), Cell(0, 1), Cell(0, 2), Cell(-1, 2)], Cell(0, 1)),
            Shape::L => ([Cell(0, 0), Cell(0, 1), Cell(0, 2), Cell(1, 2)], Cell(0, 1)),
            Shape::S => ([Cell(0, 0), Cell(1, 0), Cell(0, 1), Cell(-1, 1)], Cell(0, 0)),
            Shape::Z => ([Cell(0, 0), Cell(-1, 0), Cell(0, 1), Cell(1, 1)], Cell(0, 0)),
        };
        let r = Self::new_piece(shape, cells, pivot);
        proof {
            lemma_template_cells(shape);
            let t = PieceView::template(shape);
            assert forall|q: Point| r@.cells.contains(q) <==> t.cells.contains(q) by {
                lemma_cells_of_contains(cells@, q);
                if t.cells.contains(q) {
                    assert(cells@[0]@ == q || cells@[1]@ == q || cells@[2]@ == q || cells@[3]@
                        == q);
                }
            }
            assert(r@.cells =~= t.cells);
        }
        r
    }

    /// The canonical piece of a tag drawn at random among the seven.
    pub fn random_piece() -> (r: Piece)
        ensures
            r.wf(),
            r@ == PieceView::template(r@.shape),
            r@.cells.len() == 4,
    {
        let drawn: i32 = random_in_range(0, 6);
        Piece::new(Shape::from_index(drawn))
    }

    /// The tag of the piece.
    pub fn shape(&self) -> (s: Shape)
        ensures
            s == self@.shape,
    {
        self.shape
    }

    /// The pivot of the piece.
    pub fn pivot(&self) -> (p: Cell)
        ensures
            p@ == self@.pivot,
    {
        self.pivot
    }
    /// The cells of the piece, each once, in no particular order.
    pub fn iter_positions(&self) -> (r: Vec<Cell>)
        requires
            self.wf(),
        ensures
            r@.no_duplicates(),
            cells_of(r@) == self@.cells,
            r@.len() == self@.cells.len(),
    {
        let mut r: Vec<Cell> = Vec::new();
        let mut i: usize = 0;
        while i < self.positions.len()
            invariant
                i <= self.positions@.len(),
                r@ == self.positions@.take(i as int),
            decreases self.positions@.len() - i,
        {
            r.push(self.positions[i]);
            assert(r@ =~= self.positions@.take(i as int + 1));
            i += 1;
        }
        proof {
            assert(self.positions@.take(i as int) =~= self.positions@);
            lemma_cells_of_distinct(self.positions@);
        }
        r
    }

    /// Whether `cell` is one of the piece's cells.
    pub fn has_position(&self, cell: Cell) -> (b: bool)
        ensures
            b == self@.cells.contains(cell@),
    {
        holds(&self.positions, cell)
    }

    /// Whether the two pieces share a cell.
    pub fn collides_with(&self, other: &Piece) -> (b: bool)
        ensures
            b == self@.collides(other@),
    {
        let mut i: usize = 0;
        while i < self.positions.len()
            invariant
                i <= self.positions@.len(),
                forall|j: int|
                    0 <= j < i ==> !other@.cells.contains(#[trigger] self.positions@[j]@),
            decreases self.positions@.len() - i,
        {
            if other.has_position(self.positions[i]) {
                proof {
                    let p = self.positions@[i as int]@;
                    lemma_cells_of_contains(self.positions@, p);
                    assert(self@.cells.contains(p) && other@.cells.contains(p));
                }
                return true;
            }
            i += 1;
        }
        proof {
            assert forall|p: Point| !(self@.cells.contains(p) && other@.cells.contains(p)) by {
                lemma_cells_of_contains(self.positions@, p);
            }
        }
        false
    }

    /// The piece moved by `delta`, or `None` if a coordinate of the result
    /// would not fit in a cell.
    pub fn checked_translate(&self, delta: Cell) -> (r: Option<Piece>)
        requires
            self.wf(),
        ensures
            r.is_some() == self@.translate(delta@).fits(),
            r matches Some(p) ==> p.wf() && p@ == self@.translate(delta@) && p@.cells.len()
                == self@.cells.len(),
    {
        let ghost d = delta@;
        let ghost f = translate_by(d);
        proof {
            self@.lemma_translate(d);
            lemma_cells_of_distinct(self.positions@);
        }
        let px: i64 = self.pivot.0 as i64 + delta.0 as i64;
        let py: i64 = self.pivot.1 as i64 + delta.1 as i64;
        if px < i32::MIN as i64 || px > i32::MAX as i64 || py < i32::MIN as i64 || py
            > i32::MAX as i64 {
            return None;
        }
        let mut positions: Vec<Cell> = Vec::new();
        let mut i: usize = 0;
        while i < self.positions.len()
            invariant
                i <= self.positions@.len(),
                self.positions@.len() <= 4,
                d == delta@,
                f == translate_by(d),
                positions@.no_duplicates(),
                positions@.len() <= i,
                cells_of(positions@) == cells_of(self.positions@.take(i as int)).map(f),
            decreases self.positions@.len() - i,
        {
            let c = self.positions[i];
            let x: i64 = c.0 as i64 + delta.0 as i64;
            let y: i64 = c.1 as i64 + delta.1 as i64;
            proof {
                lemma_cells_of_take_next(self.positions@, i as int);
                cells_of(self.positions@.take(i as int)).lemma_set_map_insert_commute(c@, f);
                lemma_cells_of_contains(self.positions@, c@);
                assert(f(c@) == (x as int, y as int));
            }
            if x < i32::MIN as i64 || x > i32::MAX as i64 || y < i32::MIN as i64 || y
                > i32::MAX as i64 {
                proof {
                    assert(self@.cells.contains(c@));
                    assert(self@.translate(d).cells.contains(f(c@)));
                }
                return None;
            }
            insert_cell(&mut positions, Cell(x as i32, y as i32));
            i += 1;
        }
        proof {
            assert(self.positions@.take(i as int) =~= self.positions@);
            assert forall|p: Point| #[trigger]
                self@.translate(d).cells.contains(p) implies point_fits(p) by {
                lemma_cells_of_contains(positions@, p);
            }
        }
        Some(Piece { shape: self.shape, positions, pivot: Cell(px as i32, py as i32) })
    }

    /// The piece moved by `delta`: every cell and the pivot.
    pub fn translate(&self, delta: Cell) -> (r: Piece)
        requires
            self.wf(),
            self@.translate(delta@).fits(),
        ensures
            r.wf(),
            r@ == self@.translate(delta@),
            r@.cells.len() == self@.cells.len(),
    {
        self.checked_translate(delta).unwrap()
    }

    /// The piece turned by a quarter about its pivot, or `None` if a
    /// coordinate of the result would not fit in a cell.
    pub fn checked_rotate(&self) -> (r: Option<Piece>)
        requires
            self.wf(),
        ensures
            r.is_some() == self@.rotate().fits(),
            r matches Some(p) ==> p.wf() && p@ == self@.rotate() && p@.cells.len()
                == self@.cells.len(),
    {
        let ghost pivot = self.pivot@;
        let ghost f = rotate_by(pivot);
        proof {
            self@.lemma_rotate();
            lemma_cells_of_distinct(self.positions@);
        }
        let a: i64 = self.pivot.0 as i64;
        let b: i64 = self.pivot.1 as i64;
        let mut positions: Vec<Cell> = Vec::new();
        let mut i: usize = 0;
        while i < self.positions.len()
            invariant
                i <= self.positions@.len(),
                self.positions@.len() <= 4,
                pivot == self.pivot@,
                a == pivot.0,
                b == pivot.1,
                f == rotate_by(pivot),
                positions@.no_duplicates(),
                positions@.len() <= i,
                cells_of(positions@) == cells_of(self.positions@.take(i as int)).map(f),
            decreases self.positions@.len() - i,
        {
            let c = self.positions[i];
            let x: i64 = a + b - c.1 as i64;
            let y: i64 = b - a + c.0 as i64;
            proof {
                lemma_cells_of_take_next(self.positions@, i as int);
                cells_of(self.positions@.take(i as int)).lemma_set_map_insert_commute(c@, f);
                lemma_cells_of_contains(self.positions@, c@);
                assert(f(c@) == (x as int, y as int));
            }
            if x < i32::MIN as i64 || x > i32::MAX as i64 || y < i32::MIN as i64 || y
                > i32::MAX as i64 {
                proof {
                    assert(self@.cells.contains(c@));
                    assert(self@.rotate().cells.contains(f(c@)));
                }
                return None;
            }
            insert_cell(&mut positions, Cell(x as i32, y as i32));
            i += 1;
        }
        proof {
            assert(self.positions@.take(i as int) =~= self.positions@);
            assert forall|p: Point| #[trigger] self@.rotate().cells.contains(p) implies point_fits(
                p,
            ) by {
                lemma_cells_of_contains(positions@, p);
            }
        }
        Some(Piece { shape: self.shape, positions, pivot: self.pivot })
    }

    /// The piece turned by a quarter about its pivot. The pivot stays.
    pub fn rotate(&self) -> (r: Piece)
        requires
            self.wf(),
            self@.rotate().fits(),
        ensures
            r.wf(),
            r@ == self@.rotate(),
            r@.pivot == self@.pivot,
            r@.cells.len() == self@.cells.len(),
    {
        self.checked_rotate().unwrap()
    }

    /// Deletes the cells of row `y` and moves the cells above it one row down.
    pub fn remove_cell(&mut self, y: i32)
        requires
            old(self).wf(),
        ensures
            final(self).wf(),
            final(self)@ == old(self)@.remove_row(y as int),
            final(self)@.cells.len() <= old(self)@.cells.len(),
    {
        let ghost row = y as int;
        let ghost keep = off_row(row);
        let ghost f = settle_by(row);
        proof {
            self@.lemma_remove_row(row);
            lemma_cells_of_distinct(self.positions@);
        }
        let mut positions: Vec<Cell> = Vec::new();
        let mut i: usize = 0;
        while i < self.positions.len()
            invariant
                i <= self.positions@.len(),
                self.positions@.len() <= 4,
                row == y,
                keep == off_row(row),
                f == settle_by(row),
                positions@.no_duplicates(),
                positions@.len() <= i,
                cells_of(positions@) == cells_of(self.positions@.take(i as int)).filter(keep).map(
                    f,
                ),
            decreases self.positions@.len() - i,
        {
            let c = self.positions[i];
            let ghost seen = cells_of(self.positions@.take(i as int));
            proof {
                lemma_cells_of_take_next(self.positions@, i as int);
            }
            if c.1 != y {
                let moved = if c.1 >= y {
                    c
                } else {
                    Cell(c.0, c.1 + 1)
                };
                proof {
                    assert(seen.insert(c@).filter(keep) =~= seen.filter(keep).insert(c@));
                    seen.filter(keep).lemma_set_map_insert_commute(c@, f);
                    assert(f(c@) == moved@);
                }
                insert_cell(&mut positions, moved);
            } else {
                proof {
                    assert(seen.insert(c@).filter(keep) =~= seen.filter(keep));
                }
            }
            i += 1;
        }
        proof {
            assert(self.positions@.take(i as int) =~= self.positions@);
            lemma_cells_of_distinct(positions@);
        }
        self.positions = positions;
    }
}

} // verus!
