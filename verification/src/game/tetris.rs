//! The board: gravity, shifting, rotation, landing and line clearing.

use crate::game::shape::{
    cells_of, lemma_cells_of_contains, lemma_template_cells, point_fits, Cell, Piece, PieceView,
    Point, Shape,
};
use vstd::prelude::*;

verus! {

/// A horizontal move.
#[derive(Debug, Clone, Copy, PartialEq, Eq, Structural)]
pub enum Direction {
    Left,
    Right,
}

impl Direction {
    /// The offset of one step in this direction.
    pub open spec fn delta(self) -> Point {
        match self {
            Direction::Left => (-1, 0),
            Direction::Right => (1, 0),
        }
    }
}

/// The column in which pieces enter a board of the given width: half of
/// `width - 1`, rounded toward zero.
pub open spec fn spawn_column(width: int) -> int {
    if width >= 1 {
        (width - 1) / 2
    } else {
        -((1 - width) / 2)
    }
}

/// The values of a sequence of pieces.
pub open spec fn views(s: Seq<Piece>) -> Seq<PieceView> {
    Seq::new(s.len(), |i: int| s[i]@)
}

/// The mathematical value of a board.
pub struct BoardView {
    pub width: int,
    pub height: int,
    pub current: PieceView,
    pub landed: Seq<PieceView>,
    pub alive: bool,
}

impl BoardView {
    /// Every piece of the board is a valid piece.
    pub open spec fn valid(self) -> bool {
        &&& self.current.valid()
        &&& forall|i: int| 0 <= i < self.landed.len() ==> (#[trigger] self.landed[i]).valid()
    }

    /// Whether the point lies on the board.
    pub open spec fn in_bounds(self, c: Point) -> bool {
        0 <= c.0 < self.width && 0 <= c.1 < self.height
    }

    /// Whether some cell of the piece lies off the board.
    pub open spec fn out_of_bounds(self, p: PieceView) -> bool {
        exists|c: Point| p.cells.contains(c) && !self.in_bounds(c)
    }

    /// Whether the landed piece number `i` occupies `c`.
    pub open spec fn landed_at(self, i: int, c: Point) -> bool {
        0 <= i < self.landed.len() && self.landed[i].cells.contains(c)
    }

    /// Whether some landed piece occupies `c`.
    pub open spec fn occupied(self, c: Point) -> bool {
        exists|i: int| self.landed_at(i, c)
    }

    /// Whether one of the first `n` landed pieces occupies `c`.
    pub open spec fn occupied_before(self, n: int, c: Point) -> bool {
        exists|i: int| 0 <= i < n && self.landed_at(i, c)
    }

    /// Whether the piece shares a cell with a landed piece.
    pub open spec fn colliding(self, p: PieceView) -> bool {
        exists|i: int| 0 <= i < self.landed.len() && (#[trigger] self.landed[i]).collides(p)
    }

    /// Whether the piece may not be placed: it leaves the board or hits a
    /// landed piece.
    pub open spec fn blocked(self, p: PieceView) -> bool {
        self.out_of_bounds(p) || self.colliding(p)
    }

    /// The columns in which row `y` holds a landed cell.
    pub open spec fn occupied_columns(self, y: int) -> Set<int> {
        Set::new(|x: int| self.occupied((x, y)))
    }

    /// Whether row `y` holds a landed cell in exactly `width` columns.
    pub open spec fn line_full(self, y: int) -> bool {
        self.occupied_columns(y).len() == self.width
    }

    /// The board after row `y` is removed from every landed piece.
    pub open spec fn remove_line(self, y: int) -> BoardView {
        BoardView {
            landed: Seq::new(self.landed.len(), |i: int| self.landed[i].remove_row(y)),
            ..self
        }
    }

    /// The board after the rows from `y` to the bottom are scanned downward
    /// and each row found full is removed.
    pub open spec fn clear_from(self, y: int) -> BoardView
        decreases self.height - y,
    {
        if y >= self.height {
            self
        } else if self.line_full(y) {
            self.remove_line(y).clear_from(y + 1)
        } else {
            self.clear_from(y + 1)
        }
    }

    /// The board after one scan of all its rows, top to bottom.
    pub open spec fn remove_full_lines(self) -> BoardView {
        self.clear_from(0)
    }

    /// The piece of tag `shape` where it enters the board.
    pub open spec fn spawn(self, shape: Shape) -> PieceView {
        PieceView::template(shape).translate((spawn_column(self.width), 0))
    }

    /// A fresh board whose first piece has the tag `shape`.
    pub open spec fn initial(width: int, height: int, shape: Shape) -> BoardView {
        BoardView {
            width,
            height,
            current: PieceView::template(shape).translate((spawn_column(width), 0)),
            landed: Seq::empty(),
            alive: true,
        }
    }

    /// While the game goes on, the falling piece touches no landed piece.
    pub open spec fn no_overlap(self) -> bool {
        self.alive ==> !self.colliding(self.current)
    }

    /// What holds of every board that play can reach: the falling piece of a
    /// game that goes on touches no landed piece, and its pivot is one of
    /// its cells.
    pub open spec fn inv(self) -> bool {
        &&& self.no_overlap()
        &&& self.current.cells.contains(self.current.pivot)
    }

    /// The board right after the falling piece has landed and a piece of
    /// tag `next` has entered, before the game is judged over or not.
    pub open spec fn land(self, next: Shape) -> BoardView {
        (BoardView {
            current: self.spawn(next),
            landed: self.landed.push(self.current),
            ..self
        }).remove_full_lines()
    }

    /// One step of gravity; `next` is the tag of the piece that enters if
    /// the falling piece lands.
    pub open spec fn tick(self, next: Shape) -> BoardView {
        let advanced = self.current.translate((0, 1));
        if !self.alive {
            self
        } else if self.blocked(advanced) {
            let settled = self.land(next);
            BoardView { alive: !settled.colliding(settled.current), ..settled }
        } else {
            BoardView { current: advanced, ..self }
        }
    }

    /// One step to the side, if the place is free.
    pub open spec fn shift(self, direction: Direction) -> BoardView {
        let shifted = self.current.translate(direction.delta());
        if self.alive && !self.blocked(shifted) {
            BoardView { current: shifted, ..self }
        } else {
            self
        }
    }

    /// A quarter turn of the falling piece, if the place is free.
    pub open spec fn rotate(self) -> BoardView {
        let rotated = self.current.rotate();
        if self.alive && !self.blocked(rotated) {
            BoardView { current: rotated, ..self }
        } else {
            self
        }
    }

    /// The tag of the piece that occupies `c`: the falling piece if it does,
    /// else the first landed piece that does.
    pub open spec fn get(self, c: Point) -> Option<Shape> {
        if self.current.cells.contains(c) {
            Some(self.current.shape)
        } else if self.occupied(c) {
            let first = choose|i: int|
                self.landed_at(i, c) && forall|j: int| 0 <= j < i ==> !self.landed_at(j, c);
            Some(self.landed[first].shape)
        } else {
            None
        }
    }
}

/// What a driver needs from a game: the commands, and the queries that a
/// renderer reads.
pub trait Tetris {
    /// The invariant that every command keeps.
    spec fn wf(&self) -> bool;

    /// The mathematical value of the game.
    spec fn model(&self) -> BoardView;

    /// One step of gravity. A game that is over stays as it is. If the
    /// falling piece cannot go down it lands, full rows are cleared, and a
    /// piece of some tag enters; the game is over if that piece is hit.
    fn tick(&mut self)
        requires
            old(self).wf(),
        ensures
            final(self).wf(),
            exists|next: Shape| final(self).model() == #[trigger] old(self).model().tick(next),
            !old(self).model().alive ==> final(self).model() == old(self).model(),
            final(self).model().no_overlap(),
    ;

    /// A quarter turn of the falling piece, if the place is free; else
    /// nothing changes.
    fn rotate(&mut self)
        requires
            old(self).wf(),
        ensures
            final(self).wf(),
            final(self).model() == old(self).model().rotate(),
            !old(self).model().alive ==> final(self).model() == old(self).model(),
            old(self).model().blocked(old(self).model().current.rotate()) ==> final(self).model()
                == old(self).model(),
            final(self).model().no_overlap(),
    ;

    /// The tag of the piece that occupies `cell`, if any: the falling piece
    /// first, then the landed pieces in the order in which they landed.
    fn get(&self, cell: Cell) -> (r: Option<Shape>)
        ensures
            r == self.model().get(cell@),
    ;

    /// One step to the side, if the place is free; else nothing changes.
    fn shift(&mut self, direction: Direction)
        requires
            old(self).wf(),
        ensures
            final(self).wf(),
            final(self).model() == old(self).model().shift(direction),
            !old(self).model().alive ==> final(self).model() == old(self).model(),
            old(self).model().blocked(old(self).model().current.translate(direction.delta()))
                ==> final(self).model() == old(self).model(),
            final(self).model().no_overlap(),
    ;

    /// Whether the game goes on.
    fn alive(&self) -> (b: bool)
        ensures
            b == self.model().alive,
    ;

    /// The width and the height of the board.
    fn board_size(&self) -> (r: (i32, i32))
        ensures
            r.0 == self.model().width,
            r.1 == self.model().height,
    ;
}

/// Whether `x` is among the numbers of `v`.
fn listed(v: &Vec<i32>, x: i32) -> (b: bool)
    ensures
        b == v@.contains(x),
{
    let mut i: usize = 0;
    while i < v.len()
        invariant
            i <= v@.len(),
            forall|j: int| 0 <= j < i ==> v@[j] != x,
        decreases v@.len() - i,
    {
        if v[i] == x {
            return true;
        }
        i += 1;
    }
    false
}

/// The engine: a board, the falling piece, the landed pieces and whether
/// the game goes on.
pub struct TetrisBoard {
    width: i32,
    height: i32,
    current_piece: Piece,
    landed_pieces: Vec<Piece>,
    alive: bool,
}

impl View for TetrisBoard {
    type V = BoardView;

    closed spec fn view(&self) -> BoardView {
        BoardView {
            width: self.width as int,
            height: self.height as int,
            current: self.current_piece@,
            landed: views(self.landed_pieces@),
            alive: self.alive,
        }
    }
}

impl TetrisBoard {
    /// The representation invariant: every piece is well formed.
    pub closed spec fn pieces_wf(&self) -> bool {
        &&& self.current_piece.wf()
        &&& forall|i: int|
            0 <= i < self.landed_pieces@.len() ==> (#[trigger] self.landed_pieces@[i]).wf()
    }

    /// What the representation invariant means for the value of the board.
    pub proof fn lemma_pieces_wf_view(&self)
        requires
            self.pieces_wf(),
        ensures
            self@.valid(),
            self@.current.fits(),
            forall|i: int| 0 <= i < self@.landed.len() ==> (#[trigger] self@.landed[i]).fits(),
            i32::MIN <= self@.width <= i32::MAX,
            i32::MIN <= self@.height <= i32::MAX,
    {
        self.current_piece.lemma_wf_view();
        assert forall|i: int| 0 <= i < self@.landed.len() implies (
        #[trigger] self@.landed[i]).valid() && self@.landed[i].fits() by {
            self.landed_pieces@[i].lemma_wf_view();
        }
    }

    /// The falling piece.
    pub fn current_piece(&self) -> (p: &Piece)
        requires
            self.pieces_wf(),
        ensures
            p.wf(),
            p@ == self@.current,
    {
        &self.current_piece
    }

    /// The landed pieces, in the order in which they landed.
    pub fn landed_pieces(&self) -> (v: &Vec<Piece>)
        requires
            self.pieces_wf(),
        ensures
            views(v@) == self@.landed,
            forall|i: int| 0 <= i < v@.len() ==> (#[trigger] v@[i]).wf(),
    {
        &self.landed_pieces
    }

    /// Whether some cell of the piece lies off the board.
    pub fn is_out_of_bounds(&self, piece: &Piece) -> (b: bool)
        requires
            piece.wf(),
        ensures
            b == self@.out_of_bounds(piece@),
    {
        let cells = piece.iter_positions();
        let mut i: usize = 0;
        while i < cells.len()
            invariant
                i <= cells@.len(),
                cells_of(cells@) == piece@.cells,
                forall|j: int| 0 <= j < i ==> self@.in_bounds(#[trigger] cells@[j]@),
            decreases cells@.len() - i,
        {
            let cell = cells[i];
            if !(0 <= cell.0 && cell.0 < self.width && 0 <= cell.1 && cell.1 < self.height) {
                proof {
                    lemma_cells_of_contains(cells@, cell@);
                    assert(cells@[i as int]@ == cell@);
                    assert(piece@.cells.contains(cell@) && !self@.in_bounds(cell@));
                }
                return true;
            }
            i += 1;
        }
        proof {
            assert forall|c: Point| !(piece@.cells.contains(c) && !self@.in_bounds(c)) by {
                lemma_cells_of_contains(cells@, c);
            }
        }
        false
    }

    /// Whether the piece shares a cell with a landed piece.
    pub fn is_colliding(&self, piece: &Piece) -> (b: bool)
        ensures
            b == self@.colliding(piece@),
    {
        let mut i: usize = 0;
        while i < self.landed_pieces.len()
            invariant
                i <= self.landed_pieces@.len(),
                forall|j: int| 0 <= j < i ==> !(#[trigger] self@.landed[j]).collides(piece@),
            decreases self.landed_pieces@.len() - i,
        {
            if self.landed_pieces[i].collides_with(piece) {
                assert(self@.landed[i as int].collides(piece@));
                return true;
            }
            i += 1;
        }
        false
    }
    /// Deletes row `y` from every landed piece; what lay above moves down.
    fn remove_line(&mut self, y: i32)
        requires
            old(self).pieces_wf(),
        ensures
            final(self).pieces_wf(),
            final(self)@ == old(self)@.remove_line(y as int),
    {
        let mut i: usize = 0;
        while i < self.landed_pieces.len()
            invariant
                i <= self.landed_pieces@.len(),
                self.landed_pieces@.len() == old(self).landed_pieces@.len(),
                self.pieces_wf(),
                self.width == old(self).width,
                self.height == old(self).height,
                self.alive == old(self).alive,
                self.current_piece == old(self).current_piece,
                forall|k: int|
                    0 <= k < i ==> (#[trigger] self.landed_pieces@[k])@
                        == old(self).landed_pieces@[k]@.remove_row(y as int),
                forall|k: int|
                    i <= k < self.landed_pieces@.len() ==> #[trigger] self.landed_pieces@[k]
                        == old(self).landed_pieces@[k],
            decreases self.landed_pieces@.len() - i,
        {
            self.landed_pieces[i].remove_cell(y);
            i += 1;
        }
        assert(self@.landed =~= old(self)@.remove_line(y as int).landed);
    }
    /// Whether row `y` holds a landed cell in exactly `width` columns.
    pub fn is_line_full(&self, y: i32) -> (b: bool)
        requires
            self.pieces_wf(),
        ensures
            b == self@.line_full(y as int),
    {
        let mut columns: Vec<i32> = Vec::new();
        let mut i: usize = 0;
        while i < self.landed_pieces.len()
            invariant
                i <= self.landed_pieces@.len(),
                self.pieces_wf(),
                columns@.no_duplicates(),
                forall|x: i32| #[trigger]
                    columns@.contains(x) <==> self@.occupied_before(i as int, (x as int, y as int)),
            decreases self.landed_pieces@.len() - i,
        {
            let cells = self.landed_pieces[i].iter_positions();
            let mut j: usize = 0;
            while j < cells.len()
                invariant
                    j <= cells@.len(),
                    columns@.no_duplicates(),
                    forall|x: i32| #[trigger]
                        columns@.contains(x) <==> (self@.occupied_before(
                            i as int,
                            (x as int, y as int),
                        ) || cells_of(cells@.take(j as int)).contains((x as int, y as int))),
                decreases cells@.len() - j,
            {
                let cell = cells[j];
                let ghost before = columns@;
                if cell.1 == y && !listed(&columns, cell.0) {
                    columns.push(cell.0);
                }
                proof {
                    assert forall|x: i32| #[trigger]
                        columns@.contains(x) <==> (self@.occupied_before(
                            i as int,
                            (x as int, y as int),
                        ) || cells_of(cells@.take(j as int + 1)).contains(
                            (x as int, y as int),
                        )) by {
                        let c = (x as int, y as int);
                        lemma_cells_of_contains(cells@.take(j as int), c);
                        lemma_cells_of_contains(cells@.take(j as int + 1), c);
                        if cells_of(cells@.take(j as int)).contains(c) {
                            let k = choose|k: int|
                                0 <= k < cells@.take(j as int).len() && #[trigger] cells@.take(
                                    j as int,
                                )[k]@ == c;
                            assert(cells@.take(j as int + 1)[k]@ == c);
                        }
                        if cells_of(cells@.take(j as int + 1)).contains(c) {
                            let k = choose|k: int|
                                0 <= k < cells@.take(j as int + 1).len() && #[trigger] cells@.take(
                                    j as int + 1,
                                )[k]@ == c;
                            if k < j {
                                assert(cells@.take(j as int)[k]@ == c);
                            } else {
                                assert(cell@ == c);
                            }
                        }
                        if cell@ == c {
                            assert(cells@.take(j as int + 1)[j as int]@ == c);
                        }
                        if before.contains(x) {
                            let k = choose|k: int| 0 <= k < before.len() && before[k] == x;
                            assert(columns@[k] == x);
                        }
                        if columns@.len() > before.len() {
                            assert(columns@[before.len() as int] == cell.0);
                        }
                    }
                }
                j += 1;
            }
            proof {
                assert(cells@.take(j as int) =~= cells@);
                assert forall|x: i32| #[trigger]
                    columns@.contains(x) <==> self@.occupied_before(
                        i as int + 1,
                        (x as int, y as int),
                    ) by {
                    let c = (x as int, y as int);
                    if self@.occupied_before(i as int, c) {
                        let k = choose|k: int| 0 <= k < i as int && self@.landed_at(k, c);
                        assert(self@.landed_at(k, c));
                    }
                    if cells_of(cells@).contains(c) {
                        assert(self@.landed_at(i as int, c));
                    }
                    if self@.occupied_before(i as int + 1, c) {
                        let k = choose|k: int| 0 <= k < i as int + 1 && self@.landed_at(k, c);
                        if k < i {
                            assert(self@.landed_at(k, c));
                        }
                    }
                }
            }
            i += 1;
        }
        proof {
            let row = y as int;
            let m = columns@.map_values(|x: i32| x as int);
            assert(m.no_duplicates()) by {
                assert forall|a: int, b: int|
                    0 <= a < m.len() && 0 <= b < m.len() && a != b implies m[a] != m[b] by {
                    assert(columns@[a] != columns@[b]);
                }
            }
            m.unique_seq_to_set();
            assert forall|x: int| m.to_set().contains(x) <==> self@.occupied_columns(row).contains(
                x,
            ) by {
                if m.to_set().contains(x) {
                    let k = choose|k: int| 0 <= k < m.len() && m[k] == x;
                    assert(columns@.contains(columns@[k]));
                    let w = choose|w: int| 0 <= w < i as int && self@.landed_at(w, (x, row));
                    assert(self@.landed_at(w, (x, row)));
                }
                if self@.occupied_columns(row).contains(x) {
                    let w = choose|w: int| self@.landed_at(w, (x, row));
                    self.lemma_pieces_wf_view();
                    assert(self@.landed[w].cells.contains((x, row)));
                    let x32 = x as i32;
                    assert(self@.occupied_before(i as int, (x32 as int, row)));
                    assert(columns@.contains(x32));
                    let k = choose|k: int| 0 <= k < columns@.len() && columns@[k] == x32;
                    assert(m[k] == x);
                }
            }
            assert(m.to_set() =~= self@.occupied_columns(row));
        }
        self.width >= 0 && columns.len() == self.width as usize
    }

    /// Scans the rows from the top down and removes each row found full.
    fn remove_full_lines(&mut self)
        requires
            old(self).pieces_wf(),
        ensures
            final(self).pieces_wf(),
            final(self)@ == old(self)@.remove_full_lines(),
    {
        let mut y: i32 = 0;
        while y < self.height
            invariant
                0 <= y,
                self.pieces_wf(),
                self@.clear_from(y as int) == old(self)@.clear_from(0),
                self@.height == self.height,
            decreases self.height - y,
        {
            if self.is_line_full(y) {
                self.remove_line(y);
            }
            y += 1;
        }
    }

    /// Whether the piece may be placed: it lies on the board and hits no
    /// landed piece.
    fn is_free(&self, piece: &Piece) -> (b: bool)
        requires
            piece.wf(),
        ensures
            b == !self@.blocked(piece@),
    {
        !self.is_out_of_bounds(piece) && !self.is_colliding(piece)
    }

    /// A piece whose coordinates do not all fit in a cell lies off the board.
    proof fn lemma_unfit_is_out_of_bounds(&self, p: PieceView)
        requires
            !p.fits(),
            p.cells.contains(p.pivot),
        ensures
            self@.out_of_bounds(p),
    {
        if !point_fits(p.pivot) {
            assert(p.cells.contains(p.pivot) && !self@.in_bounds(p.pivot));
        } else {
            let c = choose|c: Point| p.cells.contains(c) && !point_fits(c);
            assert(p.cells.contains(c) && !self@.in_bounds(c));
        }
    }

    /// The piece of tag `shape` where it enters a board of the given width.
    fn spawn(width: i32, shape: Shape) -> (r: Piece)
        ensures
            r.wf(),
            r@ == PieceView::template(shape).translate((spawn_column(width as int), 0)),
            r@.cells.contains(r@.pivot),
    {
        let column: i64 = (width as i64 - 1) / 2;
        let template = Piece::new(shape);
        proof {
            let d = (column as int, 0int);
            lemma_template_cells(shape);
            template@.lemma_translate(d);
            assert(template@.translate(d).fits()) by {
                assert forall|p: Point| #[trigger]
                    template@.translate(d).cells.contains(p) implies point_fits(p) by {
                    assert(template@.cells.contains((p.0 - d.0, p.1 - d.1)));
                }
            }
        }
        template.translate(Cell(column as i32, 0))
    }

    /// A board of the given size whose first piece has the tag `first`.
    pub fn new_with(width: i32, height: i32, first: Shape) -> (r: TetrisBoard)
        ensures
            r.wf(),
            r@ == BoardView::initial(width as int, height as int, first),
    {
        let r = TetrisBoard {
            width,
            height,
            current_piece: Self::spawn(width, first),
            landed_pieces: Vec::new(),
            alive: true,
        };
        assert(r@.landed =~= Seq::<PieceView>::empty());
        r
    }

    /// A board of the given size whose first piece is drawn at random.
    pub fn new(width: i32, height: i32) -> (r: TetrisBoard)
        ensures
            r.wf(),
            exists|first: Shape|
                r@ == #[trigger] BoardView::initial(width as int, height as int, first),
    {
        let first = Piece::random_piece().shape();
        Self::new_with(width, height, first)
    }

    /// A board ten wide and twenty high.
    pub fn new_default() -> (r: TetrisBoard)
        ensures
            r.wf(),
            exists|first: Shape| r@ == #[trigger] BoardView::initial(10, 20, first),
    {
        Self::new(10, 20)
    }

    /// One step of gravity; `next` is the tag of the piece that enters if
    /// the falling piece lands.
    pub fn tick_with(&mut self, next: Shape)
        requires
            old(self).wf(),
        ensures
            final(self).wf(),
            final(self)@ == old(self)@.tick(next),
            !old(self)@.alive ==> final(self)@ == old(self)@,
            final(self)@.no_overlap(),
    {
        if !self.alive {
            return ;
        }
        proof {
            self@.current.lemma_translate((0, 1));
        }
        let moved = self.current_piece.checked_translate(Cell(0, 1));
        let advanced = match moved {
            Some(piece) => if self.is_free(&piece) {
                Some(piece)
            } else {
                None
            },
            None => {
                proof {
                    self.lemma_unfit_is_out_of_bounds(self@.current.translate((0, 1)));
                }
                None
            },
        };
        match advanced {
            Some(piece) => {
                self.current_piece = piece;
            },
            None => {
                let mut landed = Self::spawn(self.width, next);
                std::mem::swap(&mut self.current_piece, &mut landed);
                self.landed_pieces.push(landed);
                assert(self@.landed =~= old(self)@.landed.push(old(self)@.current));
                self.remove_full_lines();
                proof {
                    old(self)@.lemma_land_keeps_current(next);
                }
                if self.is_colliding(&self.current_piece) {
                    self.alive = false;
                }
            },
        }
    }
}

impl BoardView {
    /// Clearing rows touches only the landed pieces.
    pub proof fn lemma_clear_from_keeps_rest(self, y: int)
        ensures
            self.clear_from(y).current == self.current,
            self.clear_from(y).width == self.width,
            self.clear_from(y).height == self.height,
            self.clear_from(y).alive == self.alive,
            self.clear_from(y).landed.len() == self.landed.len(),
        decreases self.height - y,
    {
        if y >= self.height {
        } else if self.line_full(y) {
            self.remove_line(y).lemma_clear_from_keeps_rest(y + 1);
        } else {
            self.lemma_clear_from_keeps_rest(y + 1);
        }
    }

    /// Which pieces lie on the board depends on its size alone.
    pub proof fn lemma_bounds_by_size(self, other: BoardView, p: PieceView)
        requires
            self.width == other.width,
            self.height == other.height,
        ensures
            self.out_of_bounds(p) == other.out_of_bounds(p),
    {
        if self.out_of_bounds(p) {
            let c = choose|c: Point| p.cells.contains(c) && !self.in_bounds(c);
            assert(p.cells.contains(c) && !other.in_bounds(c));
        }
        if other.out_of_bounds(p) {
            let c = choose|c: Point| p.cells.contains(c) && !other.in_bounds(c);
            assert(p.cells.contains(c) && !self.in_bounds(c));
        }
    }

    /// After a landing, the falling piece is the one that entered.
    pub proof fn lemma_land_keeps_current(self, next: Shape)
        ensures
            self.land(next).current == self.spawn(next),
            self.land(next).width == self.width,
            self.land(next).height == self.height,
            self.land(next).alive == self.alive,
            self.land(next).landed.len() == self.landed.len() + 1,
            self.land(next).current.cells.contains(self.land(next).current.pivot),
    {
        let b = BoardView {
            current: self.spawn(next),
            landed: self.landed.push(self.current),
            ..self
        };
        b.lemma_clear_from_keeps_rest(0);
        lemma_template_cells(next);
        PieceView::template(next).lemma_translate((spawn_column(self.width), 0));
    }
}

impl Tetris for TetrisBoard {
    open spec fn wf(&self) -> bool {
        self.pieces_wf() && self@.inv()
    }

    open spec fn model(&self) -> BoardView {
        self@
    }

    fn tick(&mut self) {
        let next = Piece::random_piece().shape();
        self.tick_with(next);
    }

    fn rotate(&mut self) {
        if !self.alive {
            return ;
        }
        proof {
            self@.current.lemma_rotate();
        }
        match self.current_piece.checked_rotate() {
            Some(rotated) => {
                if self.is_free(&rotated) {
                    self.current_piece = rotated;
                }
            },
            None => {
                proof {
                    self.lemma_unfit_is_out_of_bounds(self@.current.rotate());
                }
            },
        }
    }

    fn get(&self, cell: Cell) -> (r: Option<Shape>) {
        if self.current_piece.has_position(cell) {
            return Some(self.current_piece.shape());
        }
        let mut i: usize = 0;
        while i < self.landed_pieces.len()
            invariant
                i <= self.landed_pieces@.len(),
                !self@.current.cells.contains(cell@),
                forall|j: int| 0 <= j < i ==> !self@.landed_at(j, cell@),
            decreases self.landed_pieces@.len() - i,
        {
            if self.landed_pieces[i].has_position(cell) {
                proof {
                    let c = cell@;
                    let here = i as int;
                    assert(self@.landed_at(here, c) && forall|j: int|
                        0 <= j < here ==> !self@.landed_at(j, c));
                    let first = choose|k: int|
                        self@.landed_at(k, c) && forall|j: int|
                            0 <= j < k ==> !self@.landed_at(j, c);
                    if first < here {
                        assert(!self@.landed_at(first, c));
                    }
                    if first > here {
                        assert(!self@.landed_at(here, c));
                    }
                    assert(first == here);
                }
                return Some(self.landed_pieces[i].shape());
            }
            i += 1;
        }
        None
    }

    fn shift(&mut self, direction: Direction) {
        if !self.alive {
            return ;
        }
        let delta = match direction {
            Direction::Left => Cell(-1, 0),
            Direction::Right => Cell(1, 0),
        };
        proof {
            self@.current.lemma_translate(delta@);
        }
        match self.current_piece.checked_translate(delta) {
            Some(shifted) => {
                if self.is_free(&shifted) {
                    self.current_piece = shifted;
                }
            },
            None => {
                proof {
                    self.lemma_unfit_is_out_of_bounds(self@.current.translate(delta@));
                }
            },
        }
    }

    fn alive(&self) -> (b: bool) {
        self.alive
    }

    fn board_size(&self) -> (r: (i32, i32)) {
        (self.width, self.height)
    }
}

} // verus!
