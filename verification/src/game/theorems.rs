//! What holds of pieces and boards in general, proved over their
//! mathematical values.

use crate::game::shape::{lemma_template_cells, PieceView, Point, Shape};
use crate::game::tetris::{spawn_column, BoardView, Direction};
use vstd::prelude::*;

verus! {

/// Four quarter turns bring every piece back to where it was: the same
/// cells, the same pivot, the same tag.
pub proof fn lemma_four_rotations(p: PieceView)
    ensures
        p.rotate().rotate().rotate().rotate() == p,
{
    let q1 = p.rotate();
    let q2 = q1.rotate();
    let q3 = q2.rotate();
    let q4 = q3.rotate();
    p.lemma_rotate();
    q1.lemma_rotate();
    q2.lemma_rotate();
    q3.lemma_rotate();
    let a = p.pivot.0;
    let b = p.pivot.1;
    assert forall|c: Point| q4.cells.contains(c) <==> p.cells.contains(c) by {
        let c1 = (c.1 - b + a, a + b - c.0);
        let c2 = (c1.1 - b + a, a + b - c1.0);
        let c3 = (c2.1 - b + a, a + b - c2.0);
        let c4 = (c3.1 - b + a, a + b - c3.0);
        assert(q4.cells.contains(c) <==> q3.cells.contains(c1));
        assert(q3.cells.contains(c1) <==> q2.cells.contains(c2));
        assert(q2.cells.contains(c2) <==> q1.cells.contains(c3));
        assert(q1.cells.contains(c3) <==> p.cells.contains(c4));
        assert(c4 == c);
    }
    assert(q4.cells =~= p.cells);
}

/// A quarter turn moves neither the pivot nor the tag.
pub proof fn lemma_rotation_keeps_pivot(p: PieceView)
    ensures
        p.rotate().pivot == p.pivot,
        p.rotate().shape == p.shape,
{
}

/// A command that a driver can give.
pub enum Command {
    /// A step of gravity; the tag is that of the piece that enters if the
    /// falling piece lands.
    Tick(Shape),
    /// A step to the side.
    Shift(Direction),
    /// A quarter turn.
    Rotate,
}

impl BoardView {
    /// The board after one command.
    pub open spec fn apply(self, command: Command) -> BoardView {
        match command {
            Command::Tick(next) => self.tick(next),
            Command::Shift(direction) => self.shift(direction),
            Command::Rotate => self.rotate(),
        }
    }

    /// The board after the commands, given in order.
    pub open spec fn run(self, commands: Seq<Command>) -> BoardView
        decreases commands.len(),
    {
        if commands.len() == 0 {
            self
        } else {
            self.apply(commands[0]).run(commands.drop_first())
        }
    }

    /// Whether a step of gravity would make the falling piece land.
    pub open spec fn lands(self) -> bool {
        self.alive && self.blocked(self.current.translate((0, 1)))
    }

    /// While the game goes on, the falling piece lies on the board.
    pub open spec fn bounded(self) -> bool {
        self.alive ==> !self.out_of_bounds(self.current)
    }

    /// Whether the command lets no piece enter that sticks out of the board
    /// and survives: if it is a step of gravity on which the falling piece
    /// lands and the entering piece hits nothing, that piece lies on the
    /// board.
    pub open spec fn spawns_within(self, command: Command) -> bool {
        match command {
            Command::Tick(next) => self.lands() && !self.land(next).colliding(self.spawn(next))
                ==> !self.out_of_bounds(self.spawn(next)),
            _ => true,
        }
    }

    /// Whether every command of the run spawns within the board it meets.
    pub open spec fn spawns_within_run(self, commands: Seq<Command>) -> bool
        decreases commands.len(),
    {
        if commands.len() == 0 {
            true
        } else {
            self.spawns_within(commands[0]) && self.apply(commands[0]).spawns_within_run(
                commands.drop_first(),
            )
        }
    }
}

/// A fresh board satisfies the invariant of play.
pub proof fn lemma_initial_inv(width: int, height: int, first: Shape)
    ensures
        BoardView::initial(width, height, first).inv(),
        BoardView::initial(width, height, first).alive,
{
    lemma_template_cells(first);
    PieceView::template(first).lemma_translate((spawn_column(width), 0));
}

/// Every command keeps the invariant of play: while the game goes on, the
/// falling piece shares no cell with a landed piece.
pub proof fn lemma_apply_keeps_inv(b: BoardView, command: Command)
    requires
        b.inv(),
    ensures
        b.apply(command).inv(),
        b.apply(command).no_overlap(),
{
    match command {
        Command::Tick(next) => {
            b.lemma_land_keeps_current(next);
            b.current.lemma_translate((0, 1));
        },
        Command::Shift(direction) => {
            b.current.lemma_translate(direction.delta());
        },
        Command::Rotate => {
            b.current.lemma_rotate();
        },
    }
}

/// After any sequence of commands, while the game goes on, the falling piece
/// shares no cell with a landed piece.
pub proof fn lemma_run_keeps_inv(b: BoardView, commands: Seq<Command>)
    requires
        b.inv(),
    ensures
        b.run(commands).inv(),
        b.run(commands).no_overlap(),
    decreases commands.len(),
{
    if commands.len() > 0 {
        lemma_apply_keeps_inv(b, commands[0]);
        lemma_run_keeps_inv(b.apply(commands[0]), commands.drop_first());
    }
}

/// A command keeps the falling piece on the board, unless it lets a piece
/// enter that sticks out of the board.
pub proof fn lemma_apply_keeps_bounded(b: BoardView, command: Command)
    requires
        b.bounded(),
        b.spawns_within(command),
    ensures
        b.apply(command).bounded(),
{
    match command {
        Command::Tick(next) => {
            b.lemma_land_keeps_current(next);
            b.lemma_bounds_by_size(b.tick(next), b.tick(next).current);
        },
        Command::Shift(direction) => {
            b.lemma_bounds_by_size(b.shift(direction), b.shift(direction).current);
        },
        Command::Rotate => {
            b.lemma_bounds_by_size(b.rotate(), b.rotate().current);
        },
    }
}

/// After any sequence of commands that lets no piece enter that sticks out
/// of the board, the falling piece lies on the board while the game goes on.
pub proof fn lemma_run_keeps_bounded(b: BoardView, commands: Seq<Command>)
    requires
        b.bounded(),
        b.spawns_within_run(commands),
    ensures
        b.run(commands).bounded(),
    decreases commands.len(),
{
    if commands.len() > 0 {
        lemma_apply_keeps_bounded(b, commands[0]);
        lemma_run_keeps_bounded(b.apply(commands[0]), commands.drop_first());
    }
}

/// No command changes the size of the board.
pub proof fn lemma_apply_keeps_size(b: BoardView, command: Command)
    ensures
        b.apply(command).width == b.width,
        b.apply(command).height == b.height,
{
    match command {
        Command::Tick(next) => {
            b.lemma_land_keeps_current(next);
        },
        Command::Shift(direction) => {},
        Command::Rotate => {},
    }
}

/// On a board at least six wide and three high every piece enters on the
/// board.
pub proof fn lemma_roomy_board_hosts(b: BoardView, shape: Shape)
    requires
        b.width >= 6,
        b.height >= 3,
    ensures
        !b.out_of_bounds(b.spawn(shape)),
{
    lemma_template_cells(shape);
    PieceView::template(shape).lemma_translate((spawn_column(b.width), 0));
    assert forall|c: Point| b.spawn(shape).cells.contains(c) implies b.in_bounds(c) by {
        assert(PieceView::template(shape).cells.contains((c.0 - spawn_column(b.width), c.1 - 0)));
    }
}

/// On a board at least six wide and three high every sequence of commands
/// spawns within the board.
pub proof fn lemma_roomy_board_spawns_within(b: BoardView, commands: Seq<Command>)
    requires
        b.width >= 6,
        b.height >= 3,
    ensures
        b.spawns_within_run(commands),
    decreases commands.len(),
{
    if commands.len() > 0 {
        match commands[0] {
            Command::Tick(next) => {
                lemma_roomy_board_hosts(b, next);
            },
            _ => {},
        }
        lemma_apply_keeps_size(b, commands[0]);
        lemma_roomy_board_spawns_within(b.apply(commands[0]), commands.drop_first());
    }
}

/// Play on a board at least six wide and three high: whatever piece came
/// first and whatever commands followed, the falling piece lies on the board
/// and touches no landed piece while the game goes on.
pub proof fn lemma_play_on_roomy_board(
    width: int,
    height: int,
    first: Shape,
    commands: Seq<Command>,
)
    requires
        width >= 6,
        height >= 3,
    ensures
        BoardView::initial(width, height, first).run(commands).bounded(),
        BoardView::initial(width, height, first).run(commands).no_overlap(),
{
    let b = BoardView::initial(width, height, first);
    lemma_initial_inv(width, height, first);
    lemma_run_keeps_inv(b, commands);
    lemma_roomy_board_hosts(b, first);
    lemma_roomy_board_spawns_within(b, commands);
    lemma_run_keeps_bounded(b, commands);
}

/// Play on any board: whatever piece came first and whatever commands
/// followed, the falling piece touches no landed piece while the game goes
/// on.
pub proof fn lemma_play_never_overlaps(
    width: int,
    height: int,
    first: Shape,
    commands: Seq<Command>,
)
    ensures
        BoardView::initial(width, height, first).run(commands).no_overlap(),
{
    lemma_initial_inv(width, height, first);
    lemma_run_keeps_inv(BoardView::initial(width, height, first), commands);
}

/// A step of gravity lands at most one piece: the list of landed pieces
/// grows by one if the falling piece is blocked and is untouched otherwise,
/// and the piece that enters does not land on the same step.
pub proof fn lemma_tick_lands_at_most_one(b: BoardView, next: Shape)
    ensures
        b.tick(next).landed.len() == b.landed.len() + (if b.lands() {
            1int
        } else {
            0int
        }),
        !b.lands() ==> b.tick(next).landed == b.landed,
        b.lands() ==> b.tick(next).current == b.spawn(next),
{
    b.lemma_land_keeps_current(next);
}

/// Once the game is over, no command changes anything.
pub proof fn lemma_dead_is_terminal(b: BoardView, command: Command)
    requires
        !b.alive,
    ensures
        b.apply(command) == b,
{
}

/// Once the game is over, no sequence of commands changes anything.
pub proof fn lemma_dead_stays_dead(b: BoardView, commands: Seq<Command>)
    requires
        !b.alive,
    ensures
        b.run(commands) == b,
    decreases commands.len(),
{
    if commands.len() > 0 {
        lemma_dead_is_terminal(b, commands[0]);
        lemma_dead_stays_dead(b, commands.drop_first());
    }
}

/// A step to the side that is blocked, by the border or by a landed piece,
/// changes nothing.
pub proof fn lemma_blocked_shift_changes_nothing(b: BoardView, direction: Direction)
    requires
        b.blocked(b.current.translate(direction.delta())),
    ensures
        b.shift(direction) == b,
{
}

/// What the removal of row `y` does to each landed piece and to the board:
/// a point on or above the row is occupied afterwards exactly if the point
/// right above it was, a point below the row exactly if it was itself.
pub proof fn lemma_remove_line_cells(b: BoardView, y: int)
    ensures
        b.remove_line(y).landed.len() == b.landed.len(),
        forall|i: int, c: Point|
            0 <= i < b.landed.len() ==> (#[trigger] b.remove_line(y).landed[i].cells.contains(c)
                <==> (if c.1 <= y {
                b.landed[i].cells.contains((c.0, c.1 - 1))
            } else {
                b.landed[i].cells.contains(c)
            })),
        forall|c: Point| #[trigger]
            b.remove_line(y).occupied(c) <==> (if c.1 <= y {
                b.occupied((c.0, c.1 - 1))
            } else {
                b.occupied(c)
            }),
{
    let r = b.remove_line(y);
    assert forall|i: int, c: Point| 0 <= i < b.landed.len() implies (
    #[trigger] r.landed[i].cells.contains(c) <==> (if c.1 <= y {
        b.landed[i].cells.contains((c.0, c.1 - 1))
    } else {
        b.landed[i].cells.contains(c)
    })) by {
        b.landed[i].lemma_remove_row(y);
    }
    assert forall|c: Point| #[trigger]
        r.occupied(c) <==> (if c.1 <= y {
            b.occupied((c.0, c.1 - 1))
        } else {
            b.occupied(c)
        }) by {
        let from = if c.1 <= y {
            (c.0, c.1 - 1)
        } else {
            c
        };
        if r.occupied(c) {
            let i = choose|i: int| r.landed_at(i, c);
            assert(r.landed[i].cells.contains(c));
            assert(b.landed_at(i, from));
        }
        if b.occupied(from) {
            let i = choose|i: int| b.landed_at(i, from);
            assert(r.landed[i].cells.contains(c));
            assert(r.landed_at(i, c));
        }
    }
}

/// The removal of row `y` leaves the rows below it as full or not as they
/// were.
pub proof fn lemma_remove_line_keeps_lower_rows(b: BoardView, y: int, r: int)
    requires
        r > y,
    ensures
        b.remove_line(y).line_full(r) == b.line_full(r),
{
    lemma_remove_line_cells(b, y);
    assert(b.remove_line(y).occupied_columns(r) =~= b.occupied_columns(r));
}

/// A scan that meets no full row changes nothing.
pub proof fn lemma_clear_without_full_rows(b: BoardView, from: int)
    requires
        forall|r: int| from <= r < b.height ==> !b.line_full(r),
    ensures
        b.clear_from(from) == b,
    decreases b.height - from,
{
    if from < b.height {
        lemma_clear_without_full_rows(b, from + 1);
    }
}

/// A scan skips the rows that are not full.
pub proof fn lemma_clear_skips_rows(b: BoardView, from: int, to: int)
    requires
        from <= to <= b.height,
        forall|r: int| from <= r < to ==> !b.line_full(r),
    ensures
        b.clear_from(from) == b.clear_from(to),
    decreases to - from,
{
    if from < to {
        lemma_clear_skips_rows(b, from + 1, to);
    }
}

/// Line clearing with one full row. If row `y` is the only full row of the
/// board, clearing removes exactly that row: its cells are gone, every
/// landed cell above it has moved down by exactly one row, and every landed
/// cell below it is where it was. Row `y` then holds what row `y - 1` held.
pub proof fn lemma_single_full_line_cleared(b: BoardView, y: int)
    requires
        0 <= y < b.height,
        b.line_full(y),
        forall|r: int| 0 <= r < b.height && r != y ==> !b.line_full(r),
    ensures
        b.remove_full_lines() == b.remove_line(y),
        b.remove_full_lines().landed.len() == b.landed.len(),
        forall|i: int, c: Point|
            0 <= i < b.landed.len() && #[trigger] b.landed[i].cells.contains(c) && c.1 < y
                ==> b.remove_full_lines().landed[i].cells.contains((c.0, c.1 + 1)),
        forall|i: int, c: Point|
            0 <= i < b.landed.len() && #[trigger] b.landed[i].cells.contains(c) && c.1 > y
                ==> b.remove_full_lines().landed[i].cells.contains(c),
        forall|i: int, c: Point|
            0 <= i < b.landed.len() && #[trigger] b.remove_full_lines().landed[i].cells.contains(c)
                ==> (c.1 <= y && b.landed[i].cells.contains((c.0, c.1 - 1))) || (c.1 > y
                && b.landed[i].cells.contains(c)),
        forall|x: int| #[trigger]
            b.remove_full_lines().occupied((x, y)) <==> b.occupied((x, y - 1)),
{
    let cleared = b.remove_line(y);
    lemma_clear_skips_rows(b, 0, y);
    assert forall|r: int| y + 1 <= r < cleared.height implies !cleared.line_full(r) by {
        lemma_remove_line_keeps_lower_rows(b, y, r);
    }
    lemma_clear_without_full_rows(cleared, y + 1);
    lemma_remove_line_cells(b, y);
    assert forall|i: int, c: Point|
        0 <= i < b.landed.len() && #[trigger] b.landed[i].cells.contains(c) && c.1
            < y implies cleared.landed[i].cells.contains((c.0, c.1 + 1)) by {
        let moved = (c.0, c.1 + 1);
        assert(cleared.landed[i].cells.contains(moved) <==> b.landed[i].cells.contains(
            (moved.0, moved.1 - 1),
        ));
    }
}

impl BoardView {
    /// Whether row `r` lies on the board and is full.
    pub open spec fn full_row(self, r: int) -> bool {
        0 <= r < self.height && self.line_full(r)
    }

    /// The number of full rows from row `lo` up to, not including, row `hi`.
    pub open spec fn full_rows(self, lo: int, hi: int) -> int
        decreases hi - lo,
    {
        if lo >= hi {
            0
        } else if self.full_row(lo) {
            1 + self.full_rows(lo + 1, hi)
        } else {
            self.full_rows(lo + 1, hi)
        }
    }

    /// Whether a landed cell at `s` outlasts a scan that starts at row
    /// `from`: it does unless its row is scanned and full.
    pub open spec fn outlasts(self, from: int, s: Point) -> bool {
        !(s.1 >= from && self.full_row(s.1))
    }

    /// Where a landed cell at `s` lies after a scan that starts at row
    /// `from`: lower by the number of full rows that are scanned and lie
    /// below it.
    pub open spec fn sunk(self, from: int, s: Point) -> Point {
        (s.0, s.1 + self.full_rows(if s.1 + 1 >= from { s.1 + 1 } else { from }, self.height))
    }
}

/// The removal of row `y` leaves the number of full rows below it as it was.
pub proof fn lemma_remove_line_keeps_full_rows(b: BoardView, y: int, lo: int, hi: int)
    requires
        lo > y,
    ensures
        b.remove_line(y).full_rows(lo, hi) == b.full_rows(lo, hi),
    decreases hi - lo,
{
    if lo < hi {
        lemma_remove_line_keeps_lower_rows(b, y, lo);
        lemma_remove_line_keeps_full_rows(b, y, lo + 1, hi);
    }
}

/// What a scan from row `from` does to each landed piece, cell by cell: the
/// cells in full rows at or below `from` are gone, and every other cell has
/// sunk by the number of such rows below it.
pub proof fn lemma_clear_from_cells(b: BoardView, from: int, i: int, c: Point)
    requires
        0 <= from,
        0 <= i < b.landed.len(),
    ensures
        b.clear_from(from).landed.len() == b.landed.len(),
        b.clear_from(from).landed[i].cells.contains(c) <==> exists|s: Point|
            b.landed[i].cells.contains(s) && b.outlasts(from, s) && #[trigger] b.sunk(from, s)
                == c,
    decreases b.height - from,
{
    b.lemma_clear_from_keeps_rest(from);
    let after = b.clear_from(from);
    if from >= b.height {
        assert forall|s: Point| b.sunk(from, s) == s && b.outlasts(from, s) by {
            assert(b.full_rows(if s.1 + 1 >= from { s.1 + 1 } else { from }, b.height) == 0);
        }
        if b.landed[i].cells.contains(c) {
            assert(b.sunk(from, c) == c);
        }
    } else if b.line_full(from) {
        let mid = b.remove_line(from);
        lemma_remove_line_cells(b, from);
        lemma_clear_from_cells(mid, from + 1, i, c);
        assert(b.full_rows(from, b.height) == 1 + b.full_rows(from + 1, b.height));
        if after.landed[i].cells.contains(c) {
            let t = choose|t: Point|
                mid.landed[i].cells.contains(t) && mid.outlasts(from + 1, t) && #[trigger] mid.sunk(
                    from + 1,
                    t,
                ) == c;
            if t.1 <= from {
                let s = (t.0, t.1 - 1);
                lemma_remove_line_keeps_full_rows(b, from, from + 1, b.height);
                assert(b.landed[i].cells.contains(s) && b.outlasts(from, s) && b.sunk(from, s)
                    == c);
            } else {
                lemma_remove_line_keeps_full_rows(b, from, t.1 + 1, b.height);
                lemma_remove_line_keeps_lower_rows(b, from, t.1);
                assert(b.landed[i].cells.contains(t) && b.outlasts(from, t) && b.sunk(from, t)
                    == c);
            }
        }
        if exists|s: Point|
            b.landed[i].cells.contains(s) && b.outlasts(from, s) && #[trigger] b.sunk(from, s)
                == c {
            let s = choose|s: Point|
                b.landed[i].cells.contains(s) && b.outlasts(from, s) && #[trigger] b.sunk(from, s)
                    == c;
            if s.1 < from {
                let t = (s.0, s.1 + 1);
                lemma_remove_line_keeps_full_rows(b, from, from + 1, b.height);
                assert(mid.landed[i].cells.contains(t) <==> b.landed[i].cells.contains(
                    (t.0, t.1 - 1),
                ));
                assert(mid.landed[i].cells.contains(t) && mid.outlasts(from + 1, t) && mid.sunk(
                    from + 1,
                    t,
                ) == c);
            } else {
                lemma_remove_line_keeps_full_rows(b, from, s.1 + 1, b.height);
                lemma_remove_line_keeps_lower_rows(b, from, s.1);
                assert(mid.landed[i].cells.contains(s) && mid.outlasts(from + 1, s) && mid.sunk(
                    from + 1,
                    s,
                ) == c);
            }
        }
    } else {
        lemma_clear_from_cells(b, from + 1, i, c);
        assert(b.full_rows(from, b.height) == b.full_rows(from + 1, b.height));
        if after.landed[i].cells.contains(c) {
            let s = choose|s: Point|
                b.landed[i].cells.contains(s) && b.outlasts(from + 1, s) && #[trigger] b.sunk(
                    from + 1,
                    s,
                ) == c;
            assert(b.landed[i].cells.contains(s) && b.outlasts(from, s) && b.sunk(from, s) == c);
        }
        if exists|s: Point|
            b.landed[i].cells.contains(s) && b.outlasts(from, s) && #[trigger] b.sunk(from, s)
                == c {
            let s = choose|s: Point|
                b.landed[i].cells.contains(s) && b.outlasts(from, s) && #[trigger] b.sunk(from, s)
                    == c;
            assert(b.landed[i].cells.contains(s) && b.outlasts(from + 1, s) && b.sunk(
                from + 1,
                s,
            ) == c);
        }
    }
}

/// Line clearing, whatever the number of full rows. After the scan every
/// landed piece holds exactly the cells that lay in no full row, each lower
/// by the number of full rows that lay below it; the cells of the full rows
/// are gone.
pub proof fn lemma_full_lines_cleared(b: BoardView)
    ensures
        b.remove_full_lines().landed.len() == b.landed.len(),
        forall|i: int, c: Point|
            0 <= i < b.landed.len() ==> (#[trigger] b.remove_full_lines().landed[i].cells.contains(
                c,
            ) <==> exists|s: Point|
                b.landed[i].cells.contains(s) && !b.full_row(s.1) && (s.0, s.1 + b.full_rows(
                    s.1 + 1,
                    b.height,
                )) == c),
{
    b.lemma_clear_from_keeps_rest(0);
    assert forall|i: int, c: Point| 0 <= i < b.landed.len() implies (
    #[trigger] b.remove_full_lines().landed[i].cells.contains(c) <==> exists|s: Point|
        b.landed[i].cells.contains(s) && !b.full_row(s.1) && (s.0, s.1 + b.full_rows(
            s.1 + 1,
            b.height,
        )) == c) by {
        lemma_clear_from_cells(b, 0, i, c);
        if b.remove_full_lines().landed[i].cells.contains(c) {
            let s = choose|s: Point|
                b.landed[i].cells.contains(s) && b.outlasts(0, s) && #[trigger] b.sunk(0, s) == c;
            lemma_full_rows_above_board(b, s.1 + 1);
            assert(b.landed[i].cells.contains(s) && !b.full_row(s.1) && (s.0, s.1 + b.full_rows(
                s.1 + 1,
                b.height,
            )) == c);
        }
        if exists|s: Point|
            b.landed[i].cells.contains(s) && !b.full_row(s.1) && (s.0, s.1 + b.full_rows(
                s.1 + 1,
                b.height,
            )) == c {
            let s = choose|s: Point|
                b.landed[i].cells.contains(s) && !b.full_row(s.1) && (s.0, s.1 + b.full_rows(
                    s.1 + 1,
                    b.height,
                )) == c;
            lemma_full_rows_above_board(b, s.1 + 1);
            assert(b.landed[i].cells.contains(s) && b.outlasts(0, s) && b.sunk(0, s) == c);
        }
    }
}

/// Rows above the top of the board are never full: counting may as well
/// start at row zero.
pub proof fn lemma_full_rows_above_board(b: BoardView, lo: int)
    ensures
        lo <= 0 ==> b.full_rows(lo, b.height) == b.full_rows(0, b.height),
    decreases 0 - lo,
{
    if lo < 0 {
        lemma_full_rows_above_board(b, lo + 1);
    }
}

} // verus!
