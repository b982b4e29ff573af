//! The decisions of a game loop: what a key does, when gravity acts and
//! when a game has ended. Reading keys, keeping time and drawing are left
//! to the caller.

use crate::game::shape::Shape;
use crate::game::tetris::{BoardView, Direction, Tetris};
use vstd::prelude::*;

verus! {

/// A key press, as far as the game tells keys apart.
#[derive(Debug, Clone, Copy, PartialEq, Eq, Structural)]
pub enum Key {
    Char(char),
    Up,
    Left,
    Right,
    Other,
}

/// How a game ended.
#[derive(Debug, Clone, Copy, PartialEq, Eq, Structural)]
pub enum GameState {
    /// The player left.
    Quit,
    /// The entering piece had no room.
    Failed,
}

/// Whether the key leaves the game.
pub open spec fn is_quit(key: Key) -> bool {
    key == Key::Char('q')
}

/// The board after the key has had its effect: `Up` turns the piece, `Left`
/// and `Right` move it, every other key does nothing.
pub open spec fn after_key(board: BoardView, key: Key) -> BoardView {
    match key {
        Key::Up => board.rotate(),
        Key::Left => board.shift(Direction::Left),
        Key::Right => board.shift(Direction::Right),
        _ => board,
    }
}

/// Gives the key to the game. `q` ends the game and leaves the board as it
/// is; the other keys act on the falling piece and the game goes on.
pub fn handle_key<T: Tetris>(tetris: &mut T, key: Key) -> (r: Option<GameState>)
    requires
        old(tetris).wf(),
    ensures
        final(tetris).wf(),
        final(tetris).model() == after_key(old(tetris).model(), key),
        r == (if is_quit(key) {
            Some(GameState::Quit)
        } else {
            None
        }),
{
    match key {
        Key::Char(c) => {
            if c == 'q' {
                return Some(GameState::Quit);
            }
        },
        Key::Up => tetris.rotate(),
        Key::Left => tetris.shift(Direction::Left),
        Key::Right => tetris.shift(Direction::Right),
        Key::Other => {},
    }
    None
}

/// Lets gravity act if a tick is due, and says whether the game has ended.
pub fn advance<T: Tetris>(tetris: &mut T, tick_due: bool) -> (r: Option<GameState>)
    requires
        old(tetris).wf(),
    ensures
        final(tetris).wf(),
        tick_due ==> exists|next: Shape|
            final(tetris).model() == #[trigger] old(tetris).model().tick(next),
        !tick_due ==> final(tetris).model() == old(tetris).model(),
        r == (if final(tetris).model().alive {
            None
        } else {
            Some(GameState::Failed)
        }),
{
    if tick_due {
        tetris.tick();
    }
    if !tetris.alive() {
        Some(GameState::Failed)
    } else {
        None
    }
}

/// After a game has ended: whether the key asks to leave rather than to
/// play again. Only `q` does.
pub fn leaves_after_game(key: Key) -> (b: bool)
    ensures
        b == is_quit(key),
{
    match key {
        Key::Char(c) => c == 'q',
        _ => false,
    }
}

} // verus!
