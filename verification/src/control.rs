//! Decisions of the playback and menu loops.
//!
//! The loops themselves poll a terminal and an audio clock and live
//! outside the library; what a key press means, and how the menu cursor
//! moves, is decided here.

use vstd::prelude::*;

verus! {

/// What a key press means during play.
#[derive(Clone, Copy, Debug, PartialEq, Eq, Structural)]
pub enum GameAction {
    /// Attempt a hit at the current pointer position.
    HitAction,
    /// Leave the session.
    QuitAction,
    /// Nothing.
    Ignore,
}

/// Map a pressed character to its in-game meaning: `a` and `d` attempt
/// a hit, `q` and `Q` quit, everything else is ignored.
pub fn game_key_action(c: char) -> (r: GameAction)
    ensures
        r == (if c == 'a' || c == 'd' {
            GameAction::HitAction
        } else if c == 'q' || c == 'Q' {
            GameAction::QuitAction
        } else {
            GameAction::Ignore
        }),
{
    if c == 'a' || c == 'd' {
        GameAction::HitAction
    } else if c == 'q' || c == 'Q' {
        GameAction::QuitAction
    } else {
        GameAction::Ignore
    }
}

/// Move the menu cursor one entry down, staying on the last entry of a
/// list of `len` entries.
pub fn menu_scroll_down(scroll: usize, len: usize) -> (r: usize)
    ensures
        r == (if scroll + 1 < len {
            scroll + 1
        } else {
            scroll as int
        }),
{
    if len > 0 && scroll < len - 1 {
        scroll + 1
    } else {
        scroll
    }
}

/// Move the menu cursor one entry up, staying on the first entry.
pub fn menu_scroll_up(scroll: usize) -> (r: usize)
    ensures
        r == (if scroll > 0 {
            scroll - 1
        } else {
            scroll as int
        }),
{
    if scroll > 0 {
        scroll - 1
    } else {
        scroll
    }
}

} // verus!
