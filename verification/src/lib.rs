//! An interactive scoreboard library: a character-at-a-time command parser
//! (an input state machine with backspace rollback) and an insertion-ordered
//! ledger of per-player goal and assist totals.

use vstd::prelude::*;

pub mod input_fsm;
pub mod parse;
pub mod table;

verus! {

/// A line of input never grows beyond this many characters; once the buffer
/// is longer, further printable characters are dropped.
pub const LINE_CAPACITY: usize = 50;

/// How many leaderboard rows the surrounding program displays.
pub const TOP_DEPTH: usize = 5;

} // verus!
