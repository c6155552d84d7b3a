use vstd::prelude::*;

verus! {

/// Game settings chosen by the player: board size, mine count, and the number
/// of extra cells kept free of mines around the first move.
#[derive(Debug, Clone, Copy, PartialEq, Eq, Structural)]
pub struct Args {
    pub width: usize,
    pub height: usize,
    pub mines: u8,
    pub duds: u8,
}

} // verus!
