use vstd::prelude::*;

use crate::go_board::{Player, Position};

verus! {

/// A group of connected stones: the positions of its stones (each listed
/// once), the color they all share, and a liberty budget that is not yet
/// tracked precisely (captures are out of scope).
#[derive(Debug, PartialEq, Eq)]
pub struct StoneGroup {
    pub chain: Vec<Position>,
    pub color: Player,
    pub liberty: u8,
}

impl StoneGroup {
    /// The positions of this group, as a set.
    pub open spec fn set(self) -> Set<Position> {
        self.chain@.to_set()
    }

    pub fn new_single_move_group(pos: Position, color: Player) -> (g: Self)
        ensures
            g.chain@ == seq![pos],
            g.color == color,
            g.liberty == 4,
    {
        StoneGroup { chain: vec![pos], color: color, liberty: 4 }
    }
}

} // verus!
