use vstd::prelude::*;

use crate::go_board::GoBoard;
use crate::go_board::Player;
use crate::go_board::Position;
use crate::registry::play_post;
use crate::stone_group::StoneGroup;

verus! {

/// Relies on rand::Rng::gen_range on rand::thread_rng: a sample from the
/// non-empty half-open range `0..n` lies below `n`.
#[verifier::external_body]
fn random_below(n: usize) -> (r: usize)
    requires
        n >= 1,
    ensures
        r < n,
{
    rand::Rng::gen_range(&mut rand::thread_rng(), 0..n)
}

/// Drives a game forward by playing randomly sampled legal moves.
pub struct MoveTree {
    /// How many moves have been placed through this driver.
    pub step: i32,
    /// The position of the move placed last, if any.
    pub current_pos: Option<Position>,
    /// The color of the move placed last, if any.
    pub current_color: Option<Player>,
    /// The board being played on.
    pub board: GoBoard,
}

impl MoveTree {
    /// A fresh driver over an empty default-sized board.
    pub fn new() -> (t: Self)
        ensures
            t.step == 0,
            t.current_pos == None::<Position>,
            t.current_color == None::<Player>,
            t.board.wf(),
            t.board.size == (9u8, 9u8),
            t.board.board() == Map::<Position, Player>::empty(),
            t.board.groups@ == Seq::<StoneGroup>::empty(),
    {
        MoveTree { step: 0, current_pos: None, current_color: None, board: GoBoard::new() }
    }

    /// A uniformly random legal move, drawn from the set of currently legal
    /// positions. The board must not be full.
    pub fn gen_move_randomly(&self) -> (pos: Position)
        requires
            self.board.spec_has_legal_move(),
        ensures
            self.board.spec_legal(pos),
    {
        let moves = self.board.legal_moves();
        proof {
            let p = choose|p: Position| self.board.spec_legal(p);
            assert(moves@.contains(p));
        }
        let i = random_below(moves.len());
        moves[i]
    }

    /// Samples a random legal move and plays it, recording what was played.
    pub fn place_a_move(&mut self, color: Player)
        requires
            old(self).board.wf(),
            old(self).board.spec_has_legal_move(),
            old(self).step < i32::MAX,
        ensures
            final(self).board.wf(),
            final(self).step == old(self).step + 1,
            final(self).current_color == Some(color),
            exists|p: Position|
                #[trigger] play_post(old(self).board, final(self).board, p, color)
                && final(self).current_pos == Some(p)
                && old(self).board.spec_legal(p),
    {
        let pos = self.gen_move_randomly();
        let ghost pre = self.board;
        let _ = self.board.play(pos, color);
        self.step = self.step + 1;
        self.current_pos = Some(pos);
        self.current_color = Some(color);
        proof {
            assert(play_post(pre, self.board, pos, color));
        }
    }
}

} // verus!
