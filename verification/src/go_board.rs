use vstd::prelude::*;

use crate::stone_group::StoneGroup;

verus! {

/// The two sides of the game.
#[derive(Debug, Clone, Copy, PartialEq, Eq, Structural)]
pub enum Player {
    Black,
    White,
}

impl Player {
    /// The other color, cyclically.
    pub fn next(self) -> (r: Self)
        ensures
            r == (if self == Player::Black { Player::White } else { Player::Black }),
    {
        if self == Player::Black { Player::White } else { Player::Black }
    }
}

/// A 1-indexed grid cell identifier.
#[derive(Debug, Clone, Copy, PartialEq, Eq, Hash, Structural)]
pub struct Position {
    pub row: u8,
    pub col: u8,
}

/// Why a move was rejected.
#[derive(Debug, Clone, Copy, PartialEq, Eq, Structural)]
pub enum IllegalMove {
    /// The position's row or column falls outside the board.
    OutOfBounds,
    /// The position already holds a stone.
    Occupied,
}

/// Two positions are 4-directionally adjacent on the grid: they agree on one
/// coordinate and differ by exactly one on the other.
pub open spec fn adjacent(p: Position, q: Position) -> bool {
    ||| (p.row == q.row && (p.col + 1 == q.col || q.col + 1 == p.col))
    ||| (p.col == q.col && (p.row + 1 == q.row || q.row + 1 == p.row))
}

/// Decides grid adjacency of two positions.
pub fn is_adjacent(p: Position, q: Position) -> (r: bool)
    ensures
        r == adjacent(p, q),
{
    let pr = p.row as u16;
    let pc = p.col as u16;
    let qr = q.row as u16;
    let qc = q.col as u16;
    (pr == qr && (pc + 1 == qc || qc + 1 == pc)) || (pc == qc && (pr + 1 == qr || qr + 1 == pr))
}

/// Whether some entry of `s` carries the key `p`.
pub open spec fn has_key(s: Seq<(Position, Player)>, p: Position) -> bool {
    exists|i: int| 0 <= i < s.len() && (#[trigger] s[i]).0 == p
}

/// No two entries of `s` carry the same key.
pub open spec fn unique_keys(s: Seq<(Position, Player)>) -> bool {
    forall|i: int, j: int| 0 <= i < j < s.len() ==> (#[trigger] s[i]).0 != (#[trigger] s[j]).0
}

/// The association sequence `s`, read as a map (later entries win).
pub open spec fn map_of(s: Seq<(Position, Player)>) -> Map<Position, Player>
    decreases s.len(),
{
    if s.len() == 0 {
        Map::empty()
    } else {
        map_of(s.drop_last()).insert(s.last().0, s.last().1)
    }
}

/// `map_of(s)` has exactly the keys that occur in `s`.
pub proof fn lemma_map_of_keys(s: Seq<(Position, Player)>)
    ensures
        forall|p: Position| #[trigger] map_of(s).contains_key(p) <==> has_key(s, p),
    decreases s.len(),
{
    if s.len() == 0 {
    } else {
        let sub = s.drop_last();
        lemma_map_of_keys(sub);
        assert(map_of(s) == map_of(sub).insert(s.last().0, s.last().1));
        assert forall|p: Position| #[trigger] map_of(s).contains_key(p) implies has_key(s, p) by {
            if p == s.last().0 {
                assert((s[s.len() - 1]).0 == p);
            } else {
                assert(map_of(sub).contains_key(p));
                assert(has_key(sub, p));
                let i = choose|i: int| 0 <= i < sub.len() && (#[trigger] sub[i]).0 == p;
                assert(sub[i] == s[i]);
                assert((s[i]).0 == p);
            }
        };
        assert forall|p: Position| has_key(s, p) implies #[trigger] map_of(s).contains_key(p) by {
            let i = choose|i: int| 0 <= i < s.len() && (#[trigger] s[i]).0 == p;
            if i < s.len() - 1 {
                assert(sub[i] == s[i]);
                assert(has_key(sub, p));
                assert(map_of(sub).contains_key(p));
            }
        };
    }
}

/// When keys are unique, each entry of `s` is mapped to its own value.
pub proof fn lemma_map_of_values(s: Seq<(Position, Player)>)
    requires
        unique_keys(s),
    ensures
        forall|i: int| 0 <= i < s.len() ==> map_of(s).contains_key((#[trigger] s[i]).0)
            && map_of(s)[s[i].0] == s[i].1,
    decreases s.len(),
{
    if s.len() == 0 {
    } else {
        assert(unique_keys(s.drop_last()));
        lemma_map_of_values(s.drop_last());
        assert forall|i: int| 0 <= i < s.len() implies map_of(s).contains_key((#[trigger] s[i]).0)
            && map_of(s)[s[i].0] == s[i].1 by {
            if i < s.len() - 1 {
                assert(s.drop_last()[i] == s[i]);
                assert((s[i]).0 != (s[s.len() - 1]).0);
            }
        };
    }
}

/// The board: all stones played so far, the registry of their groups, and the
/// fixed board dimensions.
#[derive(Debug, PartialEq, Eq)]
pub struct GoBoard {
    /// Every stone on the board, keyed by position (keys are unique).
    pub state: Vec<(Position, Player)>,
    /// The partition of the stones into maximal connected same-color groups.
    pub groups: Vec<StoneGroup>,
    /// (width, height): rows range over [1, width], columns over [1, height].
    pub size: (u8, u8),
}

impl GoBoard {
    /// The board state as a mapping from occupied positions to colors.
    pub open spec fn board(self) -> Map<Position, Player> {
        map_of(self.state@)
    }

    /// Position within [1, width] x [1, height].
    pub open spec fn spec_in_board(self, pos: Position) -> bool {
        1 <= pos.row <= self.size.0 && 1 <= pos.col <= self.size.1
    }

    /// A legal move: on the grid and not occupied.
    pub open spec fn spec_legal(self, pos: Position) -> bool {
        self.spec_in_board(pos) && !self.board().contains_key(pos)
    }

    /// Some group of the registry holds both `p` and `q`.
    pub open spec fn same_group(self, p: Position, q: Position) -> bool {
        exists|k: int| 0 <= k < self.groups@.len()
            && (#[trigger] self.groups@[k]).chain@.contains(p)
            && self.groups@[k].chain@.contains(q)
    }

    /// A single group is sound against the board state: non-empty, lists each
    /// position once, and every member holds a stone of the group's color.
    pub open spec fn group_ok(self, g: StoneGroup) -> bool {
        &&& g.chain@.len() > 0
        &&& g.chain@.no_duplicates()
        &&& forall|i: int| 0 <= i < g.chain@.len() ==> self.board().contains_key(#[trigger] g.chain@[i])
            && self.board()[g.chain@[i]] == g.color
    }

    /// The board invariant:
    /// - stone keys are unique and within bounds;
    /// - every group is non-empty and colored consistently with the state
    ///   (so no group is empty, and a stone never sits in a group of the
    ///   other color);
    /// - every stone belongs to a group;
    /// - groups are pairwise disjoint (with the previous point: every stone
    ///   is in exactly one group);
    /// - connectivity closure: grid-adjacent stones of one color always share
    ///   a group.
    pub open spec fn wf(self) -> bool {
        &&& unique_keys(self.state@)
        &&& forall|i: int| 0 <= i < self.state@.len() ==> self.spec_in_board((#[trigger] self.state@[i]).0)
        &&& forall|k: int| 0 <= k < self.groups@.len() ==> self.group_ok(#[trigger] self.groups@[k])
        &&& forall|p: Position| #[trigger] self.board().contains_key(p)
            ==> exists|k: int| 0 <= k < self.groups@.len() && (#[trigger] self.groups@[k]).chain@.contains(p)
        &&& forall|k1: int, k2: int| 0 <= k1 < k2 < self.groups@.len()
            ==> (#[trigger] self.groups@[k1]).set().disjoint((#[trigger] self.groups@[k2]).set())
        &&& forall|p: Position, q: Position| self.board().contains_key(p) && self.board().contains_key(q)
            && self.board()[p] == self.board()[q] && #[trigger] adjacent(p, q)
            ==> self.same_group(p, q)
    }

    /// A fresh, empty board of the default 9x9 size.
    pub fn new() -> (b: Self)
        ensures
            b.size == (9u8, 9u8),
            b.state@ == Seq::<(Position, Player)>::empty(),
            b.groups@ == Seq::<StoneGroup>::empty(),
            b.board() == Map::<Position, Player>::empty(),
            b.wf(),
    {
        let b = GoBoard { state: Vec::new(), groups: Vec::new(), size: (9, 9) };
        proof {
            assert(b.board() =~= Map::<Position, Player>::empty());
        }
        b
    }

    /// Whether `pos` lies on the grid.
    pub fn in_board(&self, pos: Position) -> (r: bool)
        ensures
            r == self.spec_in_board(pos),
    {
        let x_max = self.size.0;
        let y_max = self.size.1;
        1 <= pos.row && pos.row <= x_max && 1 <= pos.col && pos.col <= y_max
    }

    /// Whether a stone stands at `pos`.
    fn contains_pos(&self, pos: Position) -> (r: bool)
        ensures
            r == self.board().contains_key(pos),
    {
        proof {
            lemma_map_of_keys(self.state@);
        }
        let n = self.state.len();
        let mut i: usize = 0;
        while i < n
            invariant
                n == self.state@.len(),
                0 <= i <= n,
                forall|j: int| 0 <= j < i ==> (#[trigger] self.state@[j]).0 != pos,
                self.board().contains_key(pos) == has_key(self.state@, pos),
            decreases n - i,
        {
            if self.state[i].0 == pos {
                assert(has_key(self.state@, pos));
                return true;
            }
            i += 1;
        }
        assert(!has_key(self.state@, pos));
        false
    }

    /// The stone at `pos`, if any.
    pub fn occupant(&self, pos: Position) -> (r: Option<Player>)
        requires
            unique_keys(self.state@),
        ensures
            r == (if self.board().contains_key(pos) {
                Some(self.board()[pos])
            } else {
                None::<Player>
            }),
    {
        proof {
            lemma_map_of_keys(self.state@);
            lemma_map_of_values(self.state@);
        }
        let n = self.state.len();
        let mut i: usize = 0;
        while i < n
            invariant
                n == self.state@.len(),
                0 <= i <= n,
                unique_keys(self.state@),
                forall|j: int| 0 <= j < i ==> (#[trigger] self.state@[j]).0 != pos,
                self.board().contains_key(pos) == has_key(self.state@, pos),
                forall|j: int| 0 <= j < n ==> self.board().contains_key((#[trigger] self.state@[j]).0)
                    && self.board()[self.state@[j].0] == self.state@[j].1,
            decreases n - i,
        {
            if self.state[i].0 == pos {
                return Some(self.state[i].1);
            }
            i += 1;
        }
        assert(!has_key(self.state@, pos));
        None
    }

    /// Whether `pos` is free of stones.
    pub fn is_empty(&self, pos: Position) -> (r: bool)
        ensures
            r == !self.board().contains_key(pos),
    {
        !self.contains_pos(pos)
    }

    /// Whether playing at `pos` is legal: on the grid and unoccupied. A pure
    /// query; its result depends on the board value alone, so repeated calls
    /// without an intervening mutation always agree.
    pub fn move_is_legal(&self, pos: Position) -> (r: bool)
        ensures
            r == self.spec_legal(pos),
    {
        let in_board = self.in_board(pos);
        let is_empty = self.is_empty(pos);
        in_board && is_empty
    }

    /// How many grid neighbors `pos` has on this board.
    pub open spec fn spec_neighbor_count(self, pos: Position) -> int {
        (if pos.row < self.size.0 { 1int } else { 0int })
        + (if pos.row > 1 { 1int } else { 0int })
        + (if pos.col < self.size.1 { 1int } else { 0int })
        + (if pos.col > 1 { 1int } else { 0int })
    }

    /// The up-to-4 grid-adjacent positions of `pos` that lie on the board.
    pub fn get_neighbors(&self, pos: Position) -> (r: Vec<Position>)
        requires
            self.spec_in_board(pos),
        ensures
            forall|i: int| 0 <= i < r@.len() ==> self.spec_in_board(#[trigger] r@[i]) && adjacent(r@[i], pos),
            forall|q: Position| self.spec_in_board(q) && adjacent(q, pos) ==> r@.contains(q),
            r@.no_duplicates(),
            r@.len() == self.spec_neighbor_count(pos),
    {
        let mut neighbors: Vec<Position> = Vec::new();
        let x_max = self.size.0;
        let y_max = self.size.1;

        if pos.row < x_max {
            neighbors.push(Position { row: pos.row + 1, col: pos.col });
        }
        if pos.row > 1 {
            neighbors.push(Position { row: pos.row - 1, col: pos.col });
        }
        if pos.col < y_max {
            neighbors.push(Position { row: pos.row, col: pos.col + 1 });
        }
        if pos.col > 1 {
            neighbors.push(Position { row: pos.row, col: pos.col - 1 });
        }

        proof {
            let right: int = if pos.row < x_max { 1int } else { 0int };
            let left: int = if pos.row > 1 { 1int } else { 0int };
            let up: int = if pos.col < y_max { 1int } else { 0int };
            assert forall|q: Position| self.spec_in_board(q) && adjacent(q, pos) implies neighbors@.contains(q) by {
                if q.col == pos.col && q.row == pos.row + 1 {
                    assert(neighbors@[0] == q);
                } else if q.col == pos.col && q.row + 1 == pos.row {
                    assert(neighbors@[right] == q);
                } else if q.row == pos.row && q.col == pos.col + 1 {
                    assert(neighbors@[right + left] == q);
                } else {
                    assert(q.row == pos.row && q.col + 1 == pos.col);
                    assert(neighbors@[right + left + up] == q);
                }
            };
        }
        neighbors
    }

    /// Whether any legal move is left on the board.
    pub open spec fn spec_has_legal_move(self) -> bool {
        exists|p: Position| self.spec_legal(p)
    }

    /// Every currently legal position, row by row.
    #[verifier::loop_isolation(false)]
    pub fn legal_moves(&self) -> (r: Vec<Position>)
        ensures
            forall|i: int| 0 <= i < r@.len() ==> self.spec_legal(#[trigger] r@[i]),
            forall|p: Position| #[trigger] self.spec_legal(p) ==> r@.contains(p),
    {
        let mut r: Vec<Position> = Vec::new();
        let w = self.size.0 as usize;
        let h = self.size.1 as usize;
        let mut row: usize = 1;
        while row <= w
            invariant
                1 <= row <= w + 1,
                forall|i: int| 0 <= i < r@.len() ==> self.spec_legal(#[trigger] r@[i]),
                forall|p: Position| #[trigger] self.spec_legal(p) && p.row < row ==> r@.contains(p),
            decreases w + 1 - row,
        {
            let mut col: usize = 1;
            while col <= h
                invariant
                    1 <= row <= w,
                    1 <= col <= h + 1,
                    forall|i: int| 0 <= i < r@.len() ==> self.spec_legal(#[trigger] r@[i]),
                    forall|p: Position| #[trigger] self.spec_legal(p)
                        && (p.row < row || (p.row == row && p.col < col)) ==> r@.contains(p),
                decreases h + 1 - col,
            {
                let ghost r0 = r@;
                let pos = Position { row: row as u8, col: col as u8 };
                if self.move_is_legal(pos) {
                    r.push(pos);
                }
                proof {
                    assert forall|p: Position| #[trigger] self.spec_legal(p)
                        && (p.row < row || (p.row == row && p.col < col + 1))
                        implies r@.contains(p) by {
                        if p.row < row || (p.row == row && p.col < col) {
                            assert(r0.contains(p));
                            let i = choose|i: int| 0 <= i < r0.len() && r0[i] == p;
                            assert(r@[i] == p);
                        } else {
                            assert(p.row == row && p.col == col);
                            assert(p == pos);
                            assert(r@[r@.len() - 1] == pos);
                        }
                    };
                }
                col += 1;
            }
            row += 1;
        }
        proof {
            assert forall|p: Position| #[trigger] self.spec_legal(p) implies r@.contains(p) by {
                assert(p.row < row);
            };
        }
        r
    }

    /// Whether at least one legal move is left.
    pub fn has_legal_move(&self) -> (r: bool)
        ensures
            r == self.spec_has_legal_move(),
    {
        let moves = self.legal_moves();
        let nonempty = moves.len() > 0;
        proof {
            if nonempty {
                assert(self.spec_legal(moves@[0]));
            } else if self.spec_has_legal_move() {
                let p = choose|p: Position| self.spec_legal(p);
                assert(moves@.contains(p));
            }
        }
        nonempty
    }

    /// Records a stone at a vacant position. Callers must have confirmed
    /// legality beforehand; the group registry is not updated here.
    pub fn place(&mut self, pos: Position, color: Player)
        requires
            old(self).spec_legal(pos),
        ensures
            final(self).state@ == old(self).state@.push((pos, color)),
            final(self).board() == old(self).board().insert(pos, color),
            final(self).groups@ == old(self).groups@,
            final(self).size == old(self).size,
    {
        self.state.push((pos, color));
        proof {
            assert(self.state@.drop_last() =~= old(self).state@);
            assert(self.board() =~= old(self).board().insert(pos, color));
        }
    }

    /// The single mutating entry point. A move outside the grid is rejected
    /// as `OutOfBounds`, one on an occupied point as `Occupied`, and either
    /// rejection leaves the board completely unchanged. A legal move records
    /// the stone, merges every group it connects to into one, and keeps the
    /// board invariant.
    pub fn play(&mut self, pos: Position, color: Player) -> (r: Result<(), IllegalMove>)
        requires
            old(self).wf(),
        ensures
            final(self).wf(),
            final(self).size == old(self).size,
            !old(self).spec_in_board(pos)
                ==> r == Err::<(), IllegalMove>(IllegalMove::OutOfBounds)
                    && *final(self) == *old(self),
            old(self).spec_in_board(pos) && old(self).board().contains_key(pos)
                ==> r == Err::<(), IllegalMove>(IllegalMove::Occupied)
                    && *final(self) == *old(self),
            old(self).spec_legal(pos)
                ==> r == Ok::<(), IllegalMove>(())
                    && crate::registry::play_post(*old(self), *final(self), pos, color),
    {
        if !self.in_board(pos) {
            return Err(IllegalMove::OutOfBounds);
        }
        if !self.is_empty(pos) {
            return Err(IllegalMove::Occupied);
        }
        self.refresh_groups(pos, color);
        self.place(pos, color);
        proof {
            crate::registry::lemma_play_wf(*old(self), *self, pos, color);
        }
        Ok(())
    }

    /// Corner cell of the grid.
    pub open spec fn is_corner(self, pos: Position) -> bool {
        (pos.row == 1 || pos.row == self.size.0) && (pos.col == 1 || pos.col == self.size.1)
    }

    /// Cell away from every board edge.
    pub open spec fn is_interior(self, pos: Position) -> bool {
        1 < pos.row < self.size.0 && 1 < pos.col < self.size.1
    }

    /// On a board at least 2x2, a corner has exactly 2 on-board neighbors, a
    /// non-corner edge cell 3, and an interior cell 4.
    pub proof fn lemma_neighbor_count(self, pos: Position)
        requires
            self.size.0 >= 2,
            self.size.1 >= 2,
            self.spec_in_board(pos),
        ensures
            self.is_corner(pos) ==> self.spec_neighbor_count(pos) == 2,
            !self.is_corner(pos) && !self.is_interior(pos) ==> self.spec_neighbor_count(pos) == 3,
            self.is_interior(pos) ==> self.spec_neighbor_count(pos) == 4,
    {
    }
}

/// Stones of different colors never share a group; in particular, adjacent
/// stones of different colors are never grouped together.
pub proof fn lemma_color_separation(b: GoBoard, p: Position, q: Position)
    requires
        b.wf(),
        b.board().contains_key(p),
        b.board().contains_key(q),
        adjacent(p, q),
        b.board()[p] != b.board()[q],
    ensures
        !b.same_group(p, q),
{
    if b.same_group(p, q) {
        let k = choose|k: int| 0 <= k < b.groups@.len()
            && (#[trigger] b.groups@[k]).chain@.contains(p) && b.groups@[k].chain@.contains(q);
        assert(b.group_ok(b.groups@[k]));
        let i = choose|i: int| 0 <= i < b.groups@[k].chain@.len() && b.groups@[k].chain@[i] == p;
        let j = choose|j: int| 0 <= j < b.groups@[k].chain@.len() && b.groups@[k].chain@[j] == q;
        assert(b.board()[p] == b.groups@[k].color);
        assert(b.board()[q] == b.groups@[k].color);
    }
}

/// A fresh, empty board of the given dimensions.
pub fn new_board(width: u8, height: u8) -> (b: GoBoard)
    ensures
        b.size == (width, height),
        b.state@ == Seq::<(Position, Player)>::empty(),
        b.groups@ == Seq::<StoneGroup>::empty(),
        b.board() == Map::<Position, Player>::empty(),
        b.wf(),
{
    let b = GoBoard { state: Vec::new(), groups: Vec::new(), size: (width, height) };
    proof {
        assert(b.board() =~= Map::<Position, Player>::empty());
    }
    b
}

} // verus!
