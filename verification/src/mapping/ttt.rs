//! Tic-tac-toe as the network sees it.

use crate::board::Player;
use crate::mapping::mapper::{InputMapper, PolicyMapper};
use vstd::prelude::*;

verus! {

/// What the mapper reads of a position of tic-tac-toe: who holds each of
/// the nine tiles, row by row, and who moves next.
#[derive(Debug, Clone, PartialEq, Eq)]
pub struct TTTPosition {
    pub tiles: [Player; 9],
    pub next_player: Player,
}

/// The mapper for tic-tac-toe.
#[derive(Debug, Copy, Clone)]
pub struct TTTStdMapper;

/// Switch `i` of the input of a position: first, tile by tile, whether the
/// player to move holds the tile, then whether the opponent holds it.
pub open spec fn input_switch(board: TTTPosition, i: int) -> bool {
    if i < 9 {
        board.tiles@[i] == board.next_player
    } else {
        board.tiles@[i - 9] == board.next_player.spec_other()
    }
}

/// The switches of the input of a position.
pub open spec fn input_switches(board: TTTPosition) -> Seq<bool> {
    Seq::new(18, |i: int| input_switch(board, i))
}

/// The nine switches that stand for a move: the one of its tile is on.
pub open spec fn move_switches(mv_index: usize) -> Seq<bool> {
    Seq::new(9, |i: int| i == mv_index)
}

impl TTTStdMapper {
    /// Adds the switches of `board` to `bools`.
    pub fn encode_board(&self, bools: &mut Vec<bool>, board: &TTTPosition)
        ensures
            final(bools)@ == old(bools)@ + input_switches(*board),
    {
        let ghost before = bools@;
        let next = board.next_player;
        let other = board.next_player.other();
        let mut i: usize = 0;
        while i < 18
            invariant
                i <= 18,
                next == board.next_player,
                other == board.next_player.spec_other(),
                bools@.len() == before.len() + i,
                forall|j: int| 0 <= j < before.len() ==> bools@[j] == before[j],
                forall|j: int| 0 <= j < i ==> #[trigger] bools@[before.len() + j] == input_switch(*board, j),
            decreases 18 - i,
        {
            let value = if i < 9 {
                board.tiles[i] == next
            } else {
                board.tiles[i - 9] == other
            };
            bools.push(value);
            i += 1;
        }
        assert forall|k: int| 0 <= k < bools@.len() implies bools@[k] == (before + input_switches(*board))[k] by {
            if k >= before.len() {
                let j = k - before.len();
                assert(bools@[before.len() + j] == input_switch(*board, j));
            }
        }
        assert(bools@ =~= before + input_switches(*board));
    }

    /// The width of the board.
    pub fn state_board_size(&self) -> (r: usize)
        ensures
            r == 3,
    {
        3
    }

    /// The shape of a move as the network reads it.
    pub fn encoded_move_shape(&self) -> (r: [usize; 3])
        ensures
            r@ == seq![1usize, 3, 3],
    {
        [1, 3, 3]
    }

    /// Adds the switches that stand for the move with the given entry in
    /// the policy.
    pub fn encode_mv(&self, result: &mut Vec<bool>, mv_index: usize)
        ensures
            final(result)@ == old(result)@ + move_switches(mv_index),
    {
        let ghost before = result@;
        let mut i: usize = 0;
        while i < 9
            invariant
                i <= 9,
                result@.len() == before.len() + i,
                forall|j: int| 0 <= j < before.len() ==> result@[j] == before[j],
                forall|j: int| 0 <= j < i ==> #[trigger] result@[before.len() + j] == (j == mv_index),
            decreases 9 - i,
        {
            result.push(i == mv_index);
            i += 1;
        }
        assert forall|k: int| 0 <= k < result@.len() implies result@[k] == (before + move_switches(
            mv_index,
        ))[k] by {
            if k >= before.len() {
                let j = k - before.len();
                assert(result@[before.len() + j] == (j == mv_index));
            }
        }
        assert(result@ =~= before + move_switches(mv_index));
    }
}

impl<S> InputMapper<TTTPosition, S> for TTTStdMapper {
    open spec fn spec_bool_len(&self) -> nat {
        18
    }

    open spec fn spec_scalar_len(&self) -> nat {
        0
    }

    open spec fn spec_bool_shape(&self) -> Seq<usize> {
        seq![2usize, 3, 3]
    }

    fn input_bool_shape(&self) -> (r: [usize; 3]) {
        let r: [usize; 3] = [2, 3, 3];
        assert(r@[0] == 2 && r@[1] == 3 && r@[2] == 3);
        assert(r@ =~= seq![2usize, 3, 3]);
        r
    }

    fn input_scalar_count(&self) -> (r: usize) {
        0
    }

    open spec fn spec_bools(&self, board: TTTPosition) -> Seq<bool> {
        input_switches(board)
    }

    open spec fn spec_scalars(&self, board: TTTPosition) -> Seq<S> {
        Seq::empty()
    }

    fn encode_input(&self, bools: &mut Vec<bool>, scalars: &mut Vec<S>, board: &TTTPosition) {
        self.encode_board(bools, board);
        assert(scalars@ =~= old(scalars)@ + Seq::<S>::empty());
    }
}

impl PolicyMapper<TTTPosition, usize> for TTTStdMapper {
    open spec fn spec_policy_len(&self) -> nat {
        9
    }

    fn policy_shape(&self) -> (r: [usize; 3]) {
        let r: [usize; 3] = [1, 3, 3];
        assert(r@[0] == 1 && r@[1] == 3 && r@[2] == 3);
        r
    }

    fn policy_len(&self) -> (r: usize) {
        9
    }

    /// The entry of a move is the number of its tile.
    open spec fn spec_index(&self, board: TTTPosition, mv: usize) -> Option<usize> {
        if mv < 9 {
            Some(mv)
        } else {
            None
        }
    }

    /// The move of an entry is the move to the tile with that number.
    open spec fn spec_move(&self, board: TTTPosition, index: usize) -> Option<usize> {
        if index < 9 {
            Some(index)
        } else {
            None
        }
    }

    fn move_to_index(&self, board: &TTTPosition, mv: usize) -> (r: Option<usize>) {
        if mv < 9 {
            Some(mv)
        } else {
            None
        }
    }

    fn index_to_move(&self, board: &TTTPosition, index: usize) -> (r: Option<usize>) {
        if index < 9 {
            Some(index)
        } else {
            None
        }
    }
}

} // verus!
