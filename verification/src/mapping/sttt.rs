//! Ultimate tic-tac-toe as the network sees it.

use crate::board::{Board, Coord};
use crate::mapping::mapper::{InputMapper, PolicyMapper};
use vstd::prelude::*;

verus! {

/// The mapper for ultimate tic-tac-toe.
#[derive(Debug, Copy, Clone)]
pub struct STTTStdMapper;

/// Switch `i` of the input of a board: first, tile by tile, whether the
/// player to move holds the tile; then whether the opponent holds it; then
/// whether the next move may go to it.
pub open spec fn input_switch(board: Board, i: int) -> bool {
    let o = (i % 81) as nat;
    if i < 81 {
        board.spec_tile(o) == board.mover()
    } else if i < 162 {
        board.spec_tile(o) == board.mover().spec_other()
    } else {
        board.spec_available(o)
    }
}

/// The switches of the input of a board.
pub open spec fn input_switches(board: Board) -> Seq<bool> {
    Seq::new(243, |i: int| input_switch(board, i))
}

impl STTTStdMapper {
    /// A move is found again from its entry in the policy, and an entry
    /// that stands for a move from that move.
    pub proof fn lemma_round_trip(&self, board: Board, mv: Coord, index: usize)
        requires
            mv@ < 81,
            index < 81,
        ensures
            (self.spec_index(board, mv) matches Some(i) && self.spec_move(board, i) == Some(mv)),
            (self.spec_move(board, index) matches Some(m) && self.spec_index(board, m) == Some(
                index,
            )),
    {
        Coord::lemma_at(mv@);
        Coord::lemma_at(index as nat);
        Coord::lemma_ext(Coord::at(mv@), mv);
    }

    /// Adds the switches of `board` to `bools`.
    pub fn encode_board(&self, bools: &mut Vec<bool>, board: &Board)
        ensures
            final(bools)@ == old(bools)@ + input_switches(*board),
    {
        let ghost before = bools@;
        let next = board.player_to_move();
        let other = next.other();
        let mut i: usize = 0;
        while i < 243
            invariant
                i <= 243,
                next == board.mover(),
                other == board.mover().spec_other(),
                bools@.len() == before.len() + i,
                forall|j: int| 0 <= j < before.len() ==> bools@[j] == before[j],
                forall|j: int| 0 <= j < i ==> #[trigger] bools@[before.len() + j] == input_switch(*board, j),
            decreases 243 - i,
        {
            let coord = Coord::from_o((i % 81) as u8);
            let value = if i < 81 {
                board.tile(coord) == next
            } else if i < 162 {
                board.tile(coord) == other
            } else {
                board.is_available_move(coord)
            };
            bools.push(value);
            i += 1;
        }
        assert forall|k: int| 0 <= k < bools@.len() implies bools@[k] == (before + input_switches(*board))[k] by {
            if k >= before.len() {
                let j = k - before.len();
                assert(bools@[before.len() + j] == input_switch(*board, j));
            }
        }
        assert(bools@ =~= before + input_switches(*board));
    }
}

impl<S> InputMapper<Board, S> for STTTStdMapper {
    open spec fn spec_bool_len(&self) -> nat {
        243
    }

    open spec fn spec_scalar_len(&self) -> nat {
        0
    }

    open spec fn spec_bool_shape(&self) -> Seq<usize> {
        seq![3usize, 9, 9]
    }

    fn input_bool_shape(&self) -> (r: [usize; 3]) {
        let r: [usize; 3] = [3, 9, 9];
        assert(r@[0] == 3 && r@[1] == 9 && r@[2] == 9);
        assert(r@ =~= seq![3usize, 9, 9]);
        r
    }

    fn input_scalar_count(&self) -> (r: usize) {
        0
    }

    open spec fn spec_bools(&self, board: Board) -> Seq<bool> {
        input_switches(board)
    }

    open spec fn spec_scalars(&self, board: Board) -> Seq<S> {
        Seq::empty()
    }

    fn encode_input(&self, bools: &mut Vec<bool>, scalars: &mut Vec<S>, board: &Board) {
        self.encode_board(bools, board);
        assert(scalars@ =~= old(scalars)@ + Seq::<S>::empty());
    }
}

impl PolicyMapper<Board, Coord> for STTTStdMapper {
    open spec fn spec_policy_len(&self) -> nat {
        81
    }

    fn policy_shape(&self) -> (r: [usize; 3]) {
        let r: [usize; 3] = [1, 9, 9];
        assert(r@[0] == 1 && r@[1] == 9 && r@[2] == 9);
        r
    }

    fn policy_len(&self) -> (r: usize) {
        81
    }

    /// The entry of a move is the number of its tile.
    open spec fn spec_index(&self, board: Board, mv: Coord) -> Option<usize> {
        if mv@ < 81 {
            Some(mv@ as usize)
        } else {
            None
        }
    }

    /// The move of an entry is the move to the tile with that number.
    open spec fn spec_move(&self, board: Board, index: usize) -> Option<Coord> {
        if index < 81 {
            Some(Coord::at(index as nat))
        } else {
            None
        }
    }

    fn move_to_index(&self, board: &Board, mv: Coord) -> (r: Option<usize>) {
        Some(mv.o() as usize)
    }

    fn index_to_move(&self, board: &Board, index: usize) -> (r: Option<Coord>) {
        if index < 81 {
            let mv = Coord::from_o(index as u8);
            proof {
                Coord::lemma_at(index as nat);
                Coord::lemma_ext(mv, Coord::at(index as nat));
            }
            Some(mv)
        } else {
            None
        }
    }
}

} // verus!
