//! Evaluating a position through one of its symmetries.
//!
//! The network may be shown a position moved by a symmetry. The policy it
//! hands back then follows the moves of the moved position, and has to be
//! read back in the order of the moves of the position itself.

use crate::random::gen_below;
use crate::zero::game::GameBoard;
use rand::Rng;
use vstd::prelude::*;

verus! {

/// A game whose positions can be turned or mirrored.
pub trait SymmetricBoard: GameBoard {
    /// A symmetry of the board.
    type Symmetry: Copy;

    /// The position moved by a symmetry. Unless an implementation says
    /// otherwise, nothing is known of it.
    open spec fn spec_map(&self, sym: Self::Symmetry) -> Self {
        arbitrary::<spec_fn(int, Self, Self::Symmetry) -> Self>()(6, *self, sym)
    }

    /// A move of the position moved by a symmetry. Unless an implementation
    /// says otherwise, nothing is known of it.
    open spec fn spec_map_move(&self, sym: Self::Symmetry, mv: Self::Move) -> Self::Move {
        arbitrary::<spec_fn(int, Self, Self::Symmetry, Self::Move) -> Self::Move>()(7, *self, sym, mv)
    }

    /// All symmetries of the board, the one that moves nothing first.
    /// Unless an implementation says otherwise, nothing is known of them.
    open spec fn spec_symmetries() -> Seq<Self::Symmetry> {
        arbitrary::<spec_fn(int, Option<Self>) -> Seq<Self::Symmetry>>()(16, None)
    }

    /// All symmetries of the board, the one that moves nothing first.
    fn all_symmetries() -> (r: Vec<Self::Symmetry>)
        ensures
            r@ == Self::spec_symmetries(),
            r@.len() > 0,
    ;

    /// The position as the symmetry shows it.
    fn map(&self, sym: Self::Symmetry) -> (r: Self)
        requires
            self.valid(),
        ensures
            r == self.spec_map(sym),
            r.valid(),
            r.spec_outcome() == self.spec_outcome(),
    ;

    /// Where the symmetry takes a move of this position.
    fn map_move(&self, sym: Self::Symmetry, mv: Self::Move) -> (r: Self::Move)
        requires
            self.valid(),
        ensures
            r == self.spec_map_move(sym, mv),
    ;
}

/// Why a policy could not be read back through a symmetry.
#[derive(Debug, Copy, Clone, PartialEq, Eq, Structural)]
pub enum SymmetryError {
    /// The policy does not have one entry per move of the moved position.
    PolicyLength,
    /// A move of the position has no counterpart among the moves of the
    /// moved position.
    MoveNotFound,
}

/// The place of the first of `moves` that is `mv`, if there is one.
pub open spec fn first_position<M>(moves: Seq<M>, mv: M) -> Option<int> {
    if exists|k: int| 0 <= k < moves.len() && moves[k] == mv {
        Some(choose|k: int| is_first_position(moves, mv, k))
    } else {
        None
    }
}

/// Whether `k` is the place of the first of `moves` that is `mv`.
pub open spec fn is_first_position<M>(moves: Seq<M>, mv: M, k: int) -> bool {
    &&& 0 <= k < moves.len()
    &&& moves[k] == mv
    &&& forall|j: int| 0 <= j < k ==> moves[j] != mv
}

/// The first place of a move is the only one that is the first.
pub proof fn lemma_first_position<M>(moves: Seq<M>, mv: M, k: int)
    requires
        is_first_position(moves, mv, k),
    ensures
        first_position(moves, mv) == Some(k),
{
    let chosen = choose|k: int| is_first_position(moves, mv, k);
    assert(is_first_position(moves, mv, chosen));
    if chosen < k {
        assert(moves[chosen] != mv);
    } else if k < chosen {
        assert(moves[k] != mv);
    }
}

/// The place of the first of `moves` that is `mv`.
pub fn position_of<B: GameBoard>(moves: &Vec<B::Move>, mv: B::Move) -> (r: Option<usize>)
    ensures
        match r {
            Some(k) => first_position(moves@, mv) == Some(k as int) && is_first_position(
                moves@,
                mv,
                k as int,
            ),
            None => first_position(moves@, mv) is None,
        },
{
    let mut k: usize = 0;
    while k < moves.len()
        invariant
            k <= moves@.len(),
            forall|j: int| 0 <= j < k ==> moves@[j] != mv,
        decreases moves@.len() - k,
    {
        if B::same_move(moves[k], mv) {
            proof {
                lemma_first_position(moves@, mv, k as int);
            }
            return Some(k);
        }
        k += 1;
    }
    None
}

/// What [`original_policy`] reads: entry `i` is the entry of `sym_policy` at
/// the place that move `i` of the position takes among the moves of the
/// moved position.
pub open spec fn read_back<B: SymmetricBoard, P>(
    board: B,
    sym: B::Symmetry,
    sym_policy: Seq<P>,
    i: int,
) -> Option<P> {
    match first_position(
        board.spec_map(sym).spec_moves(),
        board.spec_map_move(sym, board.spec_moves()[i]),
    ) {
        Some(k) => Some(sym_policy[k]),
        None => None,
    }
}

/// The policy of `board` in the order of its own moves, where `sym_policy`
/// is the policy of the position moved by `sym`, in the order of the moves
/// of that position. The game must not be over.
pub fn original_policy<B: SymmetricBoard, P: Copy>(
    board: &B,
    sym: B::Symmetry,
    sym_policy: &Vec<P>,
) -> (r: Result<Vec<P>, SymmetryError>)
    requires
        board.valid(),
        board.spec_outcome() is None,
    ensures
        match r {
            Ok(policy) => {
                &&& sym_policy@.len() == board.spec_map(sym).spec_moves().len()
                &&& policy@.len() == board.spec_moves().len()
                &&& forall|i: int|
                    0 <= i < policy@.len() ==> read_back(*board, sym, sym_policy@, i) == Some(
                        #[trigger] policy@[i],
                    )
            },
            Err(SymmetryError::PolicyLength) => sym_policy@.len() != board.spec_map(
                sym,
            ).spec_moves().len(),
            Err(SymmetryError::MoveNotFound) => {
                &&& sym_policy@.len() == board.spec_map(sym).spec_moves().len()
                &&& exists|i: int|
                    0 <= i < board.spec_moves().len() && #[trigger] read_back(
                        *board,
                        sym,
                        sym_policy@,
                        i,
                    ) is None
            },
        },
{
    let mapped = board.map(sym);
    let sym_moves = mapped.available_moves();
    if sym_moves.len() != sym_policy.len() {
        return Err(SymmetryError::PolicyLength);
    }
    let moves = board.available_moves();
    let mut policy: Vec<P> = Vec::new();
    let mut i: usize = 0;
    while i < moves.len()
        invariant
            board.valid(),
            i <= moves@.len(),
            moves@ == board.spec_moves(),
            sym_moves@ == board.spec_map(sym).spec_moves(),
            sym_moves@.len() == sym_policy@.len(),
            policy@.len() == i,
            forall|j: int|
                0 <= j < i ==> read_back(*board, sym, sym_policy@, j) == Some(#[trigger] policy@[j]),
        decreases moves@.len() - i,
    {
        let sym_mv = board.map_move(sym, moves[i]);
        match position_of::<B>(&sym_moves, sym_mv) {
            Some(index) => {
                policy.push(sym_policy[index]);
            },
            None => {
                proof {
                    assert(read_back(*board, sym, sym_policy@, i as int) is None);
                }
                return Err(SymmetryError::MoveNotFound);
            },
        }
        i += 1;
    }
    Ok(policy)
}

/// The symmetry through which a position is shown to the network: one of
/// all symmetries, each with the same chance, where `random_symmetries` is
/// set, and otherwise the one that moves nothing.
pub fn pick_symmetry<B: SymmetricBoard, R: Rng>(rng: &mut R, random_symmetries: bool) -> (r:
    B::Symmetry)
    ensures
        B::spec_symmetries().contains(r),
        !random_symmetries ==> r == B::spec_symmetries()[0],
{
    let all = B::all_symmetries();
    if random_symmetries {
        let index = gen_below(rng, all.len());
        all[index]
    } else {
        all[0]
    }
}

} // verus!
