//! Between the boards of a batch and the tensors of the network.

use crate::mapping::mapper::{InputMapper, PolicyMapper};
use crate::zero::game::GameBoard;
use vstd::prelude::*;

verus! {

/// The switches of the first `n` boards, board after board.
pub open spec fn batch_bools<B, S, I: InputMapper<B, S>>(mapper: I, boards: Seq<B>, n: nat) -> Seq<
    bool,
>
    decreases n,
{
    if n == 0 {
        Seq::empty()
    } else {
        batch_bools(mapper, boards, (n - 1) as nat) + mapper.spec_bools(boards[n - 1])
    }
}

/// The scalars of the first `n` boards, board after board.
pub open spec fn batch_scalars<B, S, I: InputMapper<B, S>>(mapper: I, boards: Seq<B>, n: nat) -> Seq<
    S,
>
    decreases n,
{
    if n == 0 {
        Seq::empty()
    } else {
        batch_scalars(mapper, boards, (n - 1) as nat) + mapper.spec_scalars(boards[n - 1])
    }
}

/// Adds the switches and the scalars of a batch of boards to the buffers,
/// board after board.
pub fn encode_batch<B, S, I: InputMapper<B, S>>(
    mapper: &I,
    boards: &Vec<B>,
    bools: &mut Vec<bool>,
    scalars: &mut Vec<S>,
)
    ensures
        final(bools)@ == old(bools)@ + batch_bools(*mapper, boards@, boards@.len()),
        final(scalars)@ == old(scalars)@ + batch_scalars(*mapper, boards@, boards@.len()),
{
    let ghost bools_before = bools@;
    let ghost scalars_before = scalars@;
    let mut i: usize = 0;
    assert(bools@ =~= bools_before + batch_bools(*mapper, boards@, 0));
    assert(scalars@ =~= scalars_before + batch_scalars(*mapper, boards@, 0));
    while i < boards.len()
        invariant
            i <= boards@.len(),
            bools@ == bools_before + batch_bools(*mapper, boards@, i as nat),
            scalars@ == scalars_before + batch_scalars(*mapper, boards@, i as nat),
        decreases boards@.len() - i,
    {
        mapper.encode_input(bools, scalars, &boards[i]);
        proof {
            let head_bools = batch_bools(*mapper, boards@, i as nat);
            let head_scalars = batch_scalars(*mapper, boards@, i as nat);
            assert(bools@ =~= bools_before + (head_bools + mapper.spec_bools(boards@[i as int])));
            assert(scalars@ =~= scalars_before + (head_scalars + mapper.spec_scalars(
                boards@[i as int],
            )));
        }
        i += 1;
    }
}

/// Why the entries of the moves could not be read from a policy.
#[derive(Debug, Copy, Clone, PartialEq, Eq, Structural)]
pub enum PolicyError {
    /// The policy does not have the length that the mapper gives it.
    PolicyLength,
    /// The mapper has no entry for one of the moves.
    UnmappedMove,
}

/// The entries of a full policy that stand for the moves of a board, in the
/// order of the moves. The game must not be over.
pub fn extract_policy<B: GameBoard, P: Copy, M: PolicyMapper<B, B::Move>>(
    mapper: &M,
    board: &B,
    policy: &Vec<P>,
) -> (r: Result<Vec<P>, PolicyError>)
    requires
        board.valid(),
        board.spec_outcome() is None,
    ensures
        match r {
            Ok(entries) => {
                &&& policy@.len() == mapper.spec_policy_len()
                &&& entries@.len() == board.spec_moves().len()
                &&& forall|i: int|
                    0 <= i < entries@.len() ==> {
                        let index = mapper.spec_index(*board, board.spec_moves()[i]);
                        &&& index is Some
                        &&& index->0 < policy@.len()
                        &&& #[trigger] entries@[i] == policy@[index->0 as int]
                    }
            },
            Err(PolicyError::PolicyLength) => policy@.len() != mapper.spec_policy_len(),
            Err(PolicyError::UnmappedMove) => {
                &&& policy@.len() == mapper.spec_policy_len()
                &&& exists|i: int|
                    0 <= i < board.spec_moves().len() && #[trigger] mapper.spec_index(
                        *board,
                        board.spec_moves()[i],
                    ) is None
            },
        },
{
    if policy.len() != mapper.policy_len() {
        return Err(PolicyError::PolicyLength);
    }
    let moves = board.available_moves();
    let mut entries: Vec<P> = Vec::new();
    let mut i: usize = 0;
    while i < moves.len()
        invariant
            i <= moves@.len(),
            moves@ == board.spec_moves(),
            policy@.len() == mapper.spec_policy_len(),
            entries@.len() == i,
            forall|j: int|
                0 <= j < i ==> (#[trigger] mapper.spec_index(*board, moves@[j])) is Some
                    && mapper.spec_index(*board, moves@[j])->0 < policy@.len(),
            forall|j: int|
                0 <= j < i ==> #[trigger] entries@[j] == policy@[mapper.spec_index(
                    *board,
                    moves@[j],
                )->0 as int],
        decreases moves@.len() - i,
    {
        let index = match mapper.move_to_index(board, moves[i]) {
            Some(index) => index,
            None => {
                proof {
                    assert(mapper.spec_index(*board, board.spec_moves()[i as int]) is None);
                }
                return Err(PolicyError::UnmappedMove);
            },
        };
        let ghost prior = entries@;
        entries.push(policy[index]);
        proof {
            assert(mapper.spec_index(*board, moves@[i as int]) == Some(index));
            assert(entries@[i as int] == policy@[index as int]);
            assert forall|j: int| 0 <= j < i implies #[trigger] entries@[j] == prior[j] by {}
        }
        i += 1;
    }
    Ok(entries)
}

/// The shape of the whole input of one board: a plane for every scalar
/// beside the planes of the switches. Nothing where the number of planes
/// cannot be counted.
pub fn input_full_shape<B, S, I: InputMapper<B, S>>(mapper: &I) -> (r: Option<[usize; 3]>)
    ensures
        r matches Some(shape) ==> shape@[0] == mapper.spec_bool_shape()[0]
            + mapper.spec_scalar_len() && shape@[1] == mapper.spec_bool_shape()[1] && shape@[2]
            == mapper.spec_bool_shape()[2],
        r is None <==> mapper.spec_bool_shape()[0] + mapper.spec_scalar_len() > usize::MAX,
{
    let bools = mapper.input_bool_shape();
    let scalars = mapper.input_scalar_count();
    match bools[0].checked_add(scalars) {
        Some(planes) => Some([planes, bools[1], bools[2]]),
        None => None,
    }
}

/// The number of entries of the whole input of one board; nothing where
/// they cannot be counted.
pub fn input_full_size<B, S, I: InputMapper<B, S>>(mapper: &I) -> (r: Option<usize>)
    ensures
        match r {
            Some(size) => size == (mapper.spec_bool_shape()[0] + mapper.spec_scalar_len())
                * mapper.spec_bool_shape()[1] * mapper.spec_bool_shape()[2],
            None => (mapper.spec_bool_shape()[0] + mapper.spec_scalar_len())
                * mapper.spec_bool_shape()[1] > usize::MAX || (mapper.spec_bool_shape()[0]
                + mapper.spec_scalar_len()) * mapper.spec_bool_shape()[1]
                * mapper.spec_bool_shape()[2] > usize::MAX,
        },
{
    let bools = mapper.input_bool_shape();
    let scalars = mapper.input_scalar_count();
    match bools[0].checked_add(scalars) {
        None => {
            if bools[1] == 0 || bools[2] == 0 {
                proof {
                    let planes = bools[0] + scalars;
                    assert(planes * bools[1] * bools[2] == 0) by (nonlinear_arith)
                        requires
                            bools[1] == 0 || bools[2] == 0,
                    ;
                }
                Some(0)
            } else {
                proof {
                    let planes = bools[0] + scalars;
                    assert(planes * bools[1] > usize::MAX) by (nonlinear_arith)
                        requires
                            planes > usize::MAX,
                            bools[1] >= 1,
                    ;
                }
                None
            }
        },
        Some(planes) => match planes.checked_mul(bools[1]) {
            None => {
                if bools[2] == 0 {
                    proof {
                        assert(planes * bools[1] * bools[2] == 0) by (nonlinear_arith)
                            requires
                                bools[2] == 0,
                        ;
                    }
                    Some(0)
                } else {
                    None
                }
            },
            Some(rows) => rows.checked_mul(bools[2]),
        },
    }
}

} // verus!
