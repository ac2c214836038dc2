//! What a mapper between a game and the tensors of the network offers.

use vstd::prelude::*;

verus! {

/// The product of three numbers.
pub open spec fn volume(shape: Seq<usize>) -> nat {
    (shape[0] * shape[1] * shape[2]) as nat
}

/// Writes a board as the input of the network: a block of switches of a
/// fixed shape, and a fixed number of scalars of type `S`.
pub trait InputMapper<B, S>: Sized {
    /// The number of switches of one board. Unless an implementation says
    /// otherwise, nothing is known of it.
    open spec fn spec_bool_len(&self) -> nat {
        arbitrary::<spec_fn(int, Self) -> nat>()(8, *self)
    }

    /// The number of scalars of one board. Unless an implementation says
    /// otherwise, nothing is known of it.
    open spec fn spec_scalar_len(&self) -> nat {
        arbitrary::<spec_fn(int, Self) -> nat>()(9, *self)
    }

    /// The shape of the switches of one board. Unless an implementation
    /// says otherwise, nothing is known of it but its volume.
    open spec fn spec_bool_shape(&self) -> Seq<usize> {
        arbitrary::<spec_fn(int, Self) -> Seq<usize>>()(10, *self)
    }

    /// The shape of the switches of one board.
    fn input_bool_shape(&self) -> (r: [usize; 3])
        ensures
            r@ == self.spec_bool_shape(),
            volume(r@) == self.spec_bool_len(),
    ;

    /// How many scalar inputs a position has.
    fn input_scalar_count(&self) -> (r: usize)
        ensures
            r == self.spec_scalar_len(),
    ;

    /// The switches of a board. Unless an implementation says otherwise,
    /// nothing is known of them but their number.
    open spec fn spec_bools(&self, board: B) -> Seq<bool> {
        arbitrary::<spec_fn(int, Self, B) -> Seq<bool>>()(11, *self, board)
    }

    /// The scalars of a board. Unless an implementation says otherwise,
    /// nothing is known of them but their number.
    open spec fn spec_scalars(&self, board: B) -> Seq<S> {
        arbitrary::<spec_fn(int, Self, B) -> Seq<S>>()(12, *self, board)
    }

    /// Adds the switches and the scalars of `board` to the two buffers.
    fn encode_input(&self, bools: &mut Vec<bool>, scalars: &mut Vec<S>, board: &B)
        ensures
            final(bools)@ == old(bools)@ + self.spec_bools(*board),
            self.spec_bools(*board).len() == self.spec_bool_len(),
            final(scalars)@ == old(scalars)@ + self.spec_scalars(*board),
            self.spec_scalars(*board).len() == self.spec_scalar_len(),
    ;
}

/// Finds the moves of a board in the policy of the network, which has a
/// fixed shape.
pub trait PolicyMapper<B, M>: Sized {
    /// The number of entries of the policy. Unless an implementation says
    /// otherwise, nothing is known of it.
    open spec fn spec_policy_len(&self) -> nat {
        arbitrary::<spec_fn(int, Self) -> nat>()(13, *self)
    }

    /// The shape of the policy.
    fn policy_shape(&self) -> (r: [usize; 3])
        ensures
            volume(r@) == self.spec_policy_len(),
    ;

    /// The number of entries of the policy.
    fn policy_len(&self) -> (r: usize)
        ensures
            r == self.spec_policy_len(),
    ;

    /// The entry of the policy that stands for a move of a board, if one
    /// does. Unless an implementation says otherwise, nothing is known of
    /// it.
    open spec fn spec_index(&self, board: B, mv: M) -> Option<usize> {
        arbitrary::<spec_fn(int, Self, B, M) -> Option<usize>>()(14, *self, board, mv)
    }

    /// The move of a board that an entry of the policy stands for, if it
    /// stands for one. Unless an implementation says otherwise, nothing is
    /// known of it.
    open spec fn spec_move(&self, board: B, index: usize) -> Option<M> {
        arbitrary::<spec_fn(int, Self, B, usize) -> Option<M>>()(15, *self, board, index)
    }

    /// The entry of the policy that stands for a move, if one does.
    fn move_to_index(&self, board: &B, mv: M) -> (r: Option<usize>)
        ensures
            r == self.spec_index(*board, mv),
            r matches Some(index) ==> index < self.spec_policy_len(),
    ;

    /// The move that an entry of the policy stands for, if it stands for
    /// one.
    fn index_to_move(&self, board: &B, index: usize) -> (r: Option<M>)
        ensures
            r == self.spec_move(*board, index),
    ;
}

} // verus!
