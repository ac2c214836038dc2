//! What the search asks of a game and of the arithmetic on evaluations.

use crate::board::Player;
use vstd::prelude::*;

verus! {

/// How a finished game ended.
#[derive(Debug, Copy, Clone, PartialEq, Eq, Hash, Structural)]
pub enum Outcome {
    WonBy(Player),
    Draw,
}

/// How a finished game ended for one of the players.
#[derive(Debug, Copy, Clone, PartialEq, Eq, Hash, Structural)]
pub enum OutcomeWDL {
    Win,
    Draw,
    Loss,
}

impl Outcome {
    /// The outcome as the given player sees it.
    pub open spec fn spec_pov(self, pov: Player) -> OutcomeWDL {
        match self {
            Outcome::Draw => OutcomeWDL::Draw,
            Outcome::WonBy(winner) => if winner == pov {
                OutcomeWDL::Win
            } else {
                OutcomeWDL::Loss
            },
        }
    }

    /// The outcome as `pov` sees it.
    pub fn pov(self, pov: Player) -> (r: OutcomeWDL)
        ensures
            r == self.spec_pov(pov),
    {
        match self {
            Outcome::Draw => OutcomeWDL::Draw,
            Outcome::WonBy(winner) => if winner == pov {
                OutcomeWDL::Win
            } else {
                OutcomeWDL::Loss
            },
        }
    }
}

impl OutcomeWDL {
    /// The outcome as the opponent sees it.
    pub open spec fn spec_flip(self) -> OutcomeWDL {
        match self {
            OutcomeWDL::Win => OutcomeWDL::Loss,
            OutcomeWDL::Draw => OutcomeWDL::Draw,
            OutcomeWDL::Loss => OutcomeWDL::Win,
        }
    }

    /// The outcome as the opponent sees it.
    pub fn flip(self) -> (r: OutcomeWDL)
        ensures
            r == self.spec_flip(),
    {
        match self {
            OutcomeWDL::Win => OutcomeWDL::Loss,
            OutcomeWDL::Draw => OutcomeWDL::Draw,
            OutcomeWDL::Loss => OutcomeWDL::Win,
        }
    }
}

/// A two-player game of perfect information, as the search sees it.
///
/// A position is either finished, and then has an outcome, or it has between
/// one and 255 moves, listed in an order that belongs to the position.
///
/// What a position is in the eyes of the proofs is said by the functions
/// whose names begin with `spec_` and by `valid`. An implementation that
/// does not say what they are leaves each of them some function that
/// nothing is known of: the proofs then hold of it as far as its methods
/// keep the contracts below.
pub trait GameBoard: Sized {
    /// A move of the game.
    type Move: Copy;

    /// Whether the position is one the game can reach.
    open spec fn valid(&self) -> bool {
        arbitrary::<spec_fn(int, Self) -> bool>()(1, *self)
    }

    /// How the game ended, if it has.
    open spec fn spec_outcome(&self) -> Option<Outcome> {
        arbitrary::<spec_fn(int, Self) -> Option<Outcome>>()(2, *self)
    }

    /// The player who moves next.
    open spec fn spec_next_player(&self) -> Player {
        arbitrary::<spec_fn(int, Self) -> Player>()(3, *self)
    }

    /// The moves of the position, in its own order.
    open spec fn spec_moves(&self) -> Seq<Self::Move> {
        arbitrary::<spec_fn(int, Self) -> Seq<Self::Move>>()(4, *self)
    }

    /// The position after a move.
    open spec fn spec_play(&self, mv: Self::Move) -> Self {
        arbitrary::<spec_fn(int, Self, Self::Move) -> Self>()(5, *self, mv)
    }

    /// How the game has ended, if it has.
    fn outcome(&self) -> (r: Option<Outcome>)
        requires
            self.valid(),
        ensures
            r == self.spec_outcome(),
    ;

    /// Whose turn it is.
    fn next_player(&self) -> (r: Player)
        requires
            self.valid(),
        ensures
            r == self.spec_next_player(),
    ;

    /// The moves of a position that is not finished, in the order of the game.
    fn available_moves(&self) -> (r: Vec<Self::Move>)
        requires
            self.valid(),
            self.spec_outcome() is None,
        ensures
            r@ == self.spec_moves(),
            0 < r@.len() <= u8::MAX,
    ;

    /// Plays a move of the position.
    fn play(&mut self, mv: Self::Move)
        requires
            old(self).valid(),
            old(self).spec_outcome() is None,
            old(self).spec_moves().contains(mv),
        ensures
            final(self).valid(),
            *final(self) == old(self).spec_play(mv),
    ;

    /// A copy of the position.
    fn duplicate(&self) -> (r: Self)
        requires
            self.valid(),
        ensures
            r == *self,
    ;

    /// Whether two moves are the same move.
    fn same_move(a: Self::Move, b: Self::Move) -> (r: bool)
        ensures
            r == (a == b),
    ;
}

/// The arithmetic on evaluations and priors, which the search only passes
/// through. `P` is a prior probability and `V` a bundle of values; the
/// search neither reads nor compares them.
pub trait Numeric<P, V> {
    /// The prior that a child holds until its parent has been evaluated.
    fn uniform_prior(&self) -> P;

    /// The values of a node that nothing has been added to.
    fn zero_values(&self) -> V;

    /// The values of a finished game, for the player who would move next.
    fn outcome_values(&self, outcome: OutcomeWDL) -> V;

    /// The same values as the opponent sees them.
    fn flip(&self, values: &V) -> V;

    /// The values of a node as they count for its parent.
    fn parent(&self, values: &V) -> V;

    /// The sum of two bundles of values.
    fn add(&self, sum: &V, values: &V) -> V;

    /// The mean of `visits` bundles of values that add up to `sum`.
    fn mean(&self, sum: &V, visits: u64) -> V;

    /// A prior with noise mixed into it.
    fn mix(&self, prior: &P, noise: &P) -> P;

    /// A prior as a number that orders the priors: a higher prior is a
    /// higher number.
    fn prior_key(&self, prior: &P) -> i64;

    /// The priors, each divided by what they add up to.
    fn normalize(&self, priors: Vec<P>) -> Vec<P>;

    /// The selection score of a child, as a number that orders the scores:
    /// a higher score is a higher number. The values that stand for a child
    /// without visits and the sum of the values of the child are both as
    /// the child sees them.
    fn uct(
        &self,
        parent_total_visits: u64,
        fpu: &V,
        child_complete_visits: u64,
        child_virtual_visits: u64,
        child_sum_values: &V,
        child_net_policy: &P,
    ) -> i64;
}

} // verus!
