//! The decisions of a game of self-play that do not need the network.

use crate::selfplay::protocol::Settings;
use crate::zero::game::{GameBoard, Numeric};
use vstd::prelude::*;

verus! {

/// One position of a finished game: the board before the move, the move,
/// what the search found and what the network said of the root. `E` is an
/// evaluation.
#[derive(Debug)]
pub struct Position<B, M, E> {
    pub board: B,
    pub is_full_search: bool,
    pub played_mv: M,
    pub zero_visits: u64,
    pub zero_evaluation: E,
    pub net_evaluation: E,
}

/// A finished game.
#[derive(Debug)]
pub struct Simulation<B, M, E> {
    pub positions: Vec<Position<B, M, E>>,
    pub final_board: B,
}

/// The visits that a search is given: those of a full search or those of
/// a partial one.
pub fn target_visits(settings: &Settings, is_full_search: bool) -> (r: u64)
    ensures
        r == if is_full_search {
            settings.full_iterations
        } else {
            settings.part_iterations
        },
{
    if is_full_search {
        settings.full_iterations
    } else {
        settings.part_iterations
    }
}

/// Whether the move with number `move_index` of a game, counted from zero,
/// is drawn by temperature; later moves are the ones with the most visits.
pub fn uses_temperature(settings: &Settings, move_index: u32) -> (r: bool)
    ensures
        r == (move_index < settings.zero_temp_move_count),
{
    move_index < settings.zero_temp_move_count
}

/// Whether a game that has `moves_played` moves goes on: its board must
/// not be finished, and the limit on its length, if there is one, must not
/// have been reached.
pub fn game_goes_on(settings: &Settings, moves_played: usize, board_done: bool) -> (r: bool)
    ensures
        r == (!board_done && (settings.max_game_length < 0 || moves_played
            < settings.max_game_length)),
{
    if board_done {
        false
    } else if settings.max_game_length < 0 {
        true
    } else {
        (moves_played as u128) < (settings.max_game_length as u128)
    }
}

/// The room that a tree is given at the start of a search, so that it need
/// not grow while the search runs: the root, its children, and for every
/// visit the children of one more node. Where that is more than can be
/// counted, it is as much as can be counted.
pub fn tree_capacity(max_legal_moves: usize, target_visits: u64, top_moves: usize) -> (r: usize)
    ensures
        r == if 1 + max_legal_moves + target_visits * top_moves <= usize::MAX {
            (1 + max_legal_moves + target_visits * top_moves) as usize
        } else {
            usize::MAX
        },
{
    let visits: usize = if target_visits > usize::MAX as u64 {
        usize::MAX
    } else {
        target_visits as usize
    };
    proof {
        if target_visits > usize::MAX {
            if top_moves > 0 {
                assert(target_visits * top_moves > usize::MAX) by (nonlinear_arith)
                    requires
                        target_visits > usize::MAX,
                        top_moves >= 1,
                ;
            } else {
                assert(target_visits * top_moves == 0) by (nonlinear_arith)
                    requires
                        top_moves == 0,
                ;
            }
        }
    }
    if top_moves == 0 {
        assert(target_visits * top_moves == 0) by (nonlinear_arith)
            requires
                top_moves == 0,
        ;
        return match max_legal_moves.checked_add(1) {
            Some(total) => total,
            None => usize::MAX,
        };
    }
    match visits.checked_mul(top_moves) {
        None => usize::MAX,
        Some(per_visit) => match per_visit.checked_add(max_legal_moves) {
            None => usize::MAX,
            Some(sum) => match sum.checked_add(1) {
                None => usize::MAX,
                Some(total) => {
                    if target_visits > usize::MAX as u64 {
                        usize::MAX
                    } else {
                        total
                    }
                },
            },
        },
    }
}

/// The place of the largest of the visit counts; of several largest, the
/// first. This is the move that is played once the temperature is zero.
pub fn select_most_visited(visits: &Vec<u64>) -> (r: usize)
    requires
        visits@.len() > 0,
    ensures
        r < visits@.len(),
        forall|i: int| 0 <= i < visits@.len() ==> visits@[i] <= visits@[r as int],
        forall|i: int| 0 <= i < r ==> visits@[i] < visits@[r as int],
{
    let mut best: usize = 0;
    let mut i: usize = 1;
    while i < visits.len()
        invariant
            1 <= i <= visits@.len(),
            best < i,
            forall|j: int| 0 <= j < i ==> visits@[j] <= visits@[best as int],
            forall|j: int| 0 <= j < best ==> visits@[j] < visits@[best as int],
        decreases visits@.len() - i,
    {
        if visits[i] > visits[best] {
            best = i;
        }
        i += 1;
    }
    best
}

impl<B, M, E> Simulation<B, M, E> {
    /// The number of positions that were searched in full; only those are
    /// written out for training.
    pub open spec fn spec_full_count(positions: Seq<Position<B, M, E>>, n: nat) -> nat
        decreases n,
    {
        if n == 0 {
            0
        } else {
            Self::spec_full_count(positions, (n - 1) as nat) + if positions[n - 1].is_full_search {
                1nat
            } else {
                0nat
            }
        }
    }

    /// The places of the first `n` positions that go into the training
    /// data, in their order: those that were searched in full.
    pub open spec fn spec_recorded(positions: Seq<Position<B, M, E>>, n: nat) -> Seq<usize>
        decreases n,
    {
        if n == 0 {
            Seq::empty()
        } else if positions[n - 1].is_full_search {
            Self::spec_recorded(positions, (n - 1) as nat).push((n - 1) as usize)
        } else {
            Self::spec_recorded(positions, (n - 1) as nat)
        }
    }

    /// The places of the positions that go into the training data, in their
    /// order: only a position that was searched in full is worth learning
    /// from.
    pub fn recorded(&self) -> (r: Vec<usize>)
        ensures
            r@ == Self::spec_recorded(self.positions@, self.positions@.len()),
    {
        let mut places: Vec<usize> = Vec::new();
        let mut i: usize = 0;
        while i < self.positions.len()
            invariant
                i <= self.positions@.len(),
                places@ == Self::spec_recorded(self.positions@, i as nat),
            decreases self.positions@.len() - i,
        {
            if self.positions[i].is_full_search {
                places.push(i);
            }
            i += 1;
        }
        places
    }

    /// The number of positions that were searched in full.
    pub fn full_search_count(&self) -> (r: usize)
        ensures
            r == Self::spec_full_count(self.positions@, self.positions@.len()),
    {
        let mut count: usize = 0;
        let mut i: usize = 0;
        while i < self.positions.len()
            invariant
                i <= self.positions@.len(),
                count <= i,
                count == Self::spec_full_count(self.positions@, i as nat),
            decreases self.positions@.len() - i,
        {
            if self.positions[i].is_full_search {
                count += 1;
            }
            i += 1;
        }
        count
    }
}

/// The priors of the moves of a root with noise mixed into them, entry by
/// entry: each entry is what [`Numeric::mix`] makes of the prior and the
/// noise at its place. A position with a single move gets no noise. Nothing
/// is handed back where there is not one entry of noise per prior.
pub fn add_dirichlet_noise<P: Copy, V, N: Numeric<P, V>>(
    policy: &Vec<P>,
    noise: &Vec<P>,
    numeric: &N,
) -> (r: Option<Vec<P>>)
    ensures
        r is Some <==> policy@.len() <= 1 || noise@.len() == policy@.len(),
        r matches Some(mixed) ==> mixed@.len() == policy@.len(),
        r matches Some(mixed) ==> policy@.len() <= 1 ==> mixed@ == policy@,
        r matches Some(mixed) ==> policy@.len() > 1 ==> forall|i: int|
            0 <= i < mixed@.len() ==> call_ensures(
                N::mix,
                (numeric, &policy@[i], &noise@[i]),
                #[trigger] mixed@[i],
            ),
{
    let mut mixed: Vec<P> = Vec::new();
    if policy.len() <= 1 {
        let mut i: usize = 0;
        while i < policy.len()
            invariant
                i <= policy@.len(),
                mixed@ == policy@.subrange(0, i as int),
            decreases policy@.len() - i,
        {
            mixed.push(policy[i]);
            i += 1;
        }
        assert(policy@.subrange(0, policy@.len() as int) =~= policy@);
        return Some(mixed);
    }
    if noise.len() != policy.len() {
        return None;
    }
    let mut i: usize = 0;
    while i < policy.len()
        invariant
            i <= policy@.len(),
            noise@.len() == policy@.len(),
            mixed@.len() == i,
            forall|j: int|
                0 <= j < i ==> call_ensures(
                    N::mix,
                    (numeric, &policy@[j], &noise@[j]),
                    #[trigger] mixed@[j],
                ),
        decreases policy@.len() - i,
    {
        mixed.push(numeric.mix(&policy[i], &noise[i]));
        i += 1;
    }
    Some(mixed)
}

/// What a game of self-play does next.
#[derive(Debug, Copy, Clone, PartialEq, Eq, Structural)]
pub enum Plan {
    /// The game is over or has reached its limit: hand it in.
    Finish,
    /// Search the position with the given number of visits and play a move.
    Search {
        target_visits: u64,
        /// Whether the position goes into the training data.
        is_full_search: bool,
        /// Whether the move is drawn by temperature; otherwise the move
        /// with the most visits is played.
        with_temperature: bool,
    },
}

/// A game of self-play that is under way: the board and the positions that
/// have been recorded.
pub struct SelfplayGame<B: GameBoard, E> {
    board: B,
    positions: Vec<Position<B, B::Move, E>>,
}

impl<B: GameBoard, E> SelfplayGame<B, E> {
    /// The board as it stands.
    pub closed spec fn spec_board(&self) -> B {
        self.board
    }

    /// The positions that have been recorded.
    pub closed spec fn spec_positions(&self) -> Seq<Position<B, B::Move, E>> {
        self.positions@
    }

    /// The board of a game is always one of the game.
    pub open spec fn wf(&self) -> bool {
        self.spec_board().valid()
    }

    /// A game that starts from `start`.
    pub fn new(start: B) -> (r: Self)
        requires
            start.valid(),
        ensures
            r.wf(),
            r.spec_board() == start,
            r.spec_positions().len() == 0,
    {
        SelfplayGame { board: start, positions: Vec::new() }
    }

    /// The board as it stands.
    pub fn board(&self) -> (r: &B)
        ensures
            *r == self.spec_board(),
    {
        &self.board
    }

    /// The number of moves that have been played.
    pub fn moves_played(&self) -> (r: usize)
        ensures
            r == self.spec_positions().len(),
    {
        self.positions.len()
    }

    /// What the game does next: it is handed in when its board is finished
    /// or it has as many moves as a game may have; otherwise its position
    /// is searched, in full or in part as `is_full_search` says.
    pub fn plan(&self, settings: &Settings, is_full_search: bool) -> (r: Plan)
        requires
            self.wf(),
        ensures
            r == if self.spec_board().spec_outcome() is Some || (settings.max_game_length >= 0
                && self.spec_positions().len() >= settings.max_game_length) {
                Plan::Finish
            } else {
                Plan::Search {
                    target_visits: if is_full_search {
                        settings.full_iterations
                    } else {
                        settings.part_iterations
                    },
                    is_full_search,
                    with_temperature: self.spec_positions().len() < settings.zero_temp_move_count,
                }
            },
    {
        let done = self.board.outcome().is_some();
        if !game_goes_on(settings, self.positions.len(), done) {
            Plan::Finish
        } else {
            let moves = self.positions.len();
            Plan::Search {
                target_visits: target_visits(settings, is_full_search),
                is_full_search,
                with_temperature: (moves as u128) < (settings.zero_temp_move_count as u128),
            }
        }
    }

    /// Records the position with what the search has found, and plays the
    /// move. The game must not be over, and the move must be one of its
    /// position.
    pub fn play(
        &mut self,
        mv: B::Move,
        is_full_search: bool,
        zero_visits: u64,
        zero_evaluation: E,
        net_evaluation: E,
    )
        requires
            old(self).wf(),
            old(self).spec_board().spec_outcome() is None,
            old(self).spec_board().spec_moves().contains(mv),
        ensures
            final(self).wf(),
            final(self).spec_board() == old(self).spec_board().spec_play(mv),
            final(self).spec_positions() == old(self).spec_positions().push(
                (Position {
                    board: old(self).spec_board(),
                    is_full_search,
                    played_mv: mv,
                    zero_visits,
                    zero_evaluation,
                    net_evaluation,
                }),
            ),
    {
        let position = Position {
            board: self.board.duplicate(),
            is_full_search,
            played_mv: mv,
            zero_visits,
            zero_evaluation,
            net_evaluation,
        };
        self.positions.push(position);
        self.board.play(mv);
    }

    /// The finished game: its positions and the board it ended on.
    pub fn finish(self) -> (r: Simulation<B, B::Move, E>)
        ensures
            r.positions@ == self.spec_positions(),
            r.final_board == self.spec_board(),
    {
        Simulation { positions: self.positions, final_board: self.board }
    }
}

} // verus!
