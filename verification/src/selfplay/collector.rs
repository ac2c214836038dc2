//! Gathering finished games into the files of the generations, and counting
//! what the session gets done.

use vstd::prelude::*;

verus! {

/// Where the collector stands: the generation that is being written and
/// the games it holds so far.
#[derive(Debug, Copy, Clone, PartialEq, Eq, Structural)]
pub struct Collector {
    games_per_file: usize,
    curr_gen: u32,
    curr_game_count: usize,
}

/// What the collector is to do with a finished game.
#[derive(Debug, Copy, Clone, PartialEq, Eq, Structural)]
pub enum CollectorAction {
    /// Add the game to the file of generation `gen`.
    Append { gen: u32 },
    /// Add the game to the file of generation `gen`, close that file, tell
    /// the trainer that it is finished and open the file of the next
    /// generation.
    AppendAndFinish { gen: u32 },
}

impl Collector {
    /// How many games go into one file.
    pub closed spec fn games_per_file(&self) -> usize {
        self.games_per_file
    }

    /// The generation that is being written.
    pub closed spec fn generation(&self) -> u32 {
        self.curr_gen
    }

    /// The games in the file that is being written.
    pub closed spec fn game_count(&self) -> usize {
        self.curr_game_count
    }

    /// The file that is being written is never full.
    pub open spec fn wf(&self) -> bool {
        self.game_count() < self.games_per_file() || self.games_per_file() == 0
            && self.game_count() == 0
    }

    /// A collector that starts with generation `first_gen`.
    pub fn new(games_per_file: usize, first_gen: u32) -> (r: Collector)
        ensures
            r.wf(),
            r.games_per_file() == games_per_file,
            r.generation() == first_gen,
            r.game_count() == 0,
    {
        Collector { games_per_file, curr_gen: first_gen, curr_game_count: 0 }
    }

    /// The generation that is being written.
    pub fn curr_gen(&self) -> (r: u32)
        ensures
            r == self.generation(),
    {
        self.curr_gen
    }

    /// Takes a finished game. The game goes into the file of the current
    /// generation; once that file holds its number of games it is finished,
    /// and the next generation begins with an empty file.
    pub fn finished_simulation(&mut self) -> (r: CollectorAction)
        requires
            old(self).wf(),
            old(self).generation() < u32::MAX,
        ensures
            final(self).wf(),
            final(self).games_per_file() == old(self).games_per_file(),
            r == if old(self).game_count() + 1 >= old(self).games_per_file() {
                CollectorAction::AppendAndFinish { gen: old(self).generation() }
            } else {
                CollectorAction::Append { gen: old(self).generation() }
            },
            r is AppendAndFinish ==> final(self).generation() == old(self).generation() + 1
                && final(self).game_count() == 0,
            r is Append ==> final(self).generation() == old(self).generation()
                && final(self).game_count() == old(self).game_count() + 1,
    {
        let gen = self.curr_gen;
        if self.curr_game_count + 1 >= self.games_per_file {
            self.curr_gen = self.curr_gen + 1;
            self.curr_game_count = 0;
            CollectorAction::AppendAndFinish { gen }
        } else {
            self.curr_game_count = self.curr_game_count + 1;
            CollectorAction::Append { gen }
        }
    }
}

/// The counts from which the throughput of a session is worked out: what
/// has happened since the last report, and the totals.
#[derive(Debug, Copy, Clone, PartialEq, Eq, Structural)]
pub struct ThroughputEstimator {
    pub real_evals: u64,
    pub cached_evals: u64,
    pub moves: u64,
    pub games: u64,
    pub total_moves: u64,
    pub total_games: u64,
}

impl ThroughputEstimator {
    /// An estimator that has seen nothing yet.
    pub fn new() -> (r: Self)
        ensures
            r == (ThroughputEstimator {
                real_evals: 0,
                cached_evals: 0,
                moves: 0,
                games: 0,
                total_moves: 0,
                total_games: 0,
            }),
    {
        ThroughputEstimator {
            real_evals: 0,
            cached_evals: 0,
            moves: 0,
            games: 0,
            total_moves: 0,
            total_games: 0,
        }
    }

    /// The counts never leave the totals behind.
    pub open spec fn wf(&self) -> bool {
        self.moves <= self.total_moves && self.games <= self.total_games
    }

    /// Counts a finished game.
    pub fn add_game(&mut self)
        requires
            old(self).wf(),
            old(self).total_games < u64::MAX,
        ensures
            final(self).wf(),
            *final(self) == (ThroughputEstimator {
                games: (old(self).games + 1) as u64,
                total_games: (old(self).total_games + 1) as u64,
                ..*old(self)
            }),
    {
        self.games = self.games + 1;
        self.total_games = self.total_games + 1;
    }

    /// Counts the evaluations and moves of a report.
    pub fn update(&mut self, real_evals: u64, cached_evals: u64, moves: u64)
        requires
            old(self).wf(),
            old(self).real_evals + real_evals <= u64::MAX,
            old(self).cached_evals + cached_evals <= u64::MAX,
            old(self).total_moves + moves <= u64::MAX,
        ensures
            final(self).wf(),
            *final(self) == (ThroughputEstimator {
                real_evals: (old(self).real_evals + real_evals) as u64,
                cached_evals: (old(self).cached_evals + cached_evals) as u64,
                moves: (old(self).moves + moves) as u64,
                total_moves: (old(self).total_moves + moves) as u64,
                ..*old(self)
            }),
    {
        self.real_evals = self.real_evals + real_evals;
        self.cached_evals = self.cached_evals + cached_evals;
        self.moves = self.moves + moves;
        self.total_moves = self.total_moves + moves;
    }

    /// Hands out the counts since the last report and starts them anew;
    /// the totals stay.
    pub fn take_window(&mut self) -> (r: ThroughputEstimator)
        requires
            old(self).wf(),
        ensures
            r == *old(self),
            final(self).wf(),
            *final(self) == (ThroughputEstimator {
                real_evals: 0,
                cached_evals: 0,
                moves: 0,
                games: 0,
                ..*old(self)
            }),
    {
        let window = *self;
        self.real_evals = 0;
        self.cached_evals = 0;
        self.moves = 0;
        self.games = 0;
        window
    }
}

} // verus!
