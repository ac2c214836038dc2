//! What the trainer and the self-play server say to each other.

use crate::selfplay::server::{spec_parse, Game};
use vstd::prelude::*;

verus! {

/// What a session is started with.
#[derive(Debug, Clone)]
pub struct StartupSettings {
    pub game: String,
    pub output_folder: String,
    pub threads_per_device: usize,
    pub batch_size: usize,
    pub games_per_gen: usize,
    pub first_gen: u32,
    pub reorder_games: bool,
}

/// The settings of the games that can be changed while a session runs, as
/// far as they are whole numbers and switches.
#[derive(Debug, Copy, Clone, PartialEq, Eq, Structural)]
pub struct Settings {
    /// After how many moves a game is broken off; no limit if negative.
    pub max_game_length: i64,
    pub use_value: bool,
    pub random_symmetries: bool,
    pub keep_tree: bool,
    /// From which move on the move with the most visits is played.
    pub zero_temp_move_count: u32,
    pub full_iterations: u64,
    pub part_iterations: u64,
    pub cache_size: usize,
}

/// A command of the trainer.
#[derive(Debug, Clone)]
pub enum Command {
    StartupSettings(StartupSettings),
    NewSettings(Settings),
    NewNetwork(String),
    WaitForNewNetwork,
    Stop,
}

/// What a generator reports; `S` is a finished game.
#[derive(Debug)]
pub enum GeneratorUpdate<S> {
    Stop,
    FinishedSimulation { thread_id: usize, index: u64, simulation: S },
    /// The counts since the last report.
    Progress {
        /// The evaluations that were found in the cache.
        cached_evals: u64,
        /// The evaluations that the network made.
        real_evals: u64,
        /// The moves that were played.
        moves: u64,
    },
}

/// What the server reports to the trainer.
#[derive(Debug, Copy, Clone, PartialEq, Eq, Structural)]
pub enum ServerUpdate {
    Stopped,
    FinishedFile { index: u32 },
}

/// Why a session cannot start.
#[derive(Debug, Copy, Clone, PartialEq, Eq, Structural)]
pub enum StartupError {
    /// The name of the game stands for no game.
    UnknownGame,
    /// A batch would hold nothing.
    ZeroBatchSize,
}

/// Where the stream of commands stands.
#[derive(Debug, Copy, Clone, PartialEq, Eq, Structural)]
pub enum CommanderState {
    /// Nothing has been received yet.
    AwaitStartup,
    /// The generators are playing.
    Running,
    /// The generators are held back until a new network arrives.
    WaitingForNetwork,
    /// The session is over.
    Stopped,
}

/// What a command asks the server to do.
#[derive(Debug, Copy, Clone, PartialEq, Eq, Structural)]
pub enum CommanderAction {
    /// Start the session with the settings of the command.
    Start,
    /// Hand the settings of the command to every generator.
    BroadcastSettings,
    /// Have the executors load the network of the command.
    LoadNetwork,
    /// Hold the generators back.
    Pause,
    /// Let everything run out and end the session.
    Stop,
}

/// Why a command was refused.
#[derive(Debug, Copy, Clone, PartialEq, Eq, Structural)]
pub enum ProtocolError {
    /// The first command must bring the startup settings.
    StartupExpected,
    /// The startup settings can only come first.
    StartupRepeated,
    /// Nothing can follow the end of the session.
    SessionOver,
}

/// What kind of command a command is.
#[derive(Debug, Copy, Clone, PartialEq, Eq, Structural)]
pub enum CommandKind {
    StartupSettings,
    NewSettings,
    NewNetwork,
    WaitForNewNetwork,
    Stop,
}

impl Command {
    /// Which kind of command this is.
    pub open spec fn spec_kind(&self) -> CommandKind {
        match self {
            Command::StartupSettings(_) => CommandKind::StartupSettings,
            Command::NewSettings(_) => CommandKind::NewSettings,
            Command::NewNetwork(_) => CommandKind::NewNetwork,
            Command::WaitForNewNetwork => CommandKind::WaitForNewNetwork,
            Command::Stop => CommandKind::Stop,
        }
    }

    /// Which kind of command this is.
    pub fn kind(&self) -> (r: CommandKind)
        ensures
            r == self.spec_kind(),
    {
        match self {
            Command::StartupSettings(_) => CommandKind::StartupSettings,
            Command::NewSettings(_) => CommandKind::NewSettings,
            Command::NewNetwork(_) => CommandKind::NewNetwork,
            Command::WaitForNewNetwork => CommandKind::WaitForNewNetwork,
            Command::Stop => CommandKind::Stop,
        }
    }
}

/// What follows from a command: the startup settings come first and only
/// first; after them, new settings go to the generators, a new network goes
/// to the executors and lets held-back generators go on, a wait holds the
/// generators back, and a stop ends the session, after which nothing is
/// taken any more.
pub open spec fn spec_step(state: CommanderState, kind: CommandKind) -> Result<
    (CommanderState, CommanderAction),
    ProtocolError,
> {
    match state {
        CommanderState::Stopped => Err(ProtocolError::SessionOver),
        CommanderState::AwaitStartup => match kind {
            CommandKind::StartupSettings => Ok((CommanderState::Running, CommanderAction::Start)),
            _ => Err(ProtocolError::StartupExpected),
        },
        _ => match kind {
            CommandKind::StartupSettings => Err(ProtocolError::StartupRepeated),
            CommandKind::NewSettings => Ok((state, CommanderAction::BroadcastSettings)),
            CommandKind::NewNetwork => Ok((CommanderState::Running, CommanderAction::LoadNetwork)),
            CommandKind::WaitForNewNetwork => Ok(
                (CommanderState::WaitingForNetwork, CommanderAction::Pause),
            ),
            CommandKind::Stop => Ok((CommanderState::Stopped, CommanderAction::Stop)),
        },
    }
}

/// Takes a command: the state that follows and what the server is to do,
/// or why the command is refused.
pub fn commander_step(state: CommanderState, kind: CommandKind) -> (r: Result<
    (CommanderState, CommanderAction),
    ProtocolError,
>)
    ensures
        r == spec_step(state, kind),
{
    match state {
        CommanderState::Stopped => Err(ProtocolError::SessionOver),
        CommanderState::AwaitStartup => match kind {
            CommandKind::StartupSettings => Ok((CommanderState::Running, CommanderAction::Start)),
            _ => Err(ProtocolError::StartupExpected),
        },
        _ => match kind {
            CommandKind::StartupSettings => Err(ProtocolError::StartupRepeated),
            CommandKind::NewSettings => Ok((state, CommanderAction::BroadcastSettings)),
            CommandKind::NewNetwork => Ok((CommanderState::Running, CommanderAction::LoadNetwork)),
            CommandKind::WaitForNewNetwork => Ok(
                (CommanderState::WaitingForNetwork, CommanderAction::Pause),
            ),
            CommandKind::Stop => Ok((CommanderState::Stopped, CommanderAction::Stop)),
        },
    }
}

/// Once the session is over it stays over, and the startup settings are
/// taken exactly as the first command.
pub proof fn lemma_protocol(state: CommanderState, kind: CommandKind)
    ensures
        spec_step(CommanderState::Stopped, kind) is Err,
        spec_step(state, CommandKind::StartupSettings) is Ok <==> state
            == CommanderState::AwaitStartup,
        spec_step(state, kind) matches Ok(next) ==> next.0 != CommanderState::AwaitStartup,
{
}

impl StartupSettings {
    /// The game of the session, where the settings allow a session at all:
    /// the name must stand for a game, and a batch must hold something.
    pub fn validate(&self) -> (r: Result<Game, StartupError>)
        ensures
            r == match spec_parse(self.game@) {
                None => Err::<Game, StartupError>(StartupError::UnknownGame),
                Some(game) => if self.batch_size == 0 {
                    Err(StartupError::ZeroBatchSize)
                } else {
                    Ok(game)
                },
            },
    {
        match Game::parse(self.game.as_str()) {
            None => Err(StartupError::UnknownGame),
            Some(game) => if self.batch_size == 0 {
                Err(StartupError::ZeroBatchSize)
            } else {
                Ok(game)
            },
        }
    }
}

} // verus!
