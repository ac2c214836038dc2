use alpha_zero::selfplay::collector::{Collector, CollectorAction, ThroughputEstimator};
use alpha_zero::selfplay::executor::{
    channel_capacity, concurrent_games, pad_batch, pick_batch_size, split_outputs,
};
use alpha_zero::selfplay::generator::{
    game_goes_on, select_most_visited, target_visits, tree_capacity, uses_temperature, Position,
    Simulation,
};
use alpha_zero::selfplay::protocol::{
    commander_step, Command, CommandKind, CommanderAction, CommanderState, ProtocolError, Settings,
    StartupError, StartupSettings,
};
use alpha_zero::selfplay::server::Game;
use alpha_zero::text::{parse_number, push_decimal, text_is, text_starts_with};
use alpha_zero::util::{c_array_string, c_nested_array_string, ceil_div};

#[test]
fn game_names() {
    assert_eq!(Game::parse("ttt"), Some(Game::TTT));
    assert_eq!(Game::parse("sttt"), Some(Game::STTT));
    assert_eq!(Game::parse("chess"), Some(Game::Chess));
    assert_eq!(Game::parse("ataxx"), Some(Game::Ataxx { size: 7 }));
    assert_eq!(Game::parse("ataxx-5"), Some(Game::Ataxx { size: 5 }));
    assert_eq!(Game::parse("ataxx-255"), Some(Game::Ataxx { size: 255 }));
    assert_eq!(Game::parse("ataxx-+5"), Some(Game::Ataxx { size: 5 }));
    assert_eq!(Game::parse("ataxx-007"), Some(Game::Ataxx { size: 7 }));
    assert_eq!(Game::parse("chess-hist-12"), Some(Game::ChessHist { length: 12 }));
    assert_eq!(Game::parse("chess-hist-0"), Some(Game::ChessHist { length: 0 }));

    for name in ["", "go", "TTT", "ttt ", "ataxx-", "ataxx-256", "ataxx--1", "ataxx-5x", "ataxx- 5", "ataxx-+", "chess-hist-", "chess-hist", "chess-hist-1_0"] {
        assert_eq!(Game::parse(name), None, "{:?}", name);
    }
}

#[test]
fn game_names_round_trip() {
    let games = [
        Game::TTT,
        Game::STTT,
        Game::Chess,
        Game::ChessHist { length: 0 },
        Game::ChessHist { length: 1234567 },
        Game::Ataxx { size: 0 },
        Game::Ataxx { size: 7 },
        Game::Ataxx { size: 10 },
        Game::Ataxx { size: 255 },
    ];
    for game in games {
        assert_eq!(Game::parse(&game.name()), Some(game));
    }
    assert_eq!(Game::TTT.name(), "ttt");
    assert_eq!(Game::STTT.name(), "sttt");
    assert_eq!(Game::Chess.name(), "chess");
    assert_eq!(Game::ChessHist { length: 40 }.name(), "chess-hist-40");
    assert_eq!(Game::Ataxx { size: 7 }.name(), "ataxx-7");
}

#[test]
fn numbers_in_text() {
    assert_eq!(parse_number("x17", 1, 255), Some(17));
    assert_eq!(parse_number("255", 0, 255), Some(255));
    assert_eq!(parse_number("256", 0, 255), None);
    assert_eq!(parse_number("18446744073709551615", 0, u64::MAX), Some(u64::MAX));
    assert_eq!(parse_number("18446744073709551616", 0, u64::MAX), None);
    assert_eq!(parse_number("99999999999999999999999", 0, u64::MAX), None);
    assert_eq!(parse_number("+0", 0, 0), Some(0));
    assert_eq!(parse_number("1", 0, 0), None);
    assert_eq!(parse_number("", 0, 9), None);
    assert_eq!(parse_number("+", 0, 9), None);
    assert_eq!(parse_number("-1", 0, 9), None);
    assert_eq!(parse_number("abc", 3, 9), None);

    let mut out = String::from("n=");
    push_decimal(&mut out, 0);
    push_decimal(&mut out, 907);
    push_decimal(&mut out, u64::MAX);
    assert_eq!(out, "n=090718446744073709551615");

    assert!(text_is("chess", 0, "chess"));
    assert!(text_is("a-chess", 2, "chess"));
    assert!(!text_is("chess", 0, "chesS"));
    assert!(!text_is("chess", 0, "ches"));
    assert!(text_is("abc", 3, ""));
    assert!(text_starts_with("ataxx-5", "ataxx-"));
    assert!(text_starts_with("ataxx-", "ataxx-"));
    assert!(!text_starts_with("ataxx", "ataxx-"));
    assert!(!text_starts_with("btaxx-5", "ataxx-"));
}

#[test]
fn arrays_as_text() {
    assert_eq!(c_array_string(&[]), "{}");
    assert_eq!(c_array_string(&[7]), "{7}");
    assert_eq!(c_array_string(&[1, -2, 30, 0]), "{1, -2, 30, 0}");
    assert_eq!(c_array_string(&[isize::MIN, isize::MAX]), format!("{{{}, {}}}", isize::MIN, isize::MAX));
    assert_eq!(c_nested_array_string(&[]), "{}");
    assert_eq!(c_nested_array_string(&[vec![1, 2], vec![], vec![-3]]), "{{1, 2}, {}, {-3}}");
}

#[test]
fn rounding_up() {
    assert_eq!(ceil_div(0, 4), 0);
    assert_eq!(ceil_div(1, 4), 1);
    assert_eq!(ceil_div(4, 4), 1);
    assert_eq!(ceil_div(5, 4), 2);
    assert_eq!(ceil_div(7, 1), 7);
    assert_eq!(ceil_div(u32::MAX - 3, 3), 1431655764);
}

fn startup(game: &str, batch_size: usize) -> StartupSettings {
    StartupSettings {
        game: game.to_string(),
        output_folder: "out".to_string(),
        threads_per_device: 2,
        batch_size,
        games_per_gen: 100,
        first_gen: 0,
        reorder_games: false,
    }
}

fn settings() -> Settings {
    Settings {
        max_game_length: 40,
        use_value: false,
        random_symmetries: true,
        keep_tree: false,
        zero_temp_move_count: 10,
        full_iterations: 600,
        part_iterations: 20,
        cache_size: 0,
    }
}

#[test]
fn startup_settings_are_checked() {
    assert_eq!(startup("sttt", 64).validate(), Ok(Game::STTT));
    assert_eq!(startup("ataxx-6", 1).validate(), Ok(Game::Ataxx { size: 6 }));
    assert_eq!(startup("checkers", 64).validate(), Err(StartupError::UnknownGame));
    assert_eq!(startup("chess", 0).validate(), Err(StartupError::ZeroBatchSize));
    assert_eq!(startup("checkers", 0).validate(), Err(StartupError::UnknownGame));
}

#[test]
fn commands_in_their_order() {
    assert_eq!(Command::StartupSettings(startup("ttt", 1)).kind(), CommandKind::StartupSettings);
    assert_eq!(Command::NewSettings(settings()).kind(), CommandKind::NewSettings);
    assert_eq!(Command::NewNetwork("net.onnx".to_string()).kind(), CommandKind::NewNetwork);
    assert_eq!(Command::WaitForNewNetwork.kind(), CommandKind::WaitForNewNetwork);
    assert_eq!(Command::Stop.kind(), CommandKind::Stop);

    let first = CommanderState::AwaitStartup;
    for kind in [CommandKind::NewSettings, CommandKind::NewNetwork, CommandKind::WaitForNewNetwork, CommandKind::Stop] {
        assert_eq!(commander_step(first, kind), Err(ProtocolError::StartupExpected));
    }
    assert_eq!(commander_step(first, CommandKind::StartupSettings), Ok((CommanderState::Running, CommanderAction::Start)));

    let running = CommanderState::Running;
    let waiting = CommanderState::WaitingForNetwork;
    assert_eq!(commander_step(running, CommandKind::StartupSettings), Err(ProtocolError::StartupRepeated));
    assert_eq!(commander_step(waiting, CommandKind::StartupSettings), Err(ProtocolError::StartupRepeated));
    assert_eq!(commander_step(running, CommandKind::NewSettings), Ok((running, CommanderAction::BroadcastSettings)));
    assert_eq!(commander_step(waiting, CommandKind::NewSettings), Ok((waiting, CommanderAction::BroadcastSettings)));
    assert_eq!(commander_step(running, CommandKind::NewNetwork), Ok((running, CommanderAction::LoadNetwork)));
    assert_eq!(commander_step(waiting, CommandKind::NewNetwork), Ok((running, CommanderAction::LoadNetwork)));
    assert_eq!(commander_step(running, CommandKind::WaitForNewNetwork), Ok((waiting, CommanderAction::Pause)));
    assert_eq!(commander_step(running, CommandKind::Stop), Ok((CommanderState::Stopped, CommanderAction::Stop)));
    assert_eq!(commander_step(waiting, CommandKind::Stop), Ok((CommanderState::Stopped, CommanderAction::Stop)));
    for kind in [CommandKind::StartupSettings, CommandKind::NewSettings, CommandKind::NewNetwork, CommandKind::WaitForNewNetwork, CommandKind::Stop] {
        assert_eq!(commander_step(CommanderState::Stopped, kind), Err(ProtocolError::SessionOver));
    }
}

#[test]
fn games_fill_the_files_of_the_generations() {
    let mut collector = Collector::new(3, 17);
    assert_eq!(collector.curr_gen(), 17);
    let mut actions = vec![];
    for _ in 0..7 {
        actions.push(collector.finished_simulation());
    }
    assert_eq!(actions, vec![
        CollectorAction::Append { gen: 17 },
        CollectorAction::Append { gen: 17 },
        CollectorAction::AppendAndFinish { gen: 17 },
        CollectorAction::Append { gen: 18 },
        CollectorAction::Append { gen: 18 },
        CollectorAction::AppendAndFinish { gen: 18 },
        CollectorAction::Append { gen: 19 },
    ]);
    assert_eq!(collector.curr_gen(), 19);

    let mut single = Collector::new(1, 0);
    assert_eq!(single.finished_simulation(), CollectorAction::AppendAndFinish { gen: 0 });
    assert_eq!(single.finished_simulation(), CollectorAction::AppendAndFinish { gen: 1 });
    let mut empty = Collector::new(0, 5);
    assert_eq!(empty.finished_simulation(), CollectorAction::AppendAndFinish { gen: 5 });
    assert_eq!(empty.curr_gen(), 6);
}

#[test]
fn throughput_counts() {
    let mut estimator = ThroughputEstimator::new();
    estimator.add_game();
    estimator.update(10, 3, 40);
    estimator.update(5, 0, 2);
    estimator.add_game();
    let window = estimator.take_window();
    assert_eq!(window, ThroughputEstimator {
        real_evals: 15,
        cached_evals: 3,
        moves: 42,
        games: 2,
        total_moves: 42,
        total_games: 2,
    });
    assert_eq!(estimator, ThroughputEstimator {
        real_evals: 0,
        cached_evals: 0,
        moves: 0,
        games: 0,
        total_moves: 42,
        total_games: 2,
    });
    estimator.update(1, 1, 1);
    assert_eq!(estimator.take_window().total_moves, 43);
}

#[test]
fn batches_of_jobs() {
    assert_eq!(channel_capacity(64, 8), 32);
    assert_eq!(channel_capacity(64, 128), 0);
    assert_eq!(channel_capacity(100, 8), 48);
    assert_eq!(concurrent_games(2, 16, 4), 56);
    assert_eq!(concurrent_games(0, 0, 0), 0);

    let mut input = vec![1.5f32, 2.5, 3.5];
    pad_batch(&mut input, 2, 4, f32::NAN);
    assert_eq!(input.len(), 8);
    assert_eq!(&input[..3], &[1.5, 2.5, 3.5]);
    assert!(input[3..].iter().all(|v| v.is_nan()));
    let mut full = vec![1, 2, 3, 4];
    pad_batch(&mut full, 2, 2, 0);
    assert_eq!(full, vec![1, 2, 3, 4]);

    let output = vec![10, 11, 12, 20, 21, 22, 30, 31, 32, 0, 0, 0];
    assert_eq!(split_outputs(&output, 3, 3), vec![vec![10, 11, 12], vec![20, 21, 22], vec![30, 31, 32]]);
    assert_eq!(split_outputs(&output, 3, 0), Vec::<Vec<i32>>::new());
    assert_eq!(split_outputs(&output, 0, 2), vec![vec![], vec![]]);

    assert_eq!(pick_batch_size(&vec![32, 1, 8, 128], 5), Some(8));
    assert_eq!(pick_batch_size(&vec![32, 1, 8, 128], 8), Some(8));
    assert_eq!(pick_batch_size(&vec![32, 1, 8, 128], 0), Some(1));
    assert_eq!(pick_batch_size(&vec![32, 1, 8, 128], 129), None);
    assert_eq!(pick_batch_size(&vec![], 0), None);
}

#[test]
fn decisions_of_a_game() {
    let s = settings();
    assert_eq!(target_visits(&s, true), 600);
    assert_eq!(target_visits(&s, false), 20);
    assert!(uses_temperature(&s, 0));
    assert!(uses_temperature(&s, 9));
    assert!(!uses_temperature(&s, 10));

    assert!(game_goes_on(&s, 0, false));
    assert!(game_goes_on(&s, 39, false));
    assert!(!game_goes_on(&s, 40, false));
    assert!(!game_goes_on(&s, 3, true));
    let unlimited = Settings { max_game_length: -1, ..s };
    assert!(game_goes_on(&unlimited, usize::MAX, false));
    assert!(!game_goes_on(&unlimited, 0, true));

    assert_eq!(tree_capacity(81, 600, 81), 1 + 81 + 600 * 81);
    assert_eq!(tree_capacity(0, 0, 0), 1);
    assert_eq!(tree_capacity(10, u64::MAX, 0), 11);
    assert_eq!(tree_capacity(10, u64::MAX, 1), usize::MAX);
    assert_eq!(tree_capacity(usize::MAX, 1, 1), usize::MAX);
    assert_eq!(tree_capacity(usize::MAX, 5, 0), usize::MAX);

    assert_eq!(select_most_visited(&vec![0, 0, 0]), 0);
    assert_eq!(select_most_visited(&vec![3, 9, 9, 1]), 1);
    assert_eq!(select_most_visited(&vec![u64::MAX]), 0);
}

#[test]
fn positions_searched_in_full() {
    let position = |full: bool| Position {
        board: 0u8,
        is_full_search: full,
        played_mv: 1u8,
        zero_visits: 10,
        zero_evaluation: 0.5f32,
        net_evaluation: 0.25f32,
    };
    let simulation = Simulation {
        positions: vec![position(true), position(false), position(true), position(true)],
        final_board: 9u8,
    };
    assert_eq!(simulation.full_search_count(), 3);
    assert_eq!(simulation.recorded(), vec![0, 2, 3]);
    let empty: Simulation<u8, u8, f32> = Simulation { positions: vec![], final_board: 0 };
    assert_eq!(empty.full_search_count(), 0);
    assert_eq!(empty.recorded(), Vec::<usize>::new());
}

/// A network that knows nothing of batches: the output of a job depends on its input alone.
fn evaluate_padded(input: &[f32], item_size: usize, batch_size: usize) -> Vec<f32> {
    assert_eq!(input.len(), item_size * batch_size);
    let mut output = Vec::new();
    for job in input.chunks(item_size) {
        let sum: f32 = job.iter().sum();
        output.push(sum * 0.1);
        output.push(job[0] - sum);
    }
    output
}

fn run_in_batches(jobs: &[Vec<f32>], item_size: usize, batch_size: usize) -> Vec<Vec<u32>> {
    let mut answers = Vec::new();
    for batch in jobs.chunks(batch_size) {
        let mut input: Vec<f32> = batch.iter().flatten().copied().collect();
        pad_batch(&mut input, item_size, batch_size, f32::NAN);
        let output = evaluate_padded(&input, item_size, batch_size);
        for answer in split_outputs(&output, 2, batch.len()) {
            answers.push(answer.iter().map(|v| v.to_bits()).collect());
        }
    }
    answers
}

#[test]
fn answers_do_not_depend_on_the_batch_size() {
    let jobs: Vec<Vec<f32>> =
        (0..45).map(|j| vec![j as f32 * 0.37, 1.0 / (j + 1) as f32, -(j as f32)]).collect();
    let one_by_one = run_in_batches(&jobs, 3, 1);
    let in_batches = run_in_batches(&jobs, 3, 32);
    assert_eq!(one_by_one.len(), 45);
    assert_eq!(one_by_one, in_batches);
    assert_eq!(one_by_one[2], vec![(0.74f32 + 1.0 / 3.0 - 2.0) * 0.1, 0.74f32 - (0.74f32 + 1.0 / 3.0 - 2.0)]
        .iter()
        .map(|v| v.to_bits())
        .collect::<Vec<u32>>());
}
