use std::str::FromStr;

use alpha_zero::board::Player;
use alpha_zero::mapping::chess::{
    ChessMove, ChessPosition, ChessStdMapper, ClassifiedPovMove, Color, Piece, Square,
};
use alpha_zero::zero::game::{GameBoard, Numeric, Outcome, OutcomeWDL};
use alpha_zero::zero::step::{zero_step_apply, zero_step_gather, FpuMode, ZeroEvaluation};
use alpha_zero::zero::tree::Tree;
use board_game::board::Board as _;
use board_game::board::BoardMoves;
use board_game::games::chess::{ChessBoard, Rules};
use board_game::games::ttt::TTTBoard;
use board_game::util::coord::Coord3;
use internal_iterator::InternalIterator;

fn player(p: board_game::board::Player) -> Player {
    match p {
        board_game::board::Player::A => Player::X,
        board_game::board::Player::B => Player::O,
    }
}

fn outcome(o: board_game::board::Outcome) -> Outcome {
    match o {
        board_game::board::Outcome::WonBy(p) => Outcome::WonBy(player(p)),
        board_game::board::Outcome::Draw => Outcome::Draw,
    }
}

#[derive(Debug, Clone, PartialEq)]
struct Ttt(TTTBoard);

impl GameBoard for Ttt {
    type Move = Coord3;

    fn outcome(&self) -> Option<Outcome> {
        self.0.outcome().map(outcome)
    }

    fn next_player(&self) -> Player {
        player(self.0.next_player())
    }

    fn available_moves(&self) -> Vec<Coord3> {
        self.0.available_moves().unwrap().collect()
    }

    fn play(&mut self, mv: Coord3) {
        self.0.play(mv).unwrap()
    }

    fn duplicate(&self) -> Self {
        self.clone()
    }

    fn same_move(a: Coord3, b: Coord3) -> bool {
        a == b
    }
}

#[derive(Debug, Clone, PartialEq)]
struct Chess(ChessBoard);

impl GameBoard for Chess {
    type Move = chess::ChessMove;

    fn outcome(&self) -> Option<Outcome> {
        self.0.outcome().map(outcome)
    }

    fn next_player(&self) -> Player {
        player(self.0.next_player())
    }

    fn available_moves(&self) -> Vec<chess::ChessMove> {
        self.0.available_moves().unwrap().collect()
    }

    fn play(&mut self, mv: chess::ChessMove) {
        self.0.play(mv).unwrap()
    }

    fn duplicate(&self) -> Self {
        self.clone()
    }

    fn same_move(a: chess::ChessMove, b: chess::ChessMove) -> bool {
        a == b
    }
}

struct Floats {
    exploration_weight: f32,
}

impl Numeric<f32, f32> for Floats {
    fn uniform_prior(&self) -> f32 {
        1.0
    }

    fn zero_values(&self) -> f32 {
        0.0
    }

    fn outcome_values(&self, outcome: OutcomeWDL) -> f32 {
        match outcome {
            OutcomeWDL::Win => 1.0,
            OutcomeWDL::Draw => 0.0,
            OutcomeWDL::Loss => -1.0,
        }
    }

    fn flip(&self, values: &f32) -> f32 {
        -*values
    }

    fn parent(&self, values: &f32) -> f32 {
        -*values
    }

    fn add(&self, sum: &f32, values: &f32) -> f32 {
        *sum + *values
    }

    fn mean(&self, sum: &f32, visits: u64) -> f32 {
        *sum / visits as f32
    }

    fn mix(&self, prior: &f32, noise: &f32) -> f32 {
        0.75 * *prior + 0.25 * *noise
    }

    fn prior_key(&self, prior: &f32) -> i64 {
        (*prior * 1_000_000.0) as i64
    }

    fn normalize(&self, priors: Vec<f32>) -> Vec<f32> {
        let sum: f32 = priors.iter().sum();
        priors.into_iter().map(|p| p / sum).collect()
    }

    fn uct(
        &self,
        parent_total_visits: u64,
        fpu: &f32,
        child_complete_visits: u64,
        child_virtual_visits: u64,
        child_sum_values: &f32,
        child_net_policy: &f32,
    ) -> i64 {
        let total = child_complete_visits + child_virtual_visits;
        // both values are as the child sees them; the parent sees the opposite
        let q = if total == 0 { -*fpu } else { -*child_sum_values / total as f32 };
        let u = *child_net_policy * (parent_total_visits as f32).sqrt() / (1 + total) as f32;
        ((q + self.exploration_weight * u) * 1_000_000.0) as i64
    }
}

fn search<B: GameBoard>(tree: &mut Tree<B, f32, f32>, numeric: &Floats, visits: u64) {
    while tree.root_visits() < visits {
        if let Some(request) = zero_step_gather(tree, numeric, FpuMode::Parent) {
            let moves = request.board.available_moves().len();
            let eval = ZeroEvaluation { values: 0.0, policy: vec![1.0 / moves as f32; moves] };
            zero_step_apply(tree, request.respond(eval), numeric);
        }
    }
}

#[test]
fn tic_tac_toe_forced_win() {
    // X.O
    // .X.
    // O..
    let mut board = TTTBoard::default();
    for (x, y) in [(0, 0), (2, 0), (1, 1), (0, 2)] {
        board.play(Coord3::from_xy(x, y)).unwrap();
    }
    assert_eq!(board.next_player(), board_game::board::Player::A);

    let numeric = Floats { exploration_weight: 2.0 };
    let mut tree = Tree::new(Ttt(board), &numeric);
    search(&mut tree, &numeric, 200);

    assert_eq!(tree.best_move(), Coord3::from_xy(2, 2));
    let root = tree.node(0);
    assert_eq!(root.complete_visits, 200);
    // the first visit expands the root, each of the four other moves is tried five times
    // on the strength of its prior, and every other visit finds the win
    let best = tree.node(tree.best_child());
    assert_eq!(best.complete_visits, 179);
    let mean = root.sum_values / root.complete_visits as f32;
    assert!(mean >= 0.89, "the mean value of the root is {}", mean);

    let won = tree.node(tree.best_child());
    assert!(won.children.is_none());
    assert_eq!(won.sum_values, -(won.complete_visits as f32));
}

#[test]
fn chess_mate_in_one() {
    let board = ChessBoard::new_without_history_fen("6k1/5ppp/8/8/8/8/8/R3K3 w - - 0 1", Rules::default());
    let mate = board.parse_move("Ra8").unwrap();
    let numeric = Floats { exploration_weight: 2.0 };
    let mut tree = Tree::new(Chess(board.clone()), &numeric);
    let moves = Chess(board).available_moves().len() as u64;
    search(&mut tree, &numeric, 4 * moves + 1);

    assert_eq!(tree.best_move(), mate);
    let best = tree.node(tree.best_child());
    assert_eq!(best.last_move, Some(mate));
    // the side to move at the child has been mated, which is a win at the root
    assert_eq!(-best.sum_values / best.complete_visits as f32, 1.0);
    let children = tree.node(0).children.unwrap();
    for c in children.iter() {
        assert!(tree.node(c).complete_visits <= best.complete_visits);
    }
}

fn square(sq: chess::Square) -> Square {
    Square::make_square(sq.get_rank().to_index(), sq.get_file().to_index())
}

fn piece(p: chess::Piece) -> Piece {
    match p {
        chess::Piece::Pawn => Piece::Pawn,
        chess::Piece::Knight => Piece::Knight,
        chess::Piece::Bishop => Piece::Bishop,
        chess::Piece::Rook => Piece::Rook,
        chess::Piece::Queen => Piece::Queen,
        chess::Piece::King => Piece::King,
    }
}

fn color(c: chess::Color) -> Color {
    match c {
        chess::Color::White => Color::White,
        chess::Color::Black => Color::Black,
    }
}

fn chess_move(mv: chess::ChessMove) -> ChessMove {
    ChessMove::new(square(mv.get_source()), square(mv.get_dest()), mv.get_promotion().map(piece))
}

fn position(board: &chess::Board) -> ChessPosition {
    let mut squares = [None; 64];
    for sq in chess::ALL_SQUARES {
        if let (Some(c), Some(p)) = (board.color_on(sq), board.piece_on(sq)) {
            squares[sq.to_index()] = Some((color(c), piece(p)));
        }
    }
    let white = board.castle_rights(chess::Color::White);
    let black = board.castle_rights(chess::Color::Black);
    ChessPosition {
        side_to_move: color(board.side_to_move()),
        squares,
        en_passant: board.en_passant().map(square),
        castle_kingside: [white.has_kingside(), black.has_kingside()],
        castle_queenside: [white.has_queenside(), black.has_queenside()],
        repetitions: 0,
        game_length: 0,
        non_pawn_or_capture_moves: 0,
    }
}

const POSITIONS: [&str; 8] = [
    "rnbqkbnr/pppppppp/8/8/8/8/PPPPPPPP/RNBQKBNR w KQkq - 0 1",
    "rnbqkbnr/pppppppp/8/8/4P3/8/PPPP1PPP/RNBQKBNR b KQkq e3 0 1",
    "r3k2r/p1ppqpb1/bn2pnp1/3PN3/1p2P3/2N2Q1p/PPPBBPPP/R3K2R w KQkq - 0 1",
    "r3k2r/p1ppqpb1/bn2pnp1/3PN3/1p2P3/2N2Q1p/PPPBBPPP/R3K2R b KQkq - 0 1",
    "1n1n4/P1P4k/8/8/8/8/p1p4K/1N1N4 w - - 0 1",
    "1n1n4/P1P4k/8/8/8/8/p1p4K/1N1N4 b - - 0 1",
    "8/2p5/3p4/KP5r/1R3p1k/8/4P1P1/8 w - - 0 1",
    "rnbq1k1r/pp1Pbppp/2p5/8/2B5/8/PPP1NnPP/RNBQK2R w KQ - 1 8",
];

#[test]
fn chess_moves_are_found_again_from_their_slots() {
    let mapper = ChessStdMapper;
    let mut total = 0;
    let mut promotions = 0;
    for fen in POSITIONS {
        let board = chess::Board::from_str(fen).unwrap();
        let pos = position(&board);
        let mut seen = vec![];
        for mv in chess::MoveGen::new_legal(&board) {
            let mv = chess_move(mv);
            let index = mapper.move_to_index(&pos, mv).expect("every legal move has a slot");
            assert!(index < 4672);
            assert_eq!(mapper.index_to_move(&pos, index), Some(mv), "{} {:?}", fen, mv);
            assert!(!seen.contains(&index), "two moves share slot {}", index);
            seen.push(index);
            total += 1;
            if mv.get_promotion().is_some() {
                promotions += 1;
            }
        }
    }
    assert!(total > 150);
    assert!(promotions >= 24);
}

#[test]
fn chess_slots_by_hand() {
    let mapper = ChessStdMapper;
    let board = chess::Board::default();
    let pos = position(&board);
    let at = |rank: usize, file: usize| Square::make_square(rank, file);

    // e2e4: two steps north from square 12
    let e2e4 = ChessMove::new(at(1, 4), at(3, 4), None);
    assert_eq!(ClassifiedPovMove::from_move(e2e4), ClassifiedPovMove::Queen { direction: 0, distance_m1: 1 });
    assert_eq!(mapper.move_to_index(&pos, e2e4), Some(1 * 64 + 12));
    // g1f3: the knight jumps two up and one to the left, the last of the eight jumps
    let g1f3 = ChessMove::new(at(0, 6), at(2, 5), None);
    assert_eq!(ClassifiedPovMove::from_move(g1f3), ClassifiedPovMove::Knight { direction: 7 });
    assert_eq!(mapper.move_to_index(&pos, g1f3), Some((56 + 7) * 64 + 6));
    // a move of no shape has no slot
    let odd = ChessMove::new(at(0, 0), at(3, 1), None);
    assert_eq!(mapper.move_to_index(&pos, odd), None);
    assert_eq!(mapper.index_to_move(&pos, 4672), None);
    // north from the last rank leaves the board
    assert_eq!(mapper.index_to_move(&pos, 63), None);

    // black sees the board from the other end: e7e5 is two steps north from its e2
    let black = chess::Board::from_str("rnbqkbnr/pppppppp/8/8/4P3/8/PPPP1PPP/RNBQKBNR b KQkq e3 0 1").unwrap();
    let pos = position(&black);
    let e7e5 = ChessMove::new(at(6, 4), at(4, 4), None);
    assert_eq!(mapper.move_to_index(&pos, e7e5), Some(1 * 64 + 12));
    assert_eq!(mapper.index_to_move(&pos, 1 * 64 + 12), Some(e7e5));
}

#[test]
fn chess_planes_and_channels() {
    for channel in 0..73 {
        let classified = ClassifiedPovMove::from_channel(channel);
        assert_eq!(classified.to_channel(), channel);
    }
    assert_eq!(ClassifiedPovMove::from_channel(0), ClassifiedPovMove::Queen { direction: 0, distance_m1: 0 });
    assert_eq!(ClassifiedPovMove::from_channel(55), ClassifiedPovMove::Queen { direction: 7, distance_m1: 6 });
    assert_eq!(ClassifiedPovMove::from_channel(56), ClassifiedPovMove::Knight { direction: 0 });
    assert_eq!(ClassifiedPovMove::from_channel(64), ClassifiedPovMove::UnderPromotion { direction: 0, piece: 0 });
    assert_eq!(ClassifiedPovMove::from_channel(72), ClassifiedPovMove::UnderPromotion { direction: 2, piece: 2 });

    let a7 = Square::make_square(6, 0);
    let a8 = Square::make_square(7, 0);
    let b8 = Square::make_square(7, 1);
    // a pawn that steps onto the last rank becomes a queen, another piece stays what it is
    let north = ClassifiedPovMove::Queen { direction: 0, distance_m1: 0 };
    assert_eq!(north.to_move(true, a7), Some(ChessMove::new(a7, a8, Some(Piece::Queen))));
    assert_eq!(north.to_move(false, a7), Some(ChessMove::new(a7, a8, None)));
    let under = ClassifiedPovMove::UnderPromotion { direction: 2, piece: 1 };
    assert_eq!(under.to_move(true, a7), Some(ChessMove::new(a7, b8, Some(Piece::Bishop))));
    let left = ClassifiedPovMove::UnderPromotion { direction: 0, piece: 0 };
    assert_eq!(left.to_move(true, a7), None);
    assert_eq!(
        ClassifiedPovMove::from_move(ChessMove::new(a7, b8, Some(Piece::Knight))),
        ClassifiedPovMove::UnderPromotion { direction: 2, piece: 2 }
    );
}

#[test]
fn chess_input_planes() {
    let mapper = ChessStdMapper;
    assert_eq!(mapper.input_shape(), [21, 8, 8]);

    // white has just played e2e4, and the black pawn on d4 may take it in passing
    let board = chess::Board::from_str("rnbqkbnr/ppp1pppp/8/8/3pP3/8/PPPP1PPP/RNBQKBNR b KQkq e3 0 2").unwrap();
    let mut pos = position(&board);
    assert!(pos.en_passant.is_some());
    pos.repetitions = 3;
    pos.game_length = 1;
    pos.non_pawn_or_capture_moves = 5;

    let mut input = vec![7u32];
    mapper.append_board_to(&mut input, &pos);
    assert_eq!(input.len(), 1 + 21 * 64);
    assert_eq!(input[0], 7);
    let plane = |p: usize| &input[1 + p * 64..1 + (p + 1) * 64];

    // black is to move and sees its own pawns on its second rank, one of them gone ahead
    let mut own_pawns = [0u32; 64];
    own_pawns[8..16].fill(1);
    own_pawns[8 + 3] = 0;
    own_pawns[4 * 8 + 3] = 1;
    assert_eq!(plane(0), &own_pawns[..]);
    // the pawns of white: seven on the seventh rank, one on the fifth
    let mut their_pawns = [0u32; 64];
    their_pawns[48..56].fill(1);
    their_pawns[48 + 4] = 0;
    their_pawns[4 * 8 + 4] = 1;
    assert_eq!(plane(6), &their_pawns[..]);
    // the own king stands on e8, the fifth square of the first row
    assert_eq!(plane(5).iter().sum::<u32>(), 1);
    assert_eq!(plane(5)[4], 1);
    // one square is marked for taking in passing
    assert_eq!(plane(12).iter().sum::<u32>(), 1);
    let marked = pos.en_passant.unwrap();
    assert_eq!(plane(12)[(7 - marked.get_rank()) * 8 + marked.get_file()], 1);
    for p in 13..17 {
        assert!(plane(p).iter().all(|&v| v == 1));
    }
    assert!(plane(17).iter().all(|&v| v == 1));
    assert!(plane(18).iter().all(|&v| v == 1));
    assert!(plane(19).iter().all(|&v| v == 1));
    assert!(plane(20).iter().all(|&v| v == 5));
}
