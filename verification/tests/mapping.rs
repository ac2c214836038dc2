use alpha_zero::board::{
    board_from_compact_string, board_to_compact_string, compact_grid, get_nth_set_bit, get_player,
    has_bit, has_mask,
    is_win_grid, symbol_from_tile, symbol_to_tile, BitIter, Board, BoardMoveIterator, Coord, Player,
    Symmetry,
};
use alpha_zero::mapping::glue::{
    encode_batch, extract_policy, input_full_shape, input_full_size, PolicyError,
};
use alpha_zero::mapping::mapper::{InputMapper, PolicyMapper};
use alpha_zero::mapping::sttt::STTTStdMapper;
use alpha_zero::mapping::ttt::{TTTPosition, TTTStdMapper};
use alpha_zero::zero::game::{GameBoard, Outcome};

fn played(moves: &[u8]) -> Board {
    let mut board = Board::new();
    for &o in moves {
        assert!(board.is_available_move(Coord::from_o(o)));
        board.play(Coord::from_o(o));
    }
    board
}

#[test]
fn coords() {
    assert_eq!(Coord::all().len(), 81);
    assert_eq!(Coord::all()[40].o(), 40);
    let c = Coord::from_oo(4, 5);
    assert_eq!((c.om(), c.os(), c.o()), (4, 5, 41));
    assert_eq!((c.x(), c.y(), c.yx()), (5, 4, 41));
    let c = Coord::from_xy(7, 2);
    assert_eq!((c.om(), c.os(), c.o()), (2, 7, 25));
    assert_eq!((c.x(), c.y(), c.yx()), (7, 2, 25));
    let row_by_row = Coord::all_yx();
    assert_eq!(row_by_row[3].o(), 9);
    assert_eq!(row_by_row[3], Coord::from_xy(3, 0));
    for (i, c) in row_by_row.iter().enumerate() {
        assert_eq!(c.yx() as usize, i);
    }
    assert!(Coord::from_o(3).same(Coord::from_oo(0, 3)));
    assert!(!Coord::from_o(3).same(Coord::from_o(4)));
}

#[test]
fn players() {
    assert_eq!(Player::X.other(), Player::O);
    assert_eq!(Player::O.other(), Player::X);
    assert_eq!(Player::Neutral.other(), Player::Neutral);
    assert_eq!(Player::X.index(), 0);
    assert_eq!(Player::O.index(), 1);
}

#[test]
fn symmetry_of_places() {
    let all = Symmetry::all();
    assert_eq!(all.len(), 8);
    assert_eq!(all[0], Symmetry::default());
    assert_eq!(all[5], Symmetry { transpose: true, flip_x: false, flip_y: true });
    for sym in all {
        let inv = sym.inverse();
        for oo in 0..9 {
            assert_eq!(inv.map_oo(sym.map_oo(oo)), oo);
        }
        for c in Coord::all() {
            assert_eq!(inv.map_coord(sym.map_coord(c)), c);
        }
        assert_eq!(sym.map_grid(0), 0);
        assert_eq!(inv.map_grid(sym.map_grid(0b101_000_011_010_000_100)), 0b101_000_011_010_000_100);
    }
    // a quarter turn: transpose, then flip x
    let turn = Symmetry { transpose: true, flip_x: true, flip_y: false };
    assert_eq!(turn.map_oo(0), 2);
    assert_eq!(turn.map_oo(1), 5);
    assert_eq!(turn.map_oo(4), 4);
    assert_eq!(turn.inverse(), Symmetry { transpose: true, flip_x: false, flip_y: true });
    assert_eq!(turn.map_coord(Coord::from_oo(0, 1)), Coord::from_oo(2, 5));
    // the tile of X in place 0 and the tile of O in place 1
    assert_eq!(turn.map_grid(0b000_000_010_000_000_001), 0b000_100_000_000_000_100);
}

#[test]
fn bits() {
    assert!(has_bit(0b100, 2));
    assert!(!has_bit(0b100, 1));
    assert!(has_bit(u32::MAX, 31));
    assert!(has_mask(0b1101, 0b0101));
    assert!(!has_mask(0b1101, 0b0111));
    assert_eq!(compact_grid(0b000_000_010_000_000_001), 0b011);
    assert_eq!(compact_grid(u32::MAX), 511);
    assert_eq!(get_player(0b000_000_010_000_000_001, 0), Player::X);
    assert_eq!(get_player(0b000_000_010_000_000_001, 1), Player::O);
    assert_eq!(get_player(0b000_000_010_000_000_001, 2), Player::Neutral);

    let lines = [0b000_000_111, 0b000_111_000, 0b111_000_000, 0b001_001_001, 0b010_010_010, 0b100_100_100, 0b100_010_001, 0b001_010_100];
    for grid in 0..512u32 {
        let expected = lines.iter().any(|&line| grid & line == line);
        assert_eq!(is_win_grid(grid), expected, "{:09b}", grid);
    }

    let mut it = BitIter::of(0b1010_0001);
    assert_eq!(it.next(), Some(0));
    assert_eq!(it.next(), Some(5));
    assert_eq!(it.next(), Some(7));
    assert_eq!(it.next(), None);
    assert_eq!(it.next(), None);
    assert_eq!(BitIter::of(1 << 31).next(), Some(31));

    assert_eq!(get_nth_set_bit(0b1010_0001, 0), 0);
    assert_eq!(get_nth_set_bit(0b1010_0001, 1), 5);
    assert_eq!(get_nth_set_bit(0b1010_0001, 2), 7);
    assert_eq!(get_nth_set_bit(0b1010_0001, 3), 32);
    assert_eq!(get_nth_set_bit(0, 0), 32);
    assert_eq!(get_nth_set_bit(u32::MAX, 31), 31);
    assert_eq!(get_nth_set_bit(u32::MAX, 32), 32);
}

#[test]
fn moves_of_the_board() {
    let board = Board::new();
    assert_eq!(board.available_moves(), Coord::all());
    assert_eq!(board.count_tiles(), 0);
    assert!(!board.is_done());

    // after a move into place 4 the answer has to go into small grid 4
    let board = played(&[4]);
    assert_eq!(board.tile(Coord::from_o(4)), Player::X);
    assert_eq!(board.last_move, Some(Coord::from_o(4)));
    assert_eq!(board.next_player, Player::O);
    assert_eq!(board.player_to_move(), Player::O);
    let moves: Vec<u8> = board.available_moves().iter().map(|c| c.o()).collect();
    assert_eq!(moves, (36..45).collect::<Vec<u8>>());
    assert_eq!(board.nth_available_move(0), Some(Coord::from_o(36)));
    assert_eq!(board.nth_available_move(8), Some(Coord::from_o(44)));
    assert_eq!(board.nth_available_move(9), None);

    let board = played(&[4, 36]);
    let moves: Vec<u8> = board.available_moves().iter().map(|c| c.o()).collect();
    assert_eq!(moves, vec![0, 1, 2, 3, 5, 6, 7, 8]);
    assert_eq!(board.count_tiles(), 2);
    assert_eq!(board.clone_and_play(Coord::from_o(8)), played(&[4, 36, 8]));

    let mut it = BoardMoveIterator::new(&board);
    let mut listed = vec![];
    while let Some(c) = it.next() {
        listed.push(c.o());
    }
    assert_eq!(listed, moves);
    assert_eq!(BoardMoveIterator::empty(&board).next(), None);
}

#[test]
fn a_won_grid_is_closed() {
    // O takes the top row of the middle small grid
    let board = played(&[40, 36, 4, 37, 13, 38]);
    assert_eq!(board.macr(4), Player::O);
    assert_eq!(board.macr(0), Player::Neutral);
    // the move went to place 2, so X has to answer in small grid 2
    let moves: Vec<u8> = board.available_moves().iter().map(|c| c.o()).collect();
    assert_eq!(moves, (18..27).collect::<Vec<u8>>());
    // a move into place 4 would send O to the closed grid: O may go anywhere that is open
    let board = board.clone_and_play(Coord::from_o(22));
    let moves = board.available_moves();
    assert_eq!(moves.len(), 81 - 9 - 3);
    assert!(moves.iter().all(|c| c.om() != 4));
    assert!(!board.is_available_move(Coord::from_o(39)));
}

#[test]
fn a_game_to_its_end() {
    // a game played by the first move every time comes to an end
    let mut board = Board::new();
    let mut count = 0;
    while !board.is_done() {
        let mv = board.available_moves()[0];
        assert!(board.is_available_move(mv));
        assert_eq!(board.tile(mv), Player::Neutral);
        let mover = board.player_to_move();
        board.play(mv);
        assert_eq!(board.tile(mv), mover);
        assert_eq!(board.last_move, Some(mv));
        count += 1;
        assert_eq!(board.count_tiles(), count);
        assert!(count <= 81);
    }
    assert!(board.available_moves().is_empty());
    assert_eq!(board.random_available_move(&mut rand::thread_rng()), None);
    let outcome = GameBoard::outcome(&board).unwrap();
    match board.won_by {
        Some(Player::Neutral) => assert_eq!(outcome, Outcome::Draw),
        Some(winner) => {
            assert_eq!(outcome, Outcome::WonBy(winner));
            // the winner holds three small grids in a row
            let held: Vec<u8> = (0..9).filter(|&om| board.macr(om) == winner).collect();
            let lines: [[u8; 3]; 8] = [[0, 1, 2], [3, 4, 5], [6, 7, 8], [0, 3, 6], [1, 4, 7], [2, 5, 8], [0, 4, 8], [2, 4, 6]];
            assert!(lines.iter().any(|line| line.iter().all(|om| held.contains(om))));
        }
        None => panic!("the game is over"),
    }
}

#[test]
fn boards_as_text() {
    let board = played(&[4, 36]);
    let text = board_to_compact_string(&board);
    assert_eq!(text.chars().count(), 81);
    let mut expected: Vec<char> = vec![' '; 81];
    assert_eq!(board.available_moves().len(), 8);
    for o in 0..9 {
        expected[o] = '.';
    }
    expected[4] = 'x';
    expected[36] = 'O';
    assert_eq!(text, expected.iter().collect::<String>());
    assert_eq!(symbol_from_tile(&board, Coord::from_o(36)), 'O');
    assert_eq!(symbol_from_tile(&board, Coord::from_o(4)), 'x');
    assert_eq!(symbol_from_tile(&board, Coord::from_o(0)), '.');
    assert_eq!(symbol_from_tile(&board, Coord::from_o(80)), ' ');

    assert_eq!(symbol_to_tile('X'), (false, false, Player::X));
    assert_eq!(symbol_to_tile('x'), (false, true, Player::X));
    assert_eq!(symbol_to_tile('O'), (false, false, Player::O));
    assert_eq!(symbol_to_tile('o'), (false, true, Player::O));
    assert_eq!(symbol_to_tile(' '), (false, false, Player::Neutral));
    assert_eq!(symbol_to_tile('.'), (true, false, Player::Neutral));

    // in the text that is read, the small letter marks the last move
    let mut text: Vec<char> = vec![' '; 81];
    text[4] = 'X';
    text[36] = 'o';
    let read = board_from_compact_string(&text.iter().collect::<String>());
    assert_eq!(read, board);
    let empty = board_from_compact_string(&" ".repeat(81));
    assert_eq!(empty, Board::new());

    let picture = board.to_text();
    let expected = [
        "...|   |   ",
        ".x.|   |   ",
        "...|   |   ",
        "---+---+---",
        "   |O  |   ",
        "   |   |   ",
        "   |   |   ",
        "---+---+---",
        "   |   |   ",
        "   |   |   ",
        "   |   |   ",
        "",
    ];
    assert_eq!(picture, expected.join("\n"));
}

#[test]
fn sttt_mapper() {
    let mapper = STTTStdMapper;
    assert_eq!(InputMapper::<Board, f32>::input_bool_shape(&mapper), [3, 9, 9]);
    assert_eq!(InputMapper::<Board, f32>::input_scalar_count(&mapper), 0);
    assert_eq!(mapper.policy_shape(), [1, 9, 9]);
    assert_eq!(mapper.policy_len(), 81);

    let board = played(&[4, 36]);
    let mut bools = vec![true];
    let mut scalars: Vec<f32> = vec![];
    mapper.encode_input(&mut bools, &mut scalars, &board);
    assert!(scalars.is_empty());
    assert_eq!(bools.len(), 1 + 243);
    let plane = |p: usize| &bools[1 + p * 81..1 + (p + 1) * 81];
    // X is to move
    assert_eq!(plane(0).iter().filter(|&&b| b).count(), 1);
    assert!(plane(0)[4]);
    assert_eq!(plane(1).iter().filter(|&&b| b).count(), 1);
    assert!(plane(1)[36]);
    let open: Vec<usize> = (0..81).filter(|&o| plane(2)[o]).collect();
    assert_eq!(open, vec![0, 1, 2, 3, 5, 6, 7, 8]);

    for c in Coord::all() {
        let index = mapper.move_to_index(&board, c).unwrap();
        assert_eq!(index, c.o() as usize);
        assert_eq!(mapper.index_to_move(&board, index), Some(c));
    }
    assert_eq!(mapper.index_to_move(&board, 81), None);
    assert_eq!(mapper.index_to_move(&board, 256), None);
}

#[test]
fn ttt_mapper() {
    let mapper = TTTStdMapper;
    assert_eq!(InputMapper::<TTTPosition, f32>::input_bool_shape(&mapper), [2, 3, 3]);
    assert_eq!(mapper.policy_shape(), [1, 3, 3]);
    assert_eq!(mapper.policy_len(), 9);
    assert_eq!(mapper.state_board_size(), 3);
    assert_eq!(mapper.encoded_move_shape(), [1, 3, 3]);

    let n = Player::Neutral;
    let board = TTTPosition {
        tiles: [Player::X, n, Player::O, n, Player::X, n, Player::O, n, n],
        next_player: Player::O,
    };
    let mut bools = vec![];
    let mut scalars: Vec<f32> = vec![0.5];
    mapper.encode_input(&mut bools, &mut scalars, &board);
    assert_eq!(scalars, vec![0.5]);
    let t = true;
    let f = false;
    assert_eq!(bools, vec![f, f, t, f, f, f, t, f, f, t, f, f, f, t, f, f, f, f]);

    let mut mv = vec![true];
    mapper.encode_mv(&mut mv, 7);
    assert_eq!(mv, vec![t, f, f, f, f, f, f, f, t, f]);

    for i in 0..9 {
        assert_eq!(mapper.move_to_index(&board, i), Some(i));
        assert_eq!(mapper.index_to_move(&board, i), Some(i));
    }
    assert_eq!(mapper.move_to_index(&board, 9), None);
    assert_eq!(mapper.index_to_move(&board, 9), None);
}

#[test]
fn batches_are_encoded_board_after_board() {
    let mapper = STTTStdMapper;
    let boards = vec![Board::new(), played(&[4]), played(&[4, 36])];
    let mut bools = vec![];
    let mut scalars: Vec<f32> = vec![];
    encode_batch(&mapper, &boards, &mut bools, &mut scalars);
    assert_eq!(bools.len(), 3 * 243);
    assert!(scalars.is_empty());
    for (i, board) in boards.iter().enumerate() {
        let mut single = vec![];
        mapper.encode_input(&mut single, &mut scalars, board);
        assert_eq!(&bools[i * 243..(i + 1) * 243], &single[..]);
    }
}

/// A mapper that has no entry for the tiles of the last small grid.
struct Narrow;

impl PolicyMapper<Board, Coord> for Narrow {
    fn policy_shape(&self) -> [usize; 3] {
        [1, 8, 9]
    }

    fn policy_len(&self) -> usize {
        72
    }

    fn move_to_index(&self, _: &Board, mv: Coord) -> Option<usize> {
        if mv.o() < 72 {
            Some(mv.o() as usize)
        } else {
            None
        }
    }

    fn index_to_move(&self, _: &Board, index: usize) -> Option<Coord> {
        if index < 72 {
            Some(Coord::from_o(index as u8))
        } else {
            None
        }
    }
}

#[test]
fn the_policy_of_the_moves_is_read_from_the_full_policy() {
    let mapper = STTTStdMapper;
    let board = played(&[4, 36]);
    let full: Vec<u32> = (0..81).map(|i| 100 + i).collect();
    assert_eq!(extract_policy(&mapper, &board, &full), Ok(vec![100, 101, 102, 103, 105, 106, 107, 108]));
    let short = vec![0u32; 80];
    assert_eq!(extract_policy(&mapper, &board, &short), Err(PolicyError::PolicyLength));

    let narrow: Vec<u32> = (0..72).collect();
    assert_eq!(extract_policy(&Narrow, &board, &narrow), Ok(vec![0, 1, 2, 3, 5, 6, 7, 8]));
    // the answer to a move into place 8 goes into the last small grid
    let last = played(&[8]);
    assert_eq!(extract_policy(&Narrow, &last, &narrow), Err(PolicyError::UnmappedMove));
}

/// A mapper whose input cannot be counted.
struct Huge(usize, usize);

impl InputMapper<Board, f32> for Huge {
    fn input_bool_shape(&self) -> [usize; 3] {
        [self.0, self.1, 2]
    }

    fn input_scalar_count(&self) -> usize {
        1
    }

    fn encode_input(&self, _: &mut Vec<bool>, _: &mut Vec<f32>, _: &Board) {}
}

#[test]
fn the_whole_input_of_a_board() {
    assert_eq!(input_full_shape::<Board, f32, _>(&STTTStdMapper), Some([3, 9, 9]));
    assert_eq!(input_full_size::<Board, f32, _>(&STTTStdMapper), Some(243));
    assert_eq!(input_full_shape::<TTTPosition, f32, _>(&TTTStdMapper), Some([2, 3, 3]));
    assert_eq!(input_full_size::<TTTPosition, f32, _>(&TTTStdMapper), Some(18));

    assert_eq!(input_full_shape(&Huge(4, 5)), Some([5, 5, 2]));
    assert_eq!(input_full_size(&Huge(4, 5)), Some(50));
    assert_eq!(input_full_shape(&Huge(usize::MAX, 5)), None);
    assert_eq!(input_full_size(&Huge(usize::MAX, 5)), None);
    assert_eq!(input_full_size(&Huge(usize::MAX, 0)), Some(0));
    assert_eq!(input_full_size(&Huge(usize::MAX - 1, 2)), None);
    assert_eq!(input_full_size(&Huge(usize::MAX / 2, 1)), None);
    assert_eq!(input_full_size(&Huge(usize::MAX / 2 - 1, 1)), Some(usize::MAX - 1));
}
