use alpha_zero::board::{Board, Coord, Player, Symmetry};
use rand::rngs::SmallRng;
use rand::seq::SliceRandom;
use rand::SeedableRng;

fn random_board_with_moves(n: u32, rng: &mut SmallRng) -> Board {
    'retry: loop {
        let mut board = Board::new();
        for _ in 0..n {
            match board.random_available_move(rng) {
                Some(mv) => {
                    board.play(mv);
                }
                None => continue 'retry,
            }
        }
        return board;
    }
}

#[test]
fn test_random_distribution() {
    let mut board = Board::new();
    let mut rand = SmallRng::seed_from_u64(0);

    while !board.is_done() {
        let moves: Vec<Coord> = board.available_moves();

        let mut counts: [i32; 81] = [0; 81];
        for _ in 0..1_000_000 {
            counts[board.random_available_move(&mut rand).unwrap().o() as usize] += 1;
        }

        let avg = (1_000_000 / moves.len()) as i32;

        for (mv, &count) in counts.iter().enumerate() {
            if moves.contains(&Coord::from_o(mv as u8)) {
                assert!((count.wrapping_sub(avg)).abs() < 10_000, "uniformly distributed")
            } else {
                assert_eq!(count, 0, "only actual moves returned")
            }
        }

        let mv = moves.choose(&mut rand).unwrap().o();
        board.play(Coord::from_o(mv as u8));
    }
}

#[test]
fn symmetries() {
    let mut rng = SmallRng::seed_from_u64(5);
    let board = random_board_with_moves(10, &mut rng);
    println!("Original:\n{}", board.to_text());

    for i in 0..8 {
        let sym = Symmetry {
            transpose: i & 0b001 != 0,
            flip_x: i & 0b010 != 0,
            flip_y: i & 0b100 != 0,
        };
        let sym_inv = sym.inverse();

        println!("{:?}", sym);
        println!("inverse: {:?}", sym_inv);

        let mapped = board.map_symmetry(sym);
        let back = mapped.map_symmetry(sym_inv);

        println!("Mapped:\n{}", mapped.to_text());
        println!("Back:\n{}", back.to_text());

        if i == 0 {
            assert_eq!(board, mapped);
        }
        assert_eq!(board, back);

        let mut expected_moves: Vec<Coord> =
            board.available_moves().into_iter().map(|c| sym.map_coord(c)).collect();
        expected_moves.sort_by_key(|c| c.o());
        let mut actual_moves = mapped.available_moves();
        actual_moves.sort_by_key(|c| c.o());
        assert_eq!(expected_moves, actual_moves);
    }
}

#[test]
fn symmetry_keeps_won_grids() {
    // O takes the top row of the middle small grid, so the main grid is not empty
    let mut board = Board::new();
    let mut won = false;
    for o in [40u8, 36, 4, 37, 13, 38] {
        assert!(board.is_available_move(Coord::from_o(o)), "tile {} is free to move to", o);
        won = board.play(Coord::from_o(o));
    }
    assert!(won);
    assert_eq!(board.macr(4), Player::O);
    assert!(!board.is_done());
    for sym in Symmetry::all() {
        let mapped = board.map_symmetry(sym);
        assert_eq!(mapped.macr(sym.map_oo(4)), Player::O);
        assert_eq!(mapped.map_symmetry(sym.inverse()), board);
    }
}

#[test]
fn the_identity_leaves_the_board_as_it_is() {
    let mut rng = SmallRng::seed_from_u64(7);
    for moves in [0, 1, 5, 20, 40] {
        let board = random_board_with_moves(moves, &mut rng);
        assert_eq!(board.map_symmetry(Symmetry::default()), board);
        for sym in Symmetry::all() {
            assert_eq!(board.map_symmetry(sym).map_symmetry(sym.inverse()), board);
        }
    }
}

#[test]
fn two_moves_from_the_empty_board() {
    let board = Board::new()
        .clone_and_play(Coord::from_oo(4, 4))
        .clone_and_play(Coord::from_oo(4, 0));
    assert_eq!(board.tile(Coord::from_oo(4, 4)), Player::X);
    assert_eq!(board.tile(Coord::from_oo(4, 0)), Player::O);
    assert_eq!(board.tile(Coord::from_oo(0, 0)), Player::Neutral);
    assert_eq!(board.count_tiles(), 2);
    // the second move went to place 0, so the next one goes to small grid 0
    assert!(board.is_available_move(Coord::from_oo(0, 3)));
    assert!(!board.is_available_move(Coord::from_oo(4, 1)));
    assert!(!board.is_available_move(Coord::from_oo(1, 0)));
}

#[test]
fn a_move_that_wins_a_small_grid() {
    // X takes places 0, 1 and 2 of small grid 0; O answers in the small grids that X points to
    let mut board = Board::new();
    assert!(!board.play(Coord::from_oo(0, 0)));
    assert!(!board.play(Coord::from_oo(0, 4)));
    assert!(!board.play(Coord::from_oo(4, 0)));
    assert!(!board.play(Coord::from_oo(0, 8)));
    assert!(!board.play(Coord::from_oo(8, 0)));
    assert!(!board.play(Coord::from_oo(0, 5)));
    assert!(!board.play(Coord::from_oo(5, 0)));
    // O takes the row 3, 4, 5 of small grid 0
    assert!(board.play(Coord::from_oo(0, 3)));
    assert_eq!(board.macr(0), Player::O);
    assert_eq!(board.won_by, None);
    assert_eq!(board.count_tiles(), 8);
    // small grid 3 is open, so the next move goes there and nowhere else
    assert!(board.is_available_move(Coord::from_oo(3, 3)));
    assert!(!board.is_available_move(Coord::from_oo(4, 4)));
    assert!(!board.is_available_move(Coord::from_oo(0, 1)));
}
