use shut_the_box::{get_board, get_boards, Board, Roll};

fn value_of(board: u16) -> u32 {
    (0..9).filter(|i| board >> i & 1 == 1).map(|i| i + 1).sum()
}

#[test]
fn pieces_one_and_two_with_roll_three_leave_an_empty_board() {
    let roll = Roll::new(3, 0b000000011);
    assert_eq!(roll.roll_value, 3);
    assert_eq!(roll.boards, vec![0]);
}

#[test]
fn every_listed_move_clears_alive_pieces_adding_up_to_the_roll() {
    let boards = get_boards();
    assert_eq!(boards.len(), 512);
    for (index, board) in boards.iter().enumerate() {
        assert_eq!(board.get_raw() as usize, index);
        assert_eq!(board.rolls.len(), 11);
        for (roll_index, roll) in board.rolls.iter().enumerate() {
            assert_eq!(roll.roll_value as usize, roll_index + 2);
            for &next in &roll.boards {
                assert_eq!(next & !board.get_raw(), 0);
                assert_ne!(next, board.get_raw());
                assert_eq!(
                    value_of(board.get_raw()) - value_of(next),
                    roll.roll_value as u32
                );
            }
        }
    }
}

#[test]
fn every_move_is_listed_once() {
    for board in [0u16, 1, 0b11, 0b10110, 0b101010101, 511] {
        for roll_value in 2u8..13 {
            let roll = Roll::new(roll_value, board);
            let mut expected: Vec<u16> = (0..512u16)
                .filter(|&next| next & !board == 0 && next != board)
                .filter(|&next| value_of(board) - value_of(next) == roll_value as u32)
                .collect();
            let mut listed = roll.boards.clone();
            listed.sort();
            expected.sort();
            assert_eq!(listed, expected);
        }
    }
}

#[test]
fn no_roll_lists_its_own_board() {
    let boards = get_boards();
    for board in &boards {
        for roll in &board.rolls {
            assert!(!roll.boards.contains(&board.get_raw()));
        }
    }
}

#[test]
fn full_board_has_twelve_ways_to_make_twelve() {
    let board = Board::new(511);
    assert_eq!(board.rolls[10].roll_value, 12);
    assert_eq!(board.rolls[10].boards.len(), 12);
    assert_eq!(board.rolls[0].boards, vec![0b111111101]);
}

#[test]
fn a_lone_piece_one_has_no_move() {
    let board = Board::new(0b1);
    for roll in &board.rolls {
        assert!(roll.boards.is_empty());
    }
}

#[test]
fn board_values() {
    assert_eq!(Board::new(511).calculate_value(), 45);
    assert_eq!(Board::new(0b101).calculate_value(), 4);
    assert_eq!(Board::new(0b100000000).calculate_value(), 9);
    assert_eq!(Board::new(0).calculate_value(), 0);
}

#[test]
fn get_board_looks_up_by_bits() {
    let boards = get_boards();
    assert_eq!(get_board(&boards, 37).map(|b| b.get_raw()), Some(37));
    assert_eq!(get_board(&boards, 511).map(|b| b.get_raw()), Some(511));
    assert!(get_board(&boards, 512).is_none());
}

#[test]
fn draws_map_to_the_sum_of_two_dice() {
    let board = Board::new(511);
    assert_eq!(board.roll_for_draw(0).roll_value, 2);
    assert_eq!(board.roll_for_draw(5).roll_value, 7);
    assert_eq!(board.roll_for_draw(30).roll_value, 7);
    assert_eq!(board.roll_for_draw(35).roll_value, 12);
    let mut counts = [0u32; 11];
    for draw in 0..36 {
        counts[board.roll_for_draw(draw).roll_value as usize - 2] += 1;
    }
    assert_eq!(counts, [1, 2, 3, 4, 5, 6, 5, 4, 3, 2, 1]);
}

#[test]
fn sampled_rolls_follow_dice_frequencies() {
    let board = Board::new(511);
    let mut rng = fastrand::Rng::with_seed(7);
    let draws = 360_000u32;
    let mut counts = [0u32; 11];
    for _ in 0..draws {
        counts[board.get_rand_roll(&mut rng).roll_value as usize - 2] += 1;
    }
    let frequencies = [1u32, 2, 3, 4, 5, 6, 5, 4, 3, 2, 1];
    for (count, frequency) in counts.iter().zip(frequencies) {
        let expected = (draws / 36 * frequency) as f64;
        assert!(((*count as f64) - expected).abs() < expected * 0.05);
    }
}

#[test]
fn random_board_picks_stay_on_their_rolls() {
    let roll = Roll::new(12, 511);
    let mut rng = fastrand::Rng::with_seed(3);
    for _ in 0..200 {
        let next = roll.get_rand_board(&mut rng).unwrap();
        assert!(roll.boards.contains(&next));
    }
    let empty = Roll::new(3, 0b10);
    assert_eq!(empty.get_rand_board(&mut rng), None);
}
