use fastrand::Rng;
use shut_the_box::{get_boards, run_game, score_pair, simulate, Choice, Games, Result};

fn value_of(board: u16) -> u8 {
    (0..9u8).filter(|i| board >> i & 1 == 1).map(|i| i + 1).sum()
}

fn check_game(boards: &[shut_the_box::Board], start: u16, moves: &[Choice]) {
    assert!(!moves.is_empty());
    assert!(moves.len() <= 10);
    assert!(moves.len() <= start.count_ones() as usize + 1);
    assert_eq!(moves[0].root_board, start);
    for (index, choice) in moves.iter().enumerate() {
        assert!((2..=12).contains(&choice.roll));
        let roll = &boards[choice.root_board as usize].rolls[choice.roll as usize - 2];
        if index + 1 < moves.len() {
            let next = choice.chosen_board.unwrap();
            assert_eq!(next, moves[index + 1].root_board);
            assert!(roll.boards.contains(&next));
            assert!(!choice.is_dying_choice());
        } else {
            assert!(choice.is_dying_choice());
            assert!(roll.boards.is_empty());
        }
    }
}

#[test]
fn lower_residual_wins() {
    assert_eq!(score_pair(3, 10), (Result::WIN, Result::LOSS));
    assert_eq!(score_pair(10, 3), (Result::LOSS, Result::WIN));
    assert_eq!(score_pair(5, 5), (Result::DRAW, Result::DRAW));
    assert_eq!(score_pair(0, 45), (Result::WIN, Result::LOSS));
}

#[test]
fn outcome_points() {
    assert_eq!(Result::WIN.points(), 1000);
    assert_eq!(Result::DRAW.points(), 500);
    assert_eq!(Result::LOSS.points(), 0);
}

#[test]
fn games_end_within_nine_moves_on_their_residual_value() {
    let boards = get_boards();
    for seed in 0..300u64 {
        let start = (seed * 37 % 512) as usize;
        let mut roll_rng = Rng::with_seed(seed);
        let mut board_rng = Rng::with_seed(seed + 1000);
        let (value, moves) = simulate(&boards, &boards[start], &mut roll_rng, &mut board_rng);
        check_game(&boards, start as u16, &moves);
        assert_eq!(value, value_of(moves.last().unwrap().root_board));
    }
}

#[test]
fn an_empty_board_ends_at_once() {
    let boards = get_boards();
    let mut roll_rng = Rng::with_seed(1);
    let mut board_rng = Rng::with_seed(2);
    let (value, moves) = simulate(&boards, &boards[0], &mut roll_rng, &mut board_rng);
    assert_eq!(value, 0);
    assert_eq!(moves.len(), 1);
    assert_eq!(moves[0].root_board, 0);
    assert_eq!(moves[0].chosen_board, None);
}

#[test]
fn same_seeds_replay_the_same_game() {
    let boards = get_boards();
    let play = |seed: u64| {
        let mut roll_rng = Rng::with_seed(seed);
        let mut board_rng = Rng::with_seed(seed ^ 0xabcdef);
        simulate(&boards, &boards[511], &mut roll_rng, &mut board_rng)
    };
    for seed in 0..50 {
        assert_eq!(play(seed), play(seed));
    }
}

#[test]
fn paired_games_are_scored_against_each_other() {
    let boards = get_boards();
    for _ in 0..200 {
        let (first, second): (Games, Games) = run_game(&boards, &boards[511]);
        check_game(&boards, 511, &first.moves);
        check_game(&boards, 511, &second.moves);
        let first_value = value_of(first.moves.last().unwrap().root_board);
        let second_value = value_of(second.moves.last().unwrap().root_board);
        assert_eq!((first.result, second.result), score_pair(first_value, second_value));
    }
}

#[test]
fn choices_record_the_chosen_board() {
    let mut choice = Choice { root_board: 511, roll: 3, chosen_board: None };
    assert!(choice.is_dying_choice());
    choice.set_chosen_board(0b111111100);
    assert_eq!(choice.chosen_board, Some(0b111111100));
    assert_eq!(choice.root_board, 511);
    assert!(!choice.is_dying_choice());
    let games = Games::new(vec![choice], Result::DRAW);
    assert_eq!(games.moves, vec![choice]);
    assert_eq!(games.result, Result::DRAW);
}
