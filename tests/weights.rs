use shut_the_box::{
    compute, get_boards, play_games, reduce, update_weights, BoardRoll, Choice, DiceRoll, Games,
    Result, Weight, WeightTable,
};

fn slot(table: &WeightTable, board: usize, roll: usize, successor: usize) -> usize {
    (board * 11 + roll - 2) * table.stride + successor
}

#[test]
fn weights_count_and_average() {
    let mut weight = Weight { total: 1000, used: 1 };
    weight.inc(500);
    weight.inc(0);
    assert_eq!(weight.total, 1500);
    assert_eq!(weight.used, 3);
    assert_eq!(weight.calculate(), 500);
    weight.combine(&Weight { total: 2500, used: 3 });
    assert_eq!(weight.total, 4000);
    assert_eq!(weight.used, 6);
    assert_eq!(weight.calculate(), 666);
}

#[test]
fn an_empty_table_leaves_room_for_every_move() {
    let boards = get_boards();
    let table = WeightTable::new(&boards);
    assert_eq!(table.weights.len(), 5632 * table.stride);
    assert!(boards.iter().all(|b| b.rolls.iter().all(|r| r.boards.len() <= table.stride)));
    assert!(table.weights.iter().all(|w| w.used == 0 && w.total == 0));
    assert!(reduce(&boards, &table).is_empty());
}

#[test]
fn a_game_adds_its_score_to_the_choices_it_made() {
    let boards = get_boards();
    let mut table = WeightTable::new(&boards);
    let roll = &boards[511].rolls[1];
    let next = roll.boards[0];
    let moves = vec![
        Choice { root_board: 511, roll: 3, chosen_board: Some(next) },
        Choice { root_board: next, roll: 2, chosen_board: None },
    ];
    update_weights(&boards, Games::new(moves.clone(), Result::WIN), 1000, &mut table);
    update_weights(&boards, Games::new(moves, Result::DRAW), 500, &mut table);
    let weight = table.weights[slot(&table, 511, 3, 0)];
    assert_eq!((weight.total, weight.used), (1500, 2));
    let touched = table.weights.iter().filter(|w| w.used > 0).count();
    assert_eq!(touched, 1);
    let best = reduce(&boards, &table);
    assert_eq!(best, vec![(BoardRoll::new(511, DiceRoll::from_sum(3)), next)]);
}

#[test]
fn reduction_keeps_the_highest_average_and_the_first_on_ties() {
    let boards = get_boards();
    let mut table = WeightTable::new(&boards);
    let candidates = &boards[511].rolls[10].boards;
    let at = |s: usize| slot(&table, 511, 12, s);
    let (a, b, c) = (at(1), at(3), at(5));
    table.weights[a] = Weight { total: 700, used: 1 };
    table.weights[b] = Weight { total: 1800, used: 2 };
    table.weights[c] = Weight { total: 900, used: 1 };
    let best = reduce(&boards, &table);
    assert_eq!(best, vec![(BoardRoll::new(511, DiceRoll::from_sum(12)), candidates[3])]);
    let first = reduce(&boards, &table);
    let second = reduce(&boards, &table);
    assert_eq!(first, second);
}

#[test]
fn reduction_of_fixed_weights_is_repeatable() {
    let boards = get_boards();
    let mut table = WeightTable::new(&boards);
    for (index, weight) in table.weights.iter_mut().enumerate() {
        if index % 7 == 0 {
            *weight = Weight { total: (index % 1000) as u64, used: 1 };
        }
    }
    let first = reduce(&boards, &table);
    let second = reduce(&boards, &table);
    assert_eq!(first, second);
    assert!(!first.is_empty());
}

#[test]
fn played_games_fill_the_table_within_bounds() {
    let boards = get_boards();
    let table = play_games(&boards, 100);
    assert!(table.weights.iter().all(|w| w.used <= 2000 && w.total <= 1000 * w.used));
    assert!(table.weights.iter().any(|w| w.used > 0));
}

#[test]
fn computed_table_maps_keys_to_moves() {
    let boards = get_boards();
    let best = compute(2, 300);
    assert!(!best.is_empty());
    let mut last_rank = None;
    for (key, next) in &best {
        assert!(key.board < 512);
        assert!(key.roll.is_valid());
        let roll = &boards[key.board as usize].rolls[key.roll.get_value() as usize - 2];
        assert!(roll.boards.contains(next));
        let rank = key.board as u32 * 11 + key.roll.get_value() as u32;
        assert!(last_rank.map_or(true, |last| last < rank));
        last_rank = Some(rank);
    }
}
