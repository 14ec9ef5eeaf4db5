use shut_the_box::{get_rolls, BoardRoll, BoardRollError, DiceRoll};

#[test]
fn board_roll_text_round_trip() {
    let board_roll = BoardRoll::new(37, DiceRoll(9));
    let text = board_roll.to_text();
    assert_eq!(text, "37-9");
    assert_eq!(BoardRoll::parse(&text), Ok(BoardRoll::new(37, DiceRoll(9))));
}

#[test]
fn round_trip_over_every_valid_key() {
    for board in [0u16, 1, 255, 511] {
        for byte in 0..=255u8 {
            let board_roll = BoardRoll::new(board, DiceRoll(byte));
            if board_roll.roll.is_valid() {
                assert_eq!(BoardRoll::parse(&board_roll.to_text()), Ok(board_roll));
            }
        }
    }
}

#[test]
fn board_above_511_is_rejected() {
    assert_eq!(BoardRoll::parse("512-5"), Err(BoardRollError::BoardOutOfRange));
}

#[test]
fn roll_adding_up_to_less_than_two_is_rejected() {
    assert_eq!(BoardRoll::parse("10-1"), Err(BoardRollError::RollOutOfRange));
    assert_eq!(BoardRoll::parse("10-0"), Err(BoardRollError::RollOutOfRange));
}

#[test]
fn non_numeric_board_is_rejected() {
    assert_eq!(BoardRoll::parse("notanumber-5"), Err(BoardRollError::InvalidBoard));
    assert_eq!(BoardRoll::parse("-5"), Err(BoardRollError::InvalidBoard));
    assert_eq!(BoardRoll::parse("70000-9"), Err(BoardRollError::InvalidBoard));
}

#[test]
fn text_without_dash_is_rejected() {
    assert_eq!(BoardRoll::parse("12"), Err(BoardRollError::MissingDash));
    assert_eq!(BoardRoll::parse(""), Err(BoardRollError::MissingDash));
}

#[test]
fn non_numeric_roll_is_rejected() {
    assert_eq!(BoardRoll::parse("1-x"), Err(BoardRollError::InvalidRoll));
    assert_eq!(BoardRoll::parse("1-"), Err(BoardRollError::InvalidRoll));
    assert_eq!(BoardRoll::parse("1-300"), Err(BoardRollError::InvalidRoll));
    assert_eq!(BoardRoll::parse("1-é"), Err(BoardRollError::InvalidRoll));
}

#[test]
fn text_splits_at_the_last_dash() {
    assert_eq!(BoardRoll::parse("1-2-9"), Err(BoardRollError::InvalidBoard));
}

#[test]
fn numerals_read_as_integer_parsing_does() {
    assert_eq!(BoardRoll::parse("+5-+9"), Ok(BoardRoll::new(5, DiceRoll(9))));
    assert_eq!(BoardRoll::parse("0005-009"), Ok(BoardRoll::new(5, DiceRoll(9))));
    assert_eq!(BoardRoll::parse(" 5-9"), Err(BoardRollError::InvalidBoard));
}

#[test]
fn roll_with_dice_above_twelve_is_rejected() {
    // First die 7 and second die 7 add up to 14.
    let byte = DiceRoll::new_dual(7, 7).0;
    let text = format!("3-{}", byte);
    assert_eq!(BoardRoll::parse(&text), Err(BoardRollError::RollOutOfRange));
}

#[test]
fn errors_have_messages() {
    assert_eq!(BoardRollError::MissingDash.message(), "invalid string for a board roll");
    assert_eq!(BoardRollError::BoardOutOfRange.message(), "board cannot have a value above 511");
}

#[test]
fn dice_are_packed_in_one_byte() {
    assert_eq!(DiceRoll::new_dual(6, 6).0, 0b11001100);
    assert_eq!(DiceRoll::new_dual(6, 6).get_value(), 12);
    assert_eq!(DiceRoll::new_dual(1, 1).get_value(), 2);
    assert_eq!(DiceRoll::new(3, 4), DiceRoll::new_dual(3, 4));
    assert_eq!(DiceRoll::new_single(1).0, 0b00100000);
    assert_eq!(DiceRoll::new_single(1).get_value(), 1);
    assert!(!DiceRoll::new_single(1).is_valid());
    assert!(DiceRoll::new_dual(1, 1).is_valid());
    assert!(!DiceRoll(0).is_valid());
}

#[test]
fn dice_for_each_sum() {
    assert_eq!(DiceRoll::from_sum(1), DiceRoll::new_single(1));
    assert_eq!(DiceRoll::from_sum(2), DiceRoll::new_dual(1, 1));
    assert_eq!(DiceRoll::from_sum(7), DiceRoll::new_dual(6, 1));
    assert_eq!(DiceRoll::from_sum(12), DiceRoll::new_dual(6, 6));
    for sum in 1..=12u8 {
        assert_eq!(DiceRoll::from_sum(sum).get_value(), sum);
    }
}

#[test]
fn every_outcome_of_two_dice() {
    let rolls = get_rolls();
    assert_eq!(rolls.len(), 36);
    assert_eq!(rolls[0], DiceRoll::new_dual(1, 1));
    assert_eq!(rolls[7], DiceRoll::new_dual(2, 2));
    assert_eq!(rolls[35], DiceRoll::new_dual(6, 6));
    for (index, roll) in rolls.iter().enumerate() {
        assert_eq!(roll.get_value() as usize, index / 6 + index % 6 + 2);
    }
}
