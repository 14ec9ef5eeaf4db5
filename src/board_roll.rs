//! The key of the move table: a board and a dice roll, with its text form `"<board>-<roll>"`.
use crate::text::{
    all_digits, chars_of, decimal, digits_value, last_index_of, lemma_decimal,
    lemma_last_index_of, numeral_value, parse_numeral,
};
use vstd::prelude::*;

verus! {

/// Two dice packed in a byte: the first die in bits 5 to 7, the second in bits 1 to 3.
#[derive(Clone, Copy, PartialEq, Eq, Structural, Hash, Debug)]
pub struct DiceRoll(pub u8);

/// The sum of the two dice packed in `byte`.
pub open spec fn dice_value(byte: u8) -> nat {
    ((byte >> 5u8) as nat) + (((byte >> 1u8) & 7u8) as nat)
}

/// The packed byte of two dice.
pub open spec fn dice_byte(one: u8, two: u8) -> u8 {
    ((one << 5u8) | ((two & 7u8) << 1u8)) as u8
}

/// The packed dice that `DiceRoll::from_sum` gives for a sum from 1 to 12.
pub open spec fn sum_byte(value: u8) -> u8 {
    if value == 1 {
        32
    } else if value <= 7 {
        dice_byte((value - 1) as u8, 1)
    } else {
        dice_byte(6, (value - 6) as u8)
    }
}

pub proof fn lemma_dice_byte(one: u8, two: u8)
    requires
        one < 8,
    ensures
        dice_value(dice_byte(one, two)) == one + two % 8,
{
    let byte = dice_byte(one, two);
    assert((byte >> 5u8) == one && ((byte >> 1u8) & 7u8) == two % 8) by (bit_vector)
        requires
            one < 8,
            byte == ((one << 5u8) | ((two & 7u8) << 1u8)) as u8,
    ;
}

pub proof fn lemma_sum_byte(value: u8)
    requires
        1 <= value <= 12,
    ensures
        dice_value(sum_byte(value)) == value,
{
    if value == 1 {
        let byte: u8 = 32;
        assert((byte >> 5u8) == 1 && ((byte >> 1u8) & 7u8) == 0) by (bit_vector)
            requires
                byte == 32,
        ;
    } else if value <= 7 {
        lemma_dice_byte((value - 1) as u8, 1);
    } else {
        lemma_dice_byte(6, (value - 6) as u8);
    }
}

impl DiceRoll {
    /// Packs two dice, as `new_dual` does.
    pub fn new(one: u8, two: u8) -> (r: DiceRoll)
        ensures
            r.0 == dice_byte(one, two),
            one < 8 ==> dice_value(r.0) == one + two % 8,
    {
        Self::new_dual(one, two)
    }

    /// Packs a single die, the second left empty.
    pub fn new_single(one: u8) -> (r: DiceRoll)
        ensures
            r.0 == (one << 5u8) as u8,
            one < 8 ==> dice_value(r.0) == one,
    {
        let byte: u8 = one << 5u8;
        assert(one < 8 ==> ((byte >> 5u8) == one && ((byte >> 1u8) & 7u8) == 0)) by (bit_vector)
            requires
                byte == one << 5u8,
        ;
        DiceRoll(byte)
    }

    /// Packs two dice; the second keeps its low three bits.
    pub fn new_dual(one: u8, two: u8) -> (r: DiceRoll)
        ensures
            r.0 == dice_byte(one, two),
            one < 8 ==> dice_value(r.0) == one + two % 8,
    {
        let one_bits: u8 = one << 5u8;
        let two_bits: u8 = (two & 0b00000111u8) << 1u8;
        let byte: u8 = one_bits | two_bits;
        assert(one < 8 ==> ((byte >> 5u8) == one && ((byte >> 1u8) & 7u8) == two % 8))
            by (bit_vector)
            requires
                one_bits == one << 5u8,
                two_bits == (two & 7u8) << 1u8,
                byte == one_bits | two_bits,
        ;
        DiceRoll(byte)
    }

    /// The sum of the two dice.
    pub fn get_value(self) -> (r: u8)
        ensures
            r == dice_value(self.0),
    {
        let one: u8 = (self.0 & 0b11100000u8) >> 5u8;
        let two: u8 = (self.0 & 0b00001110u8) >> 1u8;
        let byte = self.0;
        assert(one == byte >> 5u8 && two == (byte >> 1u8) & 7u8 && one < 8 && two < 8)
            by (bit_vector)
            requires
                one == (byte & 0b11100000u8) >> 5u8,
                two == (byte & 0b00001110u8) >> 1u8,
        ;
        one + two
    }

    /// The dice add up to a sum that two dice can show, 2 to 12.
    pub fn is_valid(self) -> (r: bool)
        ensures
            r == (2 <= dice_value(self.0) <= 12),
    {
        let value = self.get_value();
        value > 1 && 13 > value
    }

    /// The packed dice for a sum from 1 to 12: a single die below 2, else a pair whose first die
    /// is as large as it can be.
    pub fn from_sum(value: u8) -> (r: DiceRoll)
        requires
            1 <= value <= 12,
        ensures
            r.0 == sum_byte(value),
            dice_value(r.0) == value,
    {
        if value == 1 {
            assert((1u8 << 5u8) == 32u8) by (bit_vector);
            DiceRoll::new_single(1)
        } else if value <= 7 {
            DiceRoll::new_dual(value - 1, 1)
        } else {
            DiceRoll::new_dual(6, value - 6)
        }
    }
}

/// Every outcome of two dice, the outcome with first die `a` and second die `b` at index
/// `(a - 1) * 6 + b - 1`.
pub fn get_rolls() -> (r: Vec<DiceRoll>)
    ensures
        r@.len() == 36,
        forall|i: int|
            0 <= i < 36 ==> (#[trigger] r@[i]).0 == dice_byte((i / 6 + 1) as u8, (i % 6 + 1) as u8)
                && dice_value(r@[i].0) == i / 6 + i % 6 + 2,
{
    let mut dual_rolls: Vec<DiceRoll> = Vec::with_capacity(36);
    let mut one: u8 = 1;
    while one < 7
        invariant
            1 <= one <= 7,
            dual_rolls@.len() == (one - 1) * 6,
            forall|i: int|
                0 <= i < dual_rolls@.len() ==> (#[trigger] dual_rolls@[i]).0 == dice_byte(
                    (i / 6 + 1) as u8,
                    (i % 6 + 1) as u8,
                ) && dice_value(dual_rolls@[i].0) == i / 6 + i % 6 + 2,
        decreases 7 - one,
    {
        let mut two: u8 = 1;
        while two < 7
            invariant
                1 <= one < 7,
                1 <= two <= 7,
                dual_rolls@.len() == (one - 1) * 6 + two - 1,
                forall|i: int|
                    0 <= i < dual_rolls@.len() ==> (#[trigger] dual_rolls@[i]).0 == dice_byte(
                        (i / 6 + 1) as u8,
                        (i % 6 + 1) as u8,
                    ) && dice_value(dual_rolls@[i].0) == i / 6 + i % 6 + 2,
            decreases 7 - two,
        {
            let ghost index = dual_rolls@.len() as int;
            assert(index / 6 == one - 1 && index % 6 == two - 1);
            dual_rolls.push(DiceRoll::new_dual(one, two));
            two = two + 1;
        }
        one = one + 1;
    }
    dual_rolls
}

/// A board together with a dice roll.
#[derive(Clone, Copy, PartialEq, Eq, Structural, Hash, Debug)]
pub struct BoardRoll {
    pub board: u16,
    pub roll: DiceRoll,
}

/// Why a text is not a board roll.
#[derive(Clone, Copy, PartialEq, Eq, Structural, Debug)]
pub enum BoardRollError {
    /// The text has no dash.
    MissingDash,
    /// The text before the last dash is not a `u16` numeral.
    InvalidBoard,
    /// The text after the last dash is not a `u8` numeral.
    InvalidRoll,
    /// The board is above 511.
    BoardOutOfRange,
    /// The dice of the roll do not add up to a sum from 2 to 12.
    RollOutOfRange,
}

impl BoardRollError {
    /// A sentence that says what is wrong with the text.
    pub fn message(&self) -> &'static str {
        match self {
            BoardRollError::MissingDash => "invalid string for a board roll",
            BoardRollError::InvalidBoard => "invalid u16 for board",
            BoardRollError::InvalidRoll => "invalid u8 for roll",
            BoardRollError::BoardOutOfRange => "board cannot have a value above 511",
            BoardRollError::RollOutOfRange => "roll must add up to a value between 2 and 12",
        }
    }
}

/// The text form of a board roll: the board, a dash, and the packed dice byte, both in decimal.
pub open spec fn board_roll_text(board_roll: BoardRoll) -> Seq<char> {
    decimal(board_roll.board as nat) + seq!['-'] + decimal(board_roll.roll.0 as nat)
}

/// What reading `text` as a board roll gives: the text is split at its last dash, the board must
/// read as a `u16` and the roll byte as a `u8`, the board must be at most 511 and the dice must add
/// up to a sum from 2 to 12; the first rule broken names the error.
pub open spec fn parse_board_roll(text: Seq<char>) -> Result<BoardRoll, BoardRollError> {
    let dash = last_index_of(text, '-');
    let board = numeral_value(text.subrange(0, dash));
    let roll = numeral_value(text.subrange(dash + 1, text.len() as int));
    if dash < 0 {
        Err(BoardRollError::MissingDash)
    } else if board is None || board->0 > 65535 {
        Err(BoardRollError::InvalidBoard)
    } else if roll is None || roll->0 > 255 {
        Err(BoardRollError::InvalidRoll)
    } else if board->0 > 511 {
        Err(BoardRollError::BoardOutOfRange)
    } else if !(2 <= dice_value(roll->0 as u8) <= 12) {
        Err(BoardRollError::RollOutOfRange)
    } else {
        Ok(BoardRoll { board: board->0 as u16, roll: DiceRoll(roll->0 as u8) })
    }
}

/// Relies on the `Display` of std's integers, through `format!`: decimal digits without sign or
/// leading zeros.
#[verifier::external_body]
fn format_board_roll(board: u16, roll: u8) -> (r: String)
    ensures
        r@ == decimal(board as nat) + seq!['-'] + decimal(roll as nat),
{
    format!("{}-{}", board, roll)
}

impl BoardRoll {
    pub fn new(board: u16, roll: DiceRoll) -> (r: BoardRoll)
        ensures
            r.board == board,
            r.roll == roll,
    {
        BoardRoll { board, roll }
    }

    /// The text form `"<board>-<roll byte>"`.
    pub fn to_text(&self) -> (r: String)
        ensures
            r@ == board_roll_text(*self),
    {
        format_board_roll(self.board, self.roll.0)
    }

    /// Reads the text form of a board roll.
    pub fn parse(text: &str) -> (r: Result<BoardRoll, BoardRollError>)
        ensures
            r == parse_board_roll(text@),
    {
        let chars = chars_of(text);
        let ghost s = chars@;
        proof {
            lemma_last_index_of(s, '-');
        }
        let mut dash: usize = chars.len();
        let mut found = false;
        while dash > 0 && !found
            invariant
                dash <= chars.len(),
                chars@ == s,
                found ==> dash == last_index_of(s, '-') && dash < s.len(),
                !found ==> last_index_of(s, '-') < dash,
                -1 <= last_index_of(s, '-') < s.len(),
                last_index_of(s, '-') >= 0 ==> s[last_index_of(s, '-')] == '-',
                forall|j: int| last_index_of(s, '-') < j < s.len() ==> s[j] != '-',
            decreases dash + (if found {
                0int
            } else {
                1
            }),
        {
            if chars[dash - 1] == '-' {
                dash = dash - 1;
                found = true;
            } else {
                dash = dash - 1;
            }
        }
        if !found {
            return Err(BoardRollError::MissingDash);
        }
        let board = match parse_numeral(&chars, 0, dash, 65535) {
            Some(board) => board,
            None => {
                return Err(BoardRollError::InvalidBoard);
            },
        };
        let roll = match parse_numeral(&chars, dash + 1, chars.len(), 255) {
            Some(roll) => DiceRoll(roll as u8),
            None => {
                return Err(BoardRollError::InvalidRoll);
            },
        };
        if board > 511 {
            return Err(BoardRollError::BoardOutOfRange);
        }
        if !roll.is_valid() {
            return Err(BoardRollError::RollOutOfRange);
        }
        Ok(BoardRoll { board: board as u16, roll })
    }
}

/// Writing a board roll as text and reading the text back gives the same board roll.
pub proof fn lemma_text_round_trip(board_roll: BoardRoll)
    requires
        board_roll.board <= 511,
        2 <= dice_value(board_roll.roll.0) <= 12,
    ensures
        parse_board_roll(board_roll_text(board_roll)) == Ok::<BoardRoll, BoardRollError>(
            board_roll,
        ),
{
    let a = decimal(board_roll.board as nat);
    let b = decimal(board_roll.roll.0 as nat);
    let s = board_roll_text(board_roll);
    lemma_decimal(board_roll.board as nat);
    lemma_decimal(board_roll.roll.0 as nat);
    lemma_last_index_of(s, '-');
    let k = last_index_of(s, '-');
    assert(s[a.len() as int] == '-');
    assert forall|j: int| a.len() < j < s.len() implies s[j] != '-' by {
        assert(s[j] == b[j - a.len() - 1]);
        assert(crate::text::is_digit(b[j - a.len() - 1]));
    }
    if k < a.len() {
        assert(s[a.len() as int] != '-');
    }
    if k > a.len() {
        assert(s[k] != '-');
    }
    assert(k == a.len());
    assert(s.subrange(0, k) == a);
    assert(s.subrange(k + 1, s.len() as int) == b);
    assert(all_digits(a) && all_digits(b));
    assert(digits_value(a) == board_roll.board);
    assert(digits_value(b) == board_roll.roll.0);
}

} // verus!
