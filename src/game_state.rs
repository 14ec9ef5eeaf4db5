//! A board and the dice value that led to it, packed in 16 bits: the dice value in bits 12 to 15,
//! the board in bits 0 to 8.
use vstd::prelude::*;

verus! {

const BOARD_BITS_HIGH: u16 = 0b0000000111111111;

const DICE_BITS_HIGH: u16 = 0b1111000000000000;

/// A state of the board and the dice value needed from its parent to reach it.
#[derive(Clone, Copy)]
pub struct GameState {
    pub state: u16,
}

impl GameState {
    /// The board bits of the state.
    pub open spec fn board_of(&self) -> u16 {
        self.state & 0x1FFu16
    }

    /// The dice value of the state.
    pub open spec fn dice_of(&self) -> u16 {
        self.state >> 12u16
    }

    /// The state with every piece alive and a dice value of 0.
    pub fn new_root_state() -> (r: GameState)
        ensures
            r.board_of() == 511,
            r.dice_of() == 0,
    {
        let r = GameState { state: 0b0000000111111111 };
        assert((0b0000000111111111u16 & 0x1FFu16) == 511 && (0b0000000111111111u16 >> 12u16) == 0)
            by (bit_vector);
        r
    }

    /// The state with the low nine bits of `board` and the low four bits of `dice`.
    pub fn from_board_and_dice(board: &u16, dice: &u8) -> (r: GameState)
        ensures
            r.board_of() == *board & 0x1FFu16,
            r.dice_of() == (*dice as u16) % 16,
    {
        let validated_board = *board & BOARD_BITS_HIGH;
        let dice_value: u16 = (*dice) as u16;
        let dice_value = dice_value << 12u16;
        let state = dice_value | validated_board;
        let b = *board;
        let d = (*dice) as u16;
        assert((state & 0x1FFu16) == (b & 0x1FFu16) && (state >> 12u16) == d % 16) by (bit_vector)
            requires
                validated_board == b & 0b0000000111111111u16,
                dice_value == d << 12u16,
                state == dice_value | validated_board,
        ;
        GameState { state }
    }

    /// The bits of the alive pieces.
    pub fn get_board(&self) -> (r: u16)
        ensures
            r == self.board_of(),
    {
        self.state & BOARD_BITS_HIGH
    }

    /// The dice value.
    pub fn get_dice(&self) -> (r: u8)
        ensures
            r == self.dice_of(),
    {
        let s = self.state;
        assert(s >> 12u16 < 16) by (bit_vector);
        (self.state >> 12u16) as u8
    }

    /// Replaces the board with the low nine bits of `new_board`; the dice value stays.
    pub fn set_board(&mut self, new_board: u16)
        ensures
            final(self).board_of() == new_board & 0x1FFu16,
            final(self).dice_of() == old(self).dice_of(),
    {
        let validated_board = new_board & 0b0000000111111111u16;
        let old_state = self.state;
        let cleared = old_state & !BOARD_BITS_HIGH;
        let state = cleared | validated_board;
        assert((state & 0x1FFu16) == (new_board & 0x1FFu16) && (state >> 12u16) == (old_state
            >> 12u16)) by (bit_vector)
            requires
                validated_board == new_board & 0b0000000111111111u16,
                cleared == old_state & !0b0000000111111111u16,
                state == cleared | validated_board,
        ;
        self.state = state;
    }

    /// Replaces the dice value with the low four bits of `new_dice`; the board stays.
    pub fn set_dice(&mut self, new_dice: u8)
        ensures
            final(self).board_of() == old(self).board_of(),
            final(self).dice_of() == (new_dice as u16) % 16,
    {
        let formatted_dice_bits: u16 = (new_dice as u16) << 12u16;
        let old_state = self.state;
        let cleared = old_state & !DICE_BITS_HIGH;
        let state = cleared | formatted_dice_bits;
        let d = new_dice as u16;
        assert((state & 0x1FFu16) == (old_state & 0x1FFu16) && (state >> 12u16) == d % 16)
            by (bit_vector)
            requires
                formatted_dice_bits == d << 12u16,
                cleared == old_state & !0b1111000000000000u16,
                state == cleared | formatted_dice_bits,
        ;
        self.state = state;
    }

    /// The packed state.
    pub fn get_raw_state(&self) -> (r: u16)
        ensures
            r == self.state,
    {
        self.state
    }

    /// Replaces the packed state.
    pub fn set_raw_state(&mut self, raw_state: u16)
        ensures
            final(self).state == raw_state,
    {
        self.state = raw_state;
    }
}

/// Two states are equal when their boards are; the dice value is left out.
impl PartialEq for GameState {
    fn eq(&self, other: &GameState) -> (r: bool) {
        self.get_board() == other.get_board()
    }
}

impl vstd::std_specs::cmp::PartialEqSpecImpl for GameState {
    open spec fn obeys_eq_spec() -> bool {
        true
    }

    open spec fn eq_spec(&self, other: &GameState) -> bool {
        self.board_of() == other.board_of()
    }
}

} // verus!
