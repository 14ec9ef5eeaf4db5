//! The moves that one roll allows on one board.
use crate::pieces::{
    gather, is_move, kept_mask, lemma_gather_spread, lemma_kept_spread, lemma_piece_list,
    lemma_spread_gather, lemma_spread_submask, lemma_submask_split, lemma_sum_spread, lemma_zero_pick,
    piece_list, popcount, selected_sum, spread, value_from,
};
use vstd::arithmetic::power2::{lemma2_to64, lemma_pow2_pos, lemma_pow2_unfold, pow2};
use vstd::bits::lemma_u16_shl_is_mul;
use crate::random::draw_below;
use fastrand::Rng;
use vstd::prelude::*;

verus! {

/// `next` is what a pick below `bound` leaves of `board`, its pieces adding up to `roll`.
spec fn reached_below(board: nat, roll: nat, bound: nat, next: u16) -> bool {
    exists|v: nat|
        1 <= v < bound && value_from(#[trigger] spread(v, board), 1) == roll && next as nat == board
            - spread(v, board)
}

/// A rolled dice sum together with every board that it can lead to from the board that owns it.
#[derive(Debug)]
pub struct Roll {
    pub roll_value: u8,
    pub boards: Vec<u16>,
}

impl Roll {
    /// `boards` holds each move of `board` for this roll exactly once, and nothing else.
    pub open spec fn lists_moves_of(&self, board: nat) -> bool {
        &&& forall|next: u16| #[trigger]
            self.boards@.contains(next) <==> is_move(board, self.roll_value as nat, next as nat)
        &&& self.boards@.no_duplicates()
    }

    /// Enumerates every move of `board` for `rolled_value`: each non-empty set of alive pieces
    /// that adds up to the roll is knocked down in turn.
    pub fn new(rolled_value: u8, board: u16) -> (r: Roll)
        requires
            board < 512,
        ensures
            r.roll_value == rolled_value,
            r.lists_moves_of(board as nat),
            r.boards@.len() < 512,
    {
        let ghost b = board as nat;
        let ghost r = rolled_value as nat;
        let mut boards: Vec<u16> = Vec::new();
        let numeric_board = Self::pieces(board);
        proof {
            lemma2_to64();
            lemma_piece_list(b, 1, 9);
            lemma_u16_shl_is_mul(1, numeric_board.len() as u16);
            lemma_pow2_pos(popcount(b));
            vstd::arithmetic::power2::lemma_pow2_strictly_increases(popcount(b), 16);
            if popcount(b) < 9 {
                vstd::arithmetic::power2::lemma_pow2_strictly_increases(popcount(b), 9);
            }
        }
        // Each counter value below 2^k picks a subset of the k alive pieces by its bits.
        let unique_board_amount: u16 = 1u16 << (numeric_board.len() as u16);
        let mut unique_board: u16 = 1;
        while unique_board < unique_board_amount
            invariant
                numeric_board@ == piece_list(b, 1),
                b < 512,
                r == rolled_value,
                unique_board_amount as nat == pow2(popcount(b)),
                1 <= unique_board <= unique_board_amount || unique_board_amount < 1,
                forall|v: nat|
                    1 <= v < unique_board && value_from(#[trigger] spread(v, b), 1) == r
                        ==> boards@.contains((b - spread(v, b)) as u16),
                forall|i: int|
                    0 <= i < boards@.len() ==> #[trigger] reached_below(
                        b,
                        r,
                        unique_board as nat,
                        boards@[i],
                    ),
                boards@.no_duplicates(),
                boards@.len() < unique_board,
                unique_board_amount <= 512,
            decreases unique_board_amount - unique_board,
        {
            let ghost u = unique_board as nat;
            proof {
                lemma2_to64();
                lemma_piece_list(b, 1, 9);
                lemma_sum_spread(u, b, 1, 9);
                lemma_kept_spread(u, b, 1, 9);
                lemma_spread_submask(u, b);
                assert(pow2(0) * (b - spread(u, b)) == b - spread(u, b)) by (nonlinear_arith)
                    requires
                        pow2(0) == 1,
                ;
            }
            let ghost before = boards@;
            let possible_move = Self::sum_move(unique_board, &numeric_board);
            if possible_move == rolled_value {
                let next = Self::preform_move(unique_board, &numeric_board);
                assert(next as nat == b - spread(u, b));
                proof {
                    assert forall|i: int| 0 <= i < boards@.len() implies boards@[i] != next by {
                        assert(reached_below(b, r, u, boards@[i]));
                        let v = choose|v: nat|
                            1 <= v < unique_board && value_from(#[trigger] spread(v, b), 1) == r
                                && boards@[i] as nat == b - spread(v, b);
                        lemma_gather_spread(v, b);
                        lemma_gather_spread(u, b);
                    }
                }
                boards.push(next);
                assert(boards@[before.len() as int] == next);
            }
            unique_board = unique_board + 1;
            proof {
                assert forall|i: int| 0 <= i < before.len() implies boards@[i] == before[i] by {}
                assert forall|v: nat|
                    1 <= v < unique_board && value_from(#[trigger] spread(v, b), 1) == r
                        implies boards@.contains((b - spread(v, b)) as u16) by {
                    if v < u {
                        let i = choose|i: int|
                            0 <= i < before.len() && before[i] == (b - spread(v, b)) as u16;
                        assert(boards@[i] == before[i]);
                    } else {
                        assert(boards@[before.len() as int] == (b - spread(u, b)) as u16);
                    }
                }
                assert forall|i: int| 0 <= i < boards@.len() implies #[trigger] reached_below(
                    b,
                    r,
                    unique_board as nat,
                    boards@[i],
                ) by {
                    if i < before.len() {
                        assert(reached_below(b, r, u, before[i]));
                        let v = choose|v: nat|
                            1 <= v < u && value_from(#[trigger] spread(v, b), 1) == r
                                && before[i] as nat == b - spread(v, b);
                        assert(value_from(spread(v, b), 1) == r);
                    } else {
                        assert(value_from(spread(u, b), 1) == r);
                    }
                }
            }
        }
        proof {
            assert forall|next: u16| #[trigger]
                boards@.contains(next) <==> is_move(b, r, next as nat) by {
                let s = next as nat;
                if boards@.contains(next) {
                    let i = choose|i: int| 0 <= i < boards@.len() && boards@[i] == next;
                    assert(reached_below(b, r, unique_board as nat, boards@[i]));
                    let v = choose|v: nat|
                        1 <= v < unique_board && value_from(#[trigger] spread(v, b), 1) == r
                            && boards@[i] as nat == b - spread(v, b);
                    lemma_spread_submask(v, b);
                    lemma_submask_split(spread(v, b), b, 1);
                    lemma_gather_spread(v, b);
                    lemma_zero_pick(b);
                }
                if is_move(b, r, s) {
                    lemma_submask_split(s, b, 1);
                    let c = (b - s) as nat;
                    lemma_spread_gather(c, b);
                    lemma_zero_pick(b);
                    let v = gather(c, b);
                    assert(spread(v, b) == c);
                    assert(value_from(spread(v, b), 1) == r);
                }
            }
        }
        Roll { roll_value: rolled_value, boards }
    }

    /// The numbers of the pieces alive on `alive_pieces`, ascending.
    pub(crate) fn pieces(alive_pieces: u16) -> (r: Vec<u8>)
        requires
            alive_pieces < 512,
        ensures
            r@ == piece_list(alive_pieces as nat, 1),
    {
        let mut numeric_value: Vec<u8> = Vec::with_capacity(9);
        let mut rest: u16 = alive_pieces;
        let mut piece: u8 = 1;
        proof {
            lemma2_to64();
        }
        while rest != 0
            invariant
                1 <= piece <= 10,
                (rest as nat) < pow2((10 - piece) as nat),
                numeric_value@ + piece_list(rest as nat, piece as nat) == piece_list(
                    alive_pieces as nat,
                    1,
                ),
            decreases rest,
        {
            proof {
                lemma_pow2_pos((10 - piece) as nat);
                if piece == 10 {
                    lemma2_to64();
                }
                lemma_pow2_unfold((10 - piece) as nat);
            }
            let ghost before = numeric_value@;
            assert(rest & 1 == rest % 2) by (bit_vector);
            assert(rest >> 1 == rest / 2) by (bit_vector);
            if rest & 1 == 1 {
                numeric_value.push(piece);
                assert(before + piece_list(rest as nat, piece as nat) == numeric_value@
                    + piece_list((rest / 2) as nat, (piece + 1) as nat));
            }
            rest = rest >> 1;
            piece = piece + 1;
        }
        assert(numeric_value@ + piece_list(0, piece as nat) == numeric_value@);
        numeric_value
    }

    /// The sum of the pieces whose positions in `alive_pieces` are set in `move_to_sum`.
    fn sum_move(move_to_sum: u16, alive_pieces: &Vec<u8>) -> (r: u8)
        requires
            alive_pieces.len() <= 9,
            forall|i: int| 0 <= i < alive_pieces.len() ==> alive_pieces[i] <= 9,
        ensures
            r == selected_sum(move_to_sum as nat, alive_pieces@),
    {
        let mut numeric_move_sum: u8 = 0;
        let mut rest: u16 = move_to_sum;
        let mut piece_index: usize = 0;
        assert(alive_pieces@.skip(0) == alive_pieces@);
        while piece_index < alive_pieces.len()
            invariant
                piece_index <= alive_pieces.len() <= 9,
                forall|i: int| 0 <= i < alive_pieces.len() ==> alive_pieces[i] <= 9,
                numeric_move_sum <= 9 * piece_index,
                numeric_move_sum + selected_sum(rest as nat, alive_pieces@.skip(piece_index as int))
                    == selected_sum(move_to_sum as nat, alive_pieces@),
            decreases alive_pieces.len() - piece_index,
        {
            let ghost tail = alive_pieces@.skip(piece_index as int);
            assert(tail.drop_first() == alive_pieces@.skip(piece_index + 1));
            assert(tail[0] == alive_pieces[piece_index as int]);
            assert(rest & 1 == rest % 2) by (bit_vector);
            assert(rest >> 1 == rest / 2) by (bit_vector);
            if rest & 1 == 1 {
                numeric_move_sum = numeric_move_sum + alive_pieces[piece_index];
            }
            rest = rest >> 1;
            piece_index = piece_index + 1;
        }
        assert(alive_pieces@.skip(piece_index as int).len() == 0);
        numeric_move_sum
    }

    /// The board left once the pieces whose positions are set in `move_to_perform` are knocked
    /// down from `alive_pieces`.
    pub(crate) fn preform_move(move_to_perform: u16, alive_pieces: &Vec<u8>) -> (r: u16)
        requires
            alive_pieces.len() <= 9,
            forall|i: int| 0 <= i < alive_pieces.len() ==> 1 <= #[trigger] alive_pieces[i] <= 9,
            forall|i: int, j: int|
                0 <= i < j < alive_pieces.len() ==> alive_pieces[i] < alive_pieces[j],
        ensures
            r == kept_mask(move_to_perform as nat, alive_pieces@),
            r < 512,
    {
        let mut resultant_board: u16 = 0;
        let mut rest: u16 = move_to_perform;
        let mut piece_index: usize = 0;
        proof {
            lemma2_to64();
        }
        assert(alive_pieces@.skip(0) == alive_pieces@);
        while piece_index < alive_pieces.len()
            invariant
                piece_index <= alive_pieces.len() <= 9,
                forall|i: int| 0 <= i < alive_pieces.len() ==> 1 <= #[trigger] alive_pieces[i] <= 9,
                forall|i: int, j: int|
                    0 <= i < j < alive_pieces.len() ==> alive_pieces[i] < alive_pieces[j],
                piece_index == 0 ==> resultant_board == 0,
                piece_index > 0 ==> (resultant_board as nat) < pow2(
                    alive_pieces[piece_index - 1] as nat,
                ),
                resultant_board + kept_mask(rest as nat, alive_pieces@.skip(piece_index as int))
                    == kept_mask(move_to_perform as nat, alive_pieces@),
            decreases alive_pieces.len() - piece_index,
        {
            let ghost tail = alive_pieces@.skip(piece_index as int);
            assert(tail.drop_first() == alive_pieces@.skip(piece_index + 1));
            assert(tail[0] == alive_pieces[piece_index as int]);
            assert(rest & 1 == rest % 2) by (bit_vector);
            assert(rest >> 1 == rest / 2) by (bit_vector);
            let piece = alive_pieces[piece_index];
            let value: u16 = (piece - 1) as u16;
            proof {
                lemma2_to64();
                if value < 8 {
                    vstd::arithmetic::power2::lemma_pow2_strictly_increases(value as nat, 8);
                }
                lemma_pow2_pos(value as nat);
                lemma_pow2_unfold(piece as nat);
                if piece_index > 0 {
                    let prev = alive_pieces[piece_index - 1] as nat;
                    if prev < value {
                        vstd::arithmetic::power2::lemma_pow2_strictly_increases(prev, value as nat);
                    }
                }
                if piece < 9 {
                    vstd::arithmetic::power2::lemma_pow2_strictly_increases(piece as nat, 9);
                }
            }
            if (rest & 1) != 1 {
                let bit: u16 = 1u16 << value;
                proof {
                    lemma_u16_shl_is_mul(1, value);
                }
                let board = resultant_board;
                assert(board < bit ==> board | bit == board + bit) by (bit_vector)
                    requires
                        bit == 1u16 << value,
                        value < 16,
                ;
                resultant_board = resultant_board | bit;
            }
            rest = rest >> 1;
            piece_index = piece_index + 1;
        }
        assert(alive_pieces@.skip(piece_index as int).len() == 0);
        resultant_board
    }
    /// Picks one of the boards of this roll at random, each equally likely; `None` when the roll
    /// leaves no move.
    pub fn get_rand_board(&self, rng: &mut Rng) -> (r: Option<u16>)
        ensures
            r is None <==> self.boards@.len() == 0,
            r matches Some(next) ==> self.boards@.contains(next),
    {
        if self.boards.len() == 0 {
            return None;
        }
        let mut forked = Rng::fork(rng);
        let index = draw_below(&mut forked, self.boards.len());
        Some(self.boards[index])
    }
}

} // verus!
