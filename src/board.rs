//! Boards with their per-roll moves, and the table of all 512 of them.
use crate::pieces::{board_value, lemma_submask_bits, lemma_value_bound, value_from};
use crate::random::{draw_below, random_below};
use crate::roll::Roll;
use fastrand::Rng;
use vstd::arithmetic::power2::{lemma2_to64, lemma_pow2_pos, lemma_pow2_unfold, pow2};
use vstd::prelude::*;

verus! {

/// The number of equally likely outcomes of two six-sided dice.
pub const DICE_OUTCOMES: usize = 36;

/// The index, among the rolls 2 to 12, of the sum shown by two-die outcome `draw`: the first die
/// shows `draw / 6 + 1` and the second `draw % 6 + 1`.
pub open spec fn roll_index_of(draw: nat) -> nat {
    draw / 6 + draw % 6
}

/// A board together with the moves that each roll from 2 to 12 allows on it.
#[derive(Debug)]
pub struct Board {
    pub board: u16,
    pub rolls: Vec<Roll>,
}

/// `t` holds every board from 0 to 511, each at its own index.
pub open spec fn is_board_table(t: Seq<Board>) -> bool {
    &&& t.len() == 512
    &&& forall|i: int| 0 <= i < 512 ==> (#[trigger] t[i]).board == i && t[i].is_complete()
}

impl Board {
    /// The board is one of the 512 and `rolls[i]` lists its moves for the roll `i + 2`.
    pub open spec fn is_complete(&self) -> bool {
        &&& self.board < 512
        &&& self.rolls@.len() == 11
        &&& forall|i: int|
            0 <= i < 11 ==> (#[trigger] self.rolls@[i]).roll_value == i + 2
                && self.rolls@[i].lists_moves_of(self.board as nat) && self.rolls@[i].boards@.len()
                < 512
    }

    /// Enumerates the moves of `board` for every roll from 2 to 12.
    pub fn new(board: u16) -> (r: Board)
        requires
            board < 512,
        ensures
            r.board == board,
            r.is_complete(),
    {
        let mut roles: Vec<Roll> = Vec::with_capacity(11);
        let mut role: u8 = 2;
        while role < 13
            invariant
                2 <= role <= 13,
                board < 512,
                roles@.len() == role - 2,
                forall|i: int|
                    0 <= i < roles@.len() ==> (#[trigger] roles@[i]).roll_value == i + 2
                        && roles@[i].lists_moves_of(board as nat) && roles@[i].boards@.len() < 512,
            decreases 13 - role,
        {
            roles.push(Roll::new(role, board));
            role = role + 1;
        }
        Board { board, rolls: roles }
    }

    /// The roll that two-die outcome `draw` shows.
    pub fn roll_for_draw(&self, draw: usize) -> (r: &Roll)
        requires
            self.is_complete(),
            draw < DICE_OUTCOMES,
        ensures
            r == &self.rolls@[roll_index_of(draw as nat) as int],
            r.roll_value == roll_index_of(draw as nat) + 2,
    {
        let roll_index = draw / 6 + draw % 6;
        &self.rolls[roll_index]
    }

    /// Picks a roll at random, each sum as likely as two fair dice show it.
    pub fn get_rand_roll(&self, rng: &mut Rng) -> (r: &Roll)
        requires
            self.is_complete(),
        ensures
            2 <= r.roll_value <= 12,
            r == &self.rolls@[r.roll_value - 2],
    {
        let draw = draw_below(rng, DICE_OUTCOMES);
        self.roll_for_draw(draw)
    }

    /// The sum of the numbers of the alive pieces.
    pub fn calculate_value(&self) -> (r: u8)
        requires
            self.board < 512,
        ensures
            r == board_value(self.board as nat),
    {
        let mut total_value: u8 = 0;
        let mut rest: u16 = self.board;
        let mut index: u8 = 0;
        proof {
            lemma2_to64();
            lemma_value_bound(self.board as nat, 1, 9);
        }
        while index < 9
            invariant
                index <= 9,
                (rest as nat) < pow2((9 - index) as nat),
                total_value + value_from(rest as nat, (index + 1) as nat) == board_value(
                    self.board as nat,
                ),
                board_value(self.board as nat) <= 90,
            decreases 9 - index,
        {
            proof {
                lemma_pow2_pos((9 - index) as nat);
                lemma_pow2_unfold((9 - index) as nat);
            }
            assert(rest & 1 == rest % 2) by (bit_vector);
            assert(rest >> 1 == rest / 2) by (bit_vector);
            if rest & 1 == 1 {
                total_value = total_value + index + 1;
            }
            rest = rest >> 1;
            index = index + 1;
        }
        proof {
            lemma2_to64();
        }
        total_value
    }

    /// The bits of the alive pieces, bit `i` standing for piece `i + 1`.
    pub fn get_raw(&self) -> (r: u16)
        ensures
            r == self.board,
    {
        self.board
    }
}

/// Builds every board from 0 to 511 with its moves.
pub fn get_boards() -> (r: Vec<Board>)
    ensures
        is_board_table(r@),
{
    let mut possible_boards: Vec<Board> = Vec::with_capacity(512);
    let mut index: u16 = 0;
    while index < 512
        invariant
            index <= 512,
            possible_boards@.len() == index,
            forall|i: int|
                0 <= i < index ==> (#[trigger] possible_boards@[i]).board == i
                    && possible_boards@[i].is_complete(),
        decreases 512 - index,
    {
        possible_boards.push(Board::new(index));
        index = index + 1;
    }
    possible_boards
}

/// The board whose bits are `binary_board`, if there is one.
pub fn get_board(boards: &Vec<Board>, binary_board: usize) -> (r: Option<&Board>)
    requires
        is_board_table(boards@),
    ensures
        binary_board < 512 ==> r == Some(&boards@[binary_board as int]),
        binary_board >= 512 ==> r is None,
{
    if binary_board < boards.len() {
        Some(&boards[binary_board])
    } else {
        None
    }
}

/// A board of the table picked at random, each equally likely.
pub fn get_rand_board(boards: &Vec<Board>) -> (r: &Board)
    requires
        is_board_table(boards@),
    ensures
        r.is_complete(),
        r == &boards@[r.board as int],
{
    let index = random_below(boards.len());
    &boards[index]
}

/// Every board that the table lists for a roll keeps only pieces alive on the board it came from
/// and differs from it, and the pieces knocked down add up to the roll exactly.
pub proof fn lemma_listed_moves_knock_down_the_roll(boards: Seq<Board>, board: int, roll: int, k: int)
    requires
        is_board_table(boards),
        0 <= board < 512,
        2 <= roll <= 12,
        0 <= k < boards[board].rolls@[roll - 2].boards@.len(),
    ensures
        ({
            let next = boards[board].rolls@[roll - 2].boards@[k];
            &&& next & !(board as u16) == 0
            &&& next != board
            &&& board_value(board as nat) - board_value(next as nat) == roll
        }),
{
    let listed = boards[board].rolls@[roll - 2];
    assert(boards[board].board == board && boards[board].is_complete());
    let next = listed.boards@[k];
    assert(listed.boards@.contains(next));
    lemma_submask_bits(next, board as u16);
}

/// No roll lists the board it was rolled on: every move changes the board.
pub proof fn lemma_moves_change_the_board(boards: Seq<Board>, board: int)
    requires
        is_board_table(boards),
        0 <= board < 512,
    ensures
        forall|ri: int, k: int|
            0 <= ri < 11 && 0 <= k < boards[board].rolls@[ri].boards@.len() ==> #[trigger] boards[board].rolls@[ri].boards@[k]
                != board,
{
    assert(boards[board].board == board && boards[board].is_complete());
    assert forall|ri: int, k: int|
        0 <= ri < 11 && 0 <= k < boards[board].rolls@[ri].boards@.len() implies #[trigger] boards[board].rolls@[ri].boards@[k]
            != board by {
        assert(boards[board].rolls@[ri].boards@.contains(boards[board].rolls@[ri].boards@[k]));
    }
}

/// How many of the two-die outcomes below `n` show the roll with index `roll_index`.
pub open spec fn outcomes_showing(roll_index: nat, n: nat) -> nat
    decreases n,
{
    if n == 0 {
        0
    } else {
        outcomes_showing(roll_index, (n - 1) as nat) + (if roll_index_of((n - 1) as nat)
            == roll_index {
            1nat
        } else {
            0
        })
    }
}

/// How many of the 36 outcomes of two dice add up to the roll with index `roll_index`: 1, 2, 3,
/// 4, 5, 6, 5, 4, 3, 2, 1 for the sums 2 to 12.
pub open spec fn dice_frequency(roll_index: nat) -> nat {
    if roll_index <= 5 {
        roll_index + 1
    } else {
        (11 - roll_index) as nat
    }
}

/// How many first dice below `first` leave a second die that makes the roll with index
/// `roll_index`.
spec fn first_dice_fitting(roll_index: nat, first: nat) -> nat
    decreases first,
{
    if first == 0 {
        0
    } else {
        let a = (first - 1) as nat;
        first_dice_fitting(roll_index, a) + (if a <= roll_index <= a + 5 {
            1nat
        } else {
            0
        })
    }
}

proof fn lemma_outcomes_by_first_die(roll_index: nat, first: nat)
    ensures
        outcomes_showing(roll_index, 6 * first) == first_dice_fitting(roll_index, first),
    decreases first,
{
    if first > 0 {
        let a = (first - 1) as nat;
        lemma_outcomes_by_first_die(roll_index, a);
        let base = 6 * a;
        assert(roll_index_of(base) == a);
        assert(roll_index_of(base + 1) == a + 1);
        assert(roll_index_of(base + 2) == a + 2);
        assert(roll_index_of(base + 3) == a + 3);
        assert(roll_index_of(base + 4) == a + 4);
        assert(roll_index_of(base + 5) == a + 5);
        reveal_with_fuel(outcomes_showing, 7);
        assert(6 * first == base + 6);
    }
}

/// Of the 36 equally likely two-die outcomes that the sampler draws from, the number that show
/// each roll is the number of ways two dice make its sum: 1, 2, 3, 4, 5, 6, 5, 4, 3, 2, 1 for the
/// sums 2 to 12. So over many draws each roll comes up with frequency proportional to these.
pub proof fn lemma_dice_frequencies(roll_index: nat)
    requires
        roll_index < 11,
    ensures
        outcomes_showing(roll_index, DICE_OUTCOMES as nat) == dice_frequency(roll_index),
{
    lemma_outcomes_by_first_die(roll_index, 6);
    reveal_with_fuel(first_dice_fitting, 7);
}

} // verus!
