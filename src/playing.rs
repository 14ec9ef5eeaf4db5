//! Simulated games: random play from a board until no move is left, and paired matches.
use crate::board::{is_board_table, Board};
use crate::pieces::{
    board_value, is_move, is_stuck, lemma_nonzero_counts, lemma_submask_split, lemma_value_bound,
    popcount,
};
use crate::random::random_seed;
use fastrand::Rng;
use vstd::prelude::*;

verus! {

/// One decision of a game: the board it was made on, the dice sum rolled, and the board chosen,
/// `None` when the roll left no move.
#[derive(Clone, Copy, PartialEq, Eq, Structural, Hash, Debug)]
pub struct Choice {
    pub root_board: u16,
    pub roll: u8,
    pub chosen_board: Option<u16>,
}

impl Choice {
    /// Records the board chosen.
    pub fn set_chosen_board(&mut self, chosen_board: u16)
        ensures
            final(self).root_board == old(self).root_board,
            final(self).roll == old(self).roll,
            final(self).chosen_board == Some(chosen_board),
    {
        self.chosen_board = Some(chosen_board);
    }

    /// The roll left no move, so the game ended here.
    pub fn is_dying_choice(&self) -> (r: bool)
        ensures
            r == (self.chosen_board is None),
    {
        self.chosen_board.is_none()
    }
}

/// The outcome of a game against its paired game.
#[allow(non_camel_case_types)]
#[derive(Clone, Copy, PartialEq, Eq, Structural, Debug)]
pub enum Result {
    WIN,
    DRAW,
    LOSS,
}

/// The score of an outcome: 1000 for a win, 500 for a draw, 0 for a loss.
pub open spec fn points_of(result: Result) -> nat {
    match result {
        Result::WIN => 1000,
        Result::DRAW => 500,
        Result::LOSS => 0,
    }
}

/// The outcomes of two paired games: the lower residual value wins, equal values draw.
pub open spec fn pair_outcome(first: nat, second: nat) -> (Result, Result) {
    if first < second {
        (Result::WIN, Result::LOSS)
    } else if first > second {
        (Result::LOSS, Result::WIN)
    } else {
        (Result::DRAW, Result::DRAW)
    }
}

impl Result {
    pub fn points(self) -> (r: u32)
        ensures
            r == points_of(self),
    {
        match self {
            Result::WIN => 1000,
            Result::DRAW => 500,
            Result::LOSS => 0,
        }
    }
}

/// The decisions of one game and its outcome against the game it was paired with.
pub struct Games {
    pub moves: Vec<Choice>,
    pub result: Result,
}

impl Games {
    pub fn new(moves: Vec<Choice>, result: Result) -> (r: Games)
        ensures
            r.moves@ == moves@,
            r.result == result,
    {
        Games { moves, result }
    }
}

/// `moves` is a game played from `start` to its end: each decision is made on a board of the table,
/// the board that the one before chose, every chosen board is a move for its roll, every roll is a
/// dice sum, and the last roll left no move.
pub open spec fn is_played_game(start: nat, moves: Seq<Choice>) -> bool {
    &&& moves.len() >= 1
    &&& moves[0].root_board == start
    &&& forall|i: int|
        0 <= i < moves.len() ==> 2 <= (#[trigger] moves[i]).roll <= 12 && moves[i].root_board < 512
    &&& forall|i: int|
        0 <= i < moves.len() - 1 ==> (#[trigger] moves[i]).chosen_board == Some(
            moves[i + 1].root_board,
        ) && is_move(moves[i].root_board as nat, moves[i].roll as nat, moves[i + 1].root_board as nat)
    &&& moves.last().chosen_board is None
    &&& is_stuck(moves.last().root_board as nat, moves.last().roll as nat)
}

/// What is left on the last board of a game.
pub open spec fn final_value(moves: Seq<Choice>) -> nat {
    board_value(moves.last().root_board as nat)
}

/// Scores two paired games from their residual values.
pub fn score_pair(first: u8, second: u8) -> (r: (Result, Result))
    ensures
        r == pair_outcome(first as nat, second as nat),
{
    if first < second {
        (Result::WIN, Result::LOSS)
    } else if second < first {
        (Result::LOSS, Result::WIN)
    } else {
        (Result::DRAW, Result::DRAW)
    }
}

/// Plays from `board` until a roll leaves no move, each roll drawn from `roll_rng` and each move
/// from `board_rng`; returns the residual value and the decisions made. Every decision but the
/// last knocks down at least one piece, so a game holds at most one decision more than the
/// pieces alive at its start, and never more than 10.
pub fn simulate(boards: &Vec<Board>, board: &Board, roll_rng: &mut Rng, board_rng: &mut Rng) -> (r:
    (u8, Vec<Choice>))
    requires
        is_board_table(boards@),
        board.is_complete(),
    ensures
        is_played_game(board.board as nat, r.1@),
        r.0 == final_value(r.1@),
        r.1@.len() <= popcount(board.board as nat) + 1,
        r.1@.len() <= 10,
{
    let ghost start = board.board as nat;
    let mut choices: Vec<Choice> = Vec::new();
    let mut current: &Board = board;
    proof {
        vstd::arithmetic::power2::lemma2_to64();
        lemma_value_bound(start, 1, 9);
    }
    loop
        invariant
            is_board_table(boards@),
            current.is_complete(),
            start == board.board as nat,
            popcount(start) <= 9,
            choices@.len() + popcount(current.board as nat) <= popcount(start),
            choices@.len() == 0 ==> current.board == start,
            choices@.len() > 0 ==> choices@[0].root_board == start,
            choices@.len() > 0 ==> choices@.last().chosen_board == Some(current.board),
            choices@.len() > 0 ==> is_move(
                choices@.last().root_board as nat,
                choices@.last().roll as nat,
                current.board as nat,
            ),
            forall|i: int|
                0 <= i < choices@.len() ==> 2 <= (#[trigger] choices@[i]).roll <= 12
                    && choices@[i].root_board < 512,
            forall|i: int|
                0 <= i < choices@.len() - 1 ==> (#[trigger] choices@[i]).chosen_board == Some(
                    choices@[i + 1].root_board,
                ) && is_move(
                    choices@[i].root_board as nat,
                    choices@[i].roll as nat,
                    choices@[i + 1].root_board as nat,
                ),
        decreases popcount(current.board as nat),
    {
        let ghost before = choices@;
        let rand_roll = current.get_rand_roll(roll_rng);
        let mut choice = Choice {
            root_board: current.get_raw(),
            roll: rand_roll.roll_value,
            chosen_board: None,
        };
        match rand_roll.get_rand_board(board_rng) {
            None => {
                choices.push(choice);
                proof {
                    let b = current.board as nat;
                    let roll = rand_roll.roll_value as nat;
                    assert forall|next: nat| !#[trigger] is_move(b, roll, next) by {
                        if is_move(b, roll, next) {
                            lemma_submask_split(next, b, 1);
                            assert(rand_roll.boards@.contains(next as u16));
                        }
                    }
                    assert forall|i: int| 0 <= i < choices@.len() - 1 implies (#[trigger] choices@[
                        i
                    ]).chosen_board == Some(choices@[i + 1].root_board) && is_move(
                        choices@[i].root_board as nat,
                        choices@[i].roll as nat,
                        choices@[i + 1].root_board as nat,
                    ) by {
                        assert(choices@[i] == before[i]);
                        if i < before.len() - 1 {
                            assert(choices@[i + 1] == before[i + 1]);
                        } else {
                            assert(choices@[i + 1] == choice);
                        }
                    }
                    assert(choices@.last() == choice);
                    assert(choices@[0].root_board == start);
                    assert(forall|i: int|
                        0 <= i < choices@.len() ==> 2 <= (#[trigger] choices@[i]).roll <= 12
                            && choices@[i].root_board < 512);
                }
                return (current.calculate_value(), choices);
            },
            Some(rand_board) => {
                choice.set_chosen_board(rand_board);
                choices.push(choice);
                proof {
                    let b = current.board as nat;
                    let next = rand_board as nat;
                    assert(is_move(b, rand_roll.roll_value as nat, next));
                    lemma_submask_split(next, b, 1);
                    lemma_nonzero_counts((b - next) as nat, 1);
                    assert forall|i: int| 0 <= i < choices@.len() - 1 implies (#[trigger] choices@[
                        i
                    ]).chosen_board == Some(choices@[i + 1].root_board) && is_move(
                        choices@[i].root_board as nat,
                        choices@[i].roll as nat,
                        choices@[i + 1].root_board as nat,
                    ) by {
                        assert(choices@[i] == before[i]);
                        if i < before.len() - 1 {
                            assert(choices@[i + 1] == before[i + 1]);
                        } else {
                            assert(choices@[i + 1] == choice);
                        }
                    }
                }
                current = &boards[rand_board as usize];
            },
        }
    }
}

/// Plays two games from `board` that see the same rolls but choose their moves independently,
/// and scores them against each other.
pub fn run_game(boards: &Vec<Board>, board: &Board) -> (r: (Games, Games))
    requires
        is_board_table(boards@),
        board.is_complete(),
    ensures
        is_played_game(board.board as nat, r.0.moves@),
        is_played_game(board.board as nat, r.1.moves@),
        r.0.moves@.len() <= 10,
        r.1.moves@.len() <= 10,
        (r.0.result, r.1.result) == pair_outcome(final_value(r.0.moves@), final_value(r.1.moves@)),
{
    // Both games replay the rolls of one seed.
    let rand_seed = random_seed();
    let mut roll_rng_1 = Rng::with_seed(rand_seed);
    let mut rng_1 = Rng::with_seed(random_seed());
    let first_game = simulate(boards, board, &mut roll_rng_1, &mut rng_1);
    let mut roll_rng_2 = Rng::with_seed(rand_seed);
    let mut rng_2 = Rng::with_seed(random_seed());
    let second_game = simulate(boards, board, &mut roll_rng_2, &mut rng_2);
    let (first_result, second_result) = score_pair(first_game.0, second_game.0);
    (Games::new(first_game.1, first_result), Games::new(second_game.1, second_result))
}

} // verus!
