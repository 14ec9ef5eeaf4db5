//! Outcome scores gathered per choice over many games, and their reduction to one best move per
//! board and roll.
use crate::board::{get_boards, get_rand_board, is_board_table, Board};
use crate::board_roll::{dice_value, lemma_sum_byte, sum_byte, BoardRoll, DiceRoll};
use crate::pieces::is_move;
use crate::playing::{is_played_game, run_game, Choice, Games};
use vstd::arithmetic::div_mod::{lemma_div_is_ordered, lemma_div_multiples_vanish};
use vstd::prelude::*;

verus! {

/// The number of (board, roll) pairs: 512 boards times the 11 rolls from 2 to 12.
pub const GROUPS: usize = 5632;

/// The most observations one weight may count, so that a total of scores of at most 1000 each
/// fits in a `u64`.
pub const MAX_USES: u64 = 18_446_744_073_709_551;

/// The sum of the scores a choice earned and the number of games that made it; the average is
/// taken once, at the end.
#[derive(Clone, Copy, Debug)]
pub struct Weight {
    pub total: u64,
    pub used: u64,
}

impl Weight {
    /// Counts one more game, which scored `amount`.
    pub fn inc(&mut self, amount: u32)
        requires
            old(self).total + amount <= u64::MAX,
            old(self).used < u64::MAX,
        ensures
            final(self).total == old(self).total + amount,
            final(self).used == old(self).used + 1,
    {
        self.total = self.total + amount as u64;
        self.used = self.used + 1;
    }

    /// Adds the games counted in `other`.
    pub fn combine(&mut self, other: &Weight)
        requires
            old(self).total + other.total <= u64::MAX,
            old(self).used + other.used <= u64::MAX,
        ensures
            final(self).total == old(self).total + other.total,
            final(self).used == old(self).used + other.used,
    {
        self.total = self.total + other.total;
        self.used = self.used + other.used;
    }

    /// The average score, rounded down.
    pub fn calculate(&self) -> (r: u16)
        requires
            self.used > 0,
            self.total / self.used <= u16::MAX,
        ensures
            r == self.total / self.used,
    {
        (self.total / self.used) as u16
    }
}

/// The slot of the weight of choosing the `successor`-th board of roll `roll_index` on `board`.
pub open spec fn slot(stride: nat, board: nat, roll_index: nat, successor: nat) -> nat {
    (board * 11 + roll_index) * stride + successor
}

/// The choice that a slot stands for.
pub open spec fn slot_choice(boards: Seq<Board>, board: nat, roll_index: nat, successor: nat) -> Choice {
    Choice {
        root_board: board as u16,
        roll: (roll_index + 2) as u8,
        chosen_board: Some(boards[board as int].rolls@[roll_index as int].boards@[successor as int]),
    }
}

/// The most moves that any of the first `groups` (board, roll) pairs allows, and at least 1.
pub open spec fn widest(boards: Seq<Board>, groups: nat) -> nat
    decreases groups,
{
    if groups == 0 {
        1
    } else {
        let g = (groups - 1) as nat;
        let n = boards[(g / 11) as int].rolls@[(g % 11) as int].boards@.len();
        if n > widest(boards, g) {
            n
        } else {
            widest(boards, g)
        }
    }
}

/// How many times `choice` occurs in `moves`.
pub open spec fn count_choice(moves: Seq<Choice>, choice: Choice) -> nat
    decreases moves.len(),
{
    if moves.len() == 0 {
        0
    } else {
        count_choice(moves.drop_last(), choice) + (if moves.last() == choice {
            1nat
        } else {
            0
        })
    }
}

/// Every choice in `moves` that chose a board chose a move of a board of the table.
pub open spec fn chooses_moves(moves: Seq<Choice>) -> bool {
    forall|i: int|
        0 <= i < moves.len() && (#[trigger] moves[i]).chosen_board is Some ==> {
            &&& moves[i].root_board < 512
            &&& 2 <= moves[i].roll <= 12
            &&& is_move(
                moves[i].root_board as nat,
                moves[i].roll as nat,
                moves[i].chosen_board->0 as nat,
            )
        }
}

/// The weights of every choice that the board table allows, `stride` slots for each board and
/// roll.
pub struct WeightTable {
    pub stride: usize,
    pub weights: Vec<Weight>,
}

impl WeightTable {
    /// The layout leaves a slot for every move of every board and roll of `boards`.
    pub open spec fn fits(&self, boards: Seq<Board>) -> bool {
        &&& 1 <= self.stride <= 512
        &&& self.weights@.len() == GROUPS * self.stride
        &&& forall|b: int, ri: int|
            0 <= b < 512 && 0 <= ri < 11 ==> (#[trigger] boards[b].rolls@[ri]).boards@.len()
                <= self.stride
    }

    /// Each weight counts at most `cap` games, each of which scored at most 1000.
    pub open spec fn bounded(&self, cap: nat) -> bool {
        forall|i: int|
            0 <= i < self.weights@.len() ==> (#[trigger] self.weights@[i]).used <= cap
                && self.weights@[i].total <= 1000 * self.weights@[i].used
    }

    /// The weight of choosing the `successor`-th board of roll `roll_index` on `board`.
    pub open spec fn at(&self, board: nat, roll_index: nat, successor: nat) -> Weight {
        self.weights@[slot(self.stride as nat, board, roll_index, successor) as int]
    }

    /// An empty table laid out for `boards`.
    pub fn new(boards: &Vec<Board>) -> (r: WeightTable)
        requires
            is_board_table(boards@),
        ensures
            r.fits(boards@),
            r.stride == widest(boards@, GROUPS as nat),
            r.bounded(0),
            forall|i: int|
                0 <= i < r.weights@.len() ==> (#[trigger] r.weights@[i]).used == 0
                    && r.weights@[i].total == 0,
    {
        let mut stride: usize = 1;
        let mut group: usize = 0;
        while group < GROUPS
            invariant
                is_board_table(boards@),
                group <= GROUPS,
                1 <= stride <= 512,
                stride == widest(boards@, group as nat),
                forall|g: int|
                    0 <= g < group ==> (#[trigger] boards@[g / 11].rolls@[g % 11]).boards@.len()
                        <= stride,
            decreases GROUPS - group,
        {
            let roll = &boards[group / 11].rolls[group % 11];
            if roll.boards.len() > stride {
                stride = roll.boards.len();
            }
            group = group + 1;
        }
        proof {
            assert forall|b: int, ri: int|
                0 <= b < 512 && 0 <= ri < 11 implies (#[trigger] boards@[b].rolls@[ri]).boards@.len()
                    <= stride by {
                let g = b * 11 + ri;
                assert(g / 11 == b && g % 11 == ri);
            }
        }
        let size = GROUPS * stride;
        let weights = vec![Weight { total: 0, used: 0 }; size];
        WeightTable { stride, weights }
    }
}

proof fn lemma_slot_unique(stride: nat, b1: nat, r1: nat, s1: nat, b2: nat, r2: nat, s2: nat)
    requires
        r1 < 11,
        r2 < 11,
        s1 < stride,
        s2 < stride,
        slot(stride, b1, r1, s1) == slot(stride, b2, r2, s2),
    ensures
        b1 == b2,
        r1 == r2,
        s1 == s2,
{
    let g1 = b1 * 11 + r1;
    let g2 = b2 * 11 + r2;
    if g1 < g2 {
        assert(g1 * stride + s1 < g2 * stride) by (nonlinear_arith)
            requires
                g1 < g2,
                s1 < stride,
        ;
    }
    if g2 < g1 {
        assert(g2 * stride + s2 < g1 * stride) by (nonlinear_arith)
            requires
                g2 < g1,
                s2 < stride,
        ;
    }
}

proof fn lemma_slot_bound(stride: nat, b: nat, ri: nat, si: nat)
    requires
        b < 512,
        ri < 11,
        si < stride,
    ensures
        slot(stride, b, ri, si) < GROUPS * stride,
{
    let g = b * 11 + ri;
    assert(g * stride + si < GROUPS * stride) by (nonlinear_arith)
        requires
            g < GROUPS,
            si < stride,
    ;
}

/// Adds the outcome of one game to the weights: every choice in it that chose a board gains
/// `value` and one more use; choices that ended the game are left out.
pub fn update_weights(boards: &Vec<Board>, game: Games, value: u32, win_weights: &mut WeightTable)
    requires
        is_board_table(boards@),
        old(win_weights).fits(boards@),
        game.moves@.len() <= MAX_USES,
        old(win_weights).bounded((MAX_USES - game.moves@.len()) as nat),
        value <= 1000,
        chooses_moves(game.moves@),
    ensures
        final(win_weights).stride == old(win_weights).stride,
        final(win_weights).fits(boards@),
        forall|i: int|
            #![trigger final(win_weights).weights@[i]]
            0 <= i < final(win_weights).weights@.len() ==> {
                let w = final(win_weights).weights@[i];
                w.used <= old(win_weights).weights@[i].used + game.moves@.len() && w.total <= 1000
                    * w.used
            },
        forall|b: nat, ri: nat, si: nat|
            b < 512 && ri < 11 && si < boards@[b as int].rolls@[ri as int].boards@.len() ==> {
                let c = count_choice(game.moves@, slot_choice(boards@, b, ri, si));
                &&& #[trigger] final(win_weights).at(b, ri, si).total == old(win_weights).at(
                    b,
                    ri,
                    si,
                ).total + value * c
                &&& final(win_weights).at(b, ri, si).used == old(win_weights).at(b, ri, si).used
                    + c
            },
{
    let ghost w0 = win_weights.weights@;
    let ghost stride = win_weights.stride as nat;
    let moves = game.moves;
    let mut k: usize = 0;
    assert(moves@.take(0).len() == 0);
    proof {
        assert forall|b: nat, ri: nat, si: nat|
            b < 512 && ri < 11 && si < boards@[b as int].rolls@[ri as int].boards@.len() implies {
                let c = count_choice(moves@.take(0), slot_choice(boards@, b, ri, si));
                let w = w0[slot(stride, b, ri, si) as int];
                &&& #[trigger] win_weights.at(b, ri, si).total == w.total + value * c
                &&& win_weights.at(b, ri, si).used == w.used + c
            } by {
            assert(count_choice(moves@.take(0), slot_choice(boards@, b, ri, si)) == 0);
            assert(value * 0 == 0);
        }
    }
    while k < moves.len()
        invariant
            is_board_table(boards@),
            win_weights.fits(boards@),
            win_weights.stride == stride,
            w0.len() == win_weights.weights@.len(),
            k <= moves@.len() <= MAX_USES,
            value <= 1000,
            chooses_moves(moves@),
            forall|i: int| 0 <= i < w0.len() ==> (#[trigger] w0[i]).used <= MAX_USES - moves@.len(),
            forall|i: int|
                0 <= i < w0.len() ==> (#[trigger] win_weights.weights@[i]).used <= w0[i].used + k
                    && win_weights.weights@[i].total <= 1000 * win_weights.weights@[i].used,
            forall|b: nat, ri: nat, si: nat|
                b < 512 && ri < 11 && si < boards@[b as int].rolls@[ri as int].boards@.len() ==> {
                    let c = count_choice(moves@.take(k as int), slot_choice(boards@, b, ri, si));
                    let w = w0[slot(stride, b, ri, si) as int];
                    &&& #[trigger] win_weights.at(b, ri, si).total == w.total + value * c
                    &&& win_weights.at(b, ri, si).used == w.used + c
                },
        decreases moves@.len() - k,
    {
        let ghost before = win_weights.weights@;
        let game_move = moves[k];
        assert(moves@.take(k + 1).drop_last() == moves@.take(k as int));
        assert(moves@.take(k + 1).last() == game_move);
        if !game_move.is_dying_choice() {
            assert(moves@[k as int] == game_move);
            let chosen = game_move.chosen_board.unwrap();
            let root = game_move.root_board as usize;
            let ri = (game_move.roll - 2) as usize;
            let roll = &boards[root].rolls[ri];
            assert(roll.boards@.contains(chosen));
            let mut si: usize = 0;
            while si < roll.boards.len() && roll.boards[si] != chosen
                invariant
                    si <= roll.boards@.len(),
                    roll.boards@.contains(chosen),
                    forall|j: int| 0 <= j < si ==> roll.boards@[j] != chosen,
                decreases roll.boards@.len() - si,
            {
                si = si + 1;
            }
            assert(si < roll.boards@.len());
            assert(roll.boards@.len() <= stride);
            proof {
                lemma_slot_bound(stride, root as nat, ri as nat, si as nat);
                assert((root * 11 + ri) * stride + si < win_weights.weights@.len());
            }
            let index = (root * 11 + ri) * win_weights.stride + si;
            proof {
                assert forall|b: nat, ri2: nat, si2: nat|
                    b < 512 && ri2 < 11 && si2 < boards@[b as int].rolls@[ri2 as int].boards@.len()
                        implies {
                        let c = count_choice(
                            moves@.take(k as int),
                            slot_choice(boards@, b, ri2, si2),
                        );
                        let w = w0[slot(stride, b, ri2, si2) as int];
                        &&& before[#[trigger] slot(stride, b, ri2, si2) as int].total == w.total + value
                            * c
                        &&& before[slot(stride, b, ri2, si2) as int].used == w.used + c
                    } by {
                    assert(win_weights.at(b, ri2, si2) == before[slot(stride, b, ri2, si2) as int]);
                }
            }
            win_weights.weights[index].inc(value);
            proof {
                assert forall|b: nat, ri2: nat, si2: nat|
                    b < 512 && ri2 < 11 && si2 < boards@[b as int].rolls@[ri2 as int].boards@.len()
                        implies {
                        let c = count_choice(
                            moves@.take(k + 1),
                            slot_choice(boards@, b, ri2, si2),
                        );
                        let w = w0[slot(stride, b, ri2, si2) as int];
                        &&& #[trigger] win_weights.at(b, ri2, si2).total == w.total + value * c
                        &&& win_weights.at(b, ri2, si2).used == w.used + c
                    } by {
                    let cc = slot_choice(boards@, b, ri2, si2);
                    let c0 = count_choice(moves@.take(k as int), cc);
                    assert(count_choice(moves@.take(k + 1), cc) == c0 + (if game_move == cc {
                        1nat
                    } else {
                        0
                    }));
                    lemma_slot_bound(stride, b, ri2, si2);
                    let sl = slot(stride, b, ri2, si2) as int;
                    assert(win_weights.at(b, ri2, si2) == win_weights.weights@[sl]);
                    if sl != index {
                        assert(win_weights.weights@[sl] == before[sl]);
                    }
                    if slot(stride, b, ri2, si2) == index {
                        lemma_slot_unique(stride, b, ri2, si2, root as nat, ri as nat, si as nat);
                        assert(slot_choice(boards@, b, ri2, si2) == game_move);
                        assert(value * (c0 + 1) == value * c0 + value) by (nonlinear_arith);
                    } else {
                        if slot_choice(boards@, b, ri2, si2) == game_move {
                            assert(b == root && ri2 == ri);
                            assert(roll.boards@[si2 as int] == roll.boards@[si as int]);
                        }
                    }
                }
            }
        } else {
            proof {
                assert forall|b: nat, ri2: nat, si2: nat|
                    b < 512 && ri2 < 11 && si2 < boards@[b as int].rolls@[ri2 as int].boards@.len()
                        implies {
                        let c = count_choice(
                            moves@.take(k + 1),
                            slot_choice(boards@, b, ri2, si2),
                        );
                        let w = w0[slot(stride, b, ri2, si2) as int];
                        &&& #[trigger] win_weights.at(b, ri2, si2).total == w.total + value * c
                        &&& win_weights.at(b, ri2, si2).used == w.used + c
                    } by {
                    let cc = slot_choice(boards@, b, ri2, si2);
                    assert(cc != game_move);
                    let c0 = count_choice(moves@.take(k as int), cc);
                    assert(count_choice(moves@.take(k + 1), cc) == c0);
                    let w = w0[slot(stride, b, ri2, si2) as int];
                    assert(win_weights.at(b, ri2, si2).total == w.total + value * c0);
                    assert(win_weights.at(b, ri2, si2).used == w.used + c0);
                }
            }
        }
        k = k + 1;
    }
    assert(moves@.take(k as int) == moves@);
}

impl WeightTable {
    /// Adds the weights of `other`, laid out the same way, slot by slot.
    pub fn combine(&mut self, other: &WeightTable)
        requires
            old(self).stride == other.stride,
            old(self).weights@.len() == other.weights@.len(),
            old(self).bounded(MAX_USES as nat),
            other.bounded(MAX_USES as nat),
            forall|i: int|
                0 <= i < other.weights@.len() ==> (#[trigger] old(self).weights@[i]).used
                    + other.weights@[i].used <= MAX_USES,
        ensures
            final(self).stride == old(self).stride,
            final(self).weights@.len() == old(self).weights@.len(),
            forall|i: int|
                #![trigger final(self).weights@[i]]
                0 <= i < other.weights@.len() ==> final(self).weights@[i].total == old(
                    self,
                ).weights@[i].total + other.weights@[i].total && final(self).weights@[i].used
                    == old(self).weights@[i].used + other.weights@[i].used,
    {
        let ghost w0 = self.weights@;
        let mut i: usize = 0;
        while i < other.weights.len()
            invariant
                self.stride == other.stride,
                self.weights@.len() == other.weights@.len() == w0.len(),
                i <= other.weights@.len(),
                other.bounded(MAX_USES as nat),
                forall|j: int|
                    0 <= j < w0.len() ==> (#[trigger] w0[j]).used + other.weights@[j].used
                        <= MAX_USES && w0[j].total <= 1000 * w0[j].used,
                forall|j: int| i <= j < w0.len() ==> #[trigger] self.weights@[j] == w0[j],
                forall|j: int|
                    0 <= j < i ==> (#[trigger] self.weights@[j]).total == w0[j].total
                        + other.weights@[j].total && self.weights@[j].used == w0[j].used
                        + other.weights@[j].used,
            decreases other.weights@.len() - i,
        {
            assert(other.weights@[i as int].total <= 1000 * other.weights@[i as int].used);
            self.weights[i].combine(&other.weights[i]);
            i = i + 1;
        }
    }
}

/// A game played to its end chooses only moves, and its last decision chose nothing.
proof fn lemma_played_game_chooses_moves(start: nat, moves: Seq<Choice>)
    requires
        is_played_game(start, moves),
    ensures
        chooses_moves(moves),
{
    assert forall|i: int|
        0 <= i < moves.len() && (#[trigger] moves[i]).chosen_board is Some implies {
            &&& moves[i].root_board < 512
            &&& 2 <= moves[i].roll <= 12
            &&& is_move(
                moves[i].root_board as nat,
                moves[i].roll as nat,
                moves[i].chosen_board->0 as nat,
            )
        } by {
        if i == moves.len() - 1 {
            assert(moves[i] == moves.last());
        }
    }
}

/// Plays `games_to_play` paired matches from boards picked at random and gathers the scores of
/// every choice made in them.
pub fn play_games(boards: &Vec<Board>, games_to_play: u32) -> (r: WeightTable)
    requires
        is_board_table(boards@),
    ensures
        r.fits(boards@),
        r.stride == widest(boards@, GROUPS as nat),
        r.bounded(20 * games_to_play as nat),
{
    let mut win_weights = WeightTable::new(boards);
    let mut played: u32 = 0;
    while played < games_to_play
        invariant
            is_board_table(boards@),
            win_weights.fits(boards@),
            win_weights.stride == widest(boards@, GROUPS as nat),
            played <= games_to_play,
            win_weights.bounded(20 * played as nat),
        decreases games_to_play - played,
    {
        let board = get_rand_board(boards);
        let (game_one, game_two) = run_game(boards, board);
        proof {
            lemma_played_game_chooses_moves(board.board as nat, game_one.moves@);
            lemma_played_game_chooses_moves(board.board as nat, game_two.moves@);
        }
        let one = game_one.result.points();
        let two = game_two.result.points();
        let ghost len_one = game_one.moves@.len();
        let ghost len_two = game_two.moves@.len();
        let ghost w0 = win_weights.weights@;
        update_weights(boards, game_one, one, &mut win_weights);
        let ghost w1 = win_weights.weights@;
        update_weights(boards, game_two, two, &mut win_weights);
        assert forall|i: int| 0 <= i < win_weights.weights@.len() implies (
        #[trigger] win_weights.weights@[i]).used <= 20 * (played + 1) && win_weights.weights@[i].total
            <= 1000 * win_weights.weights@[i].used by {
            assert(w0[i].used <= 20 * played);
            assert(w1[i].used <= w0[i].used + len_one);
        }
        played = played + 1;
    }
    win_weights
}

/// The best of the first `n` boards that roll `roll_index` allows on `board`, with its average:
/// only boards that were chosen count, a higher average replaces the best so far, and on equal
/// averages the earlier board stays.
pub open spec fn best_pick(
    boards: Seq<Board>,
    stride: nat,
    weights: Seq<Weight>,
    board: nat,
    roll_index: nat,
    n: nat,
) -> Option<(u16, nat)>
    decreases n,
{
    if n == 0 {
        None
    } else {
        let previous = best_pick(boards, stride, weights, board, roll_index, (n - 1) as nat);
        let weight = weights[slot(stride, board, roll_index, (n - 1) as nat) as int];
        let candidate = boards[board as int].rolls@[roll_index as int].boards@[n - 1];
        if weight.used == 0 {
            previous
        } else {
            let average = weight.total as nat / weight.used as nat;
            match previous {
                Some(best) => if average > best.1 {
                    Some((candidate, average))
                } else {
                    previous
                },
                None => Some((candidate, average)),
            }
        }
    }
}

/// The best move for the `group`-th (board, roll) pair, pairs ordered by board, then roll.
pub open spec fn group_best(boards: Seq<Board>, stride: nat, weights: Seq<Weight>, group: nat) -> Option<
    (u16, nat),
> {
    best_pick(
        boards,
        stride,
        weights,
        group / 11,
        group % 11,
        boards[(group / 11) as int].rolls@[(group % 11) as int].boards@.len(),
    )
}

/// The move table drawn from the weights for the first `groups` (board, roll) pairs, in order; a
/// pair whose moves were never chosen has no entry.
pub open spec fn reduced(boards: Seq<Board>, stride: nat, weights: Seq<Weight>, groups: nat) -> Seq<
    (BoardRoll, u16),
>
    decreases groups,
{
    if groups == 0 {
        seq![]
    } else {
        let g = (groups - 1) as nat;
        let previous = reduced(boards, stride, weights, g);
        match group_best(boards, stride, weights, g) {
            Some(best) => previous.push(
                (
                    BoardRoll {
                        board: (g / 11) as u16,
                        roll: DiceRoll(sum_byte((g % 11 + 2) as u8)),
                    },
                    best.0,
                ),
            ),
            None => previous,
        }
    }
}

/// Collapses the weights to one move per board and roll: the chosen move with the highest average
/// score, the earliest listed on equal averages.
pub fn reduce(boards: &Vec<Board>, win_weights: &WeightTable) -> (r: Vec<(BoardRoll, u16)>)
    requires
        is_board_table(boards@),
        win_weights.fits(boards@),
        win_weights.bounded(MAX_USES as nat),
    ensures
        r@ == reduced(boards@, win_weights.stride as nat, win_weights.weights@, GROUPS as nat),
        is_move_table(r@),
{
    let ghost stride = win_weights.stride as nat;
    let ghost ws = win_weights.weights@;
    let mut choice_map: Vec<(BoardRoll, u16)> = Vec::new();
    let mut group: usize = 0;
    while group < GROUPS
        invariant
            is_board_table(boards@),
            win_weights.fits(boards@),
            win_weights.bounded(MAX_USES as nat),
            stride == win_weights.stride,
            ws == win_weights.weights@,
            group <= GROUPS,
            choice_map@ == reduced(boards@, stride, ws, group as nat),
        decreases GROUPS - group,
    {
        let board = group / 11;
        let roll_index = group % 11;
        let roll = &boards[board].rolls[roll_index];
        assert(roll.boards@.len() <= stride);
        let mut best: Option<(u16, u16)> = None;
        let mut si: usize = 0;
        while si < roll.boards.len()
            invariant
                is_board_table(boards@),
                win_weights.fits(boards@),
                win_weights.bounded(MAX_USES as nat),
                stride == win_weights.stride,
                ws == win_weights.weights@,
                group < GROUPS,
                board == group / 11,
                roll_index == group % 11,
                roll == boards@[board as int].rolls@[roll_index as int],
                si <= roll.boards@.len() <= stride,
                match best_pick(boards@, stride, ws, board as nat, roll_index as nat, si as nat) {
                    Some(p) => best == Some((p.0, p.1 as u16)) && p.1 <= 1000,
                    None => best is None,
                },
            decreases roll.boards@.len() - si,
        {
            proof {
                lemma_slot_bound(stride, board as nat, roll_index as nat, si as nat);
                assert(group == board * 11 + roll_index);
            }
            let weight = &win_weights.weights[group * win_weights.stride + si];
            if weight.used > 0 {
                proof {
                    lemma_div_is_ordered(weight.total as int, 1000 * weight.used, weight.used as int);
                    lemma_div_multiples_vanish(1000, weight.used as int);
                }
                let win_average = weight.calculate();
                let replace = match best {
                    Some(existing) => win_average > existing.1,
                    None => true,
                };
                if replace {
                    best = Some((roll.boards[si], win_average));
                }
            }
            si = si + 1;
        }
        if let Some(found) = best {
            proof {
                lemma_sum_byte((roll_index + 2) as u8);
            }
            choice_map.push(
                (BoardRoll::new(board as u16, DiceRoll::from_sum((roll_index + 2) as u8)), found.0),
            );
        }
        group = group + 1;
    }
    proof {
        lemma_reduced_is_move_table(boards@, stride, ws, GROUPS as nat);
    }
    choice_map
}

/// The position of a board roll among the (board, roll) pairs, ordered by board, then roll.
pub open spec fn key_rank(key: BoardRoll) -> int {
    key.board * 11 + dice_value(key.roll.0) - 2
}

/// Every entry of `table` maps a board and a dice sum from 2 to 12 to a move of that board for
/// that sum, and the keys come in increasing order, so each appears once.
pub open spec fn is_move_table(table: Seq<(BoardRoll, u16)>) -> bool {
    &&& forall|i: int|
        0 <= i < table.len() ==> {
            let key = (#[trigger] table[i]).0;
            &&& key.board < 512
            &&& 2 <= dice_value(key.roll.0) <= 12
            &&& is_move(key.board as nat, dice_value(key.roll.0), table[i].1 as nat)
        }
    &&& forall|i: int, j: int|
        0 <= i < j < table.len() ==> key_rank((#[trigger] table[i]).0) < key_rank(
            (#[trigger] table[j]).0,
        )
}

proof fn lemma_best_pick_is_candidate(
    boards: Seq<Board>,
    stride: nat,
    weights: Seq<Weight>,
    board: nat,
    roll_index: nat,
    n: nat,
)
    requires
        n <= boards[board as int].rolls@[roll_index as int].boards@.len(),
    ensures
        best_pick(boards, stride, weights, board, roll_index, n) matches Some(p) ==> boards[board as int].rolls@[roll_index as int].boards@.contains(p.0),
    decreases n,
{
    if n > 0 {
        lemma_best_pick_is_candidate(boards, stride, weights, board, roll_index, (n - 1) as nat);
    }
}

proof fn lemma_reduced_is_move_table(
    boards: Seq<Board>,
    stride: nat,
    weights: Seq<Weight>,
    groups: nat,
)
    requires
        is_board_table(boards),
        groups <= GROUPS,
    ensures
        is_move_table(reduced(boards, stride, weights, groups)),
        forall|i: int|
            0 <= i < reduced(boards, stride, weights, groups).len() ==> key_rank(
                (#[trigger] reduced(boards, stride, weights, groups)[i]).0,
            ) < groups,
    decreases groups,
{
    if groups > 0 {
        let g = (groups - 1) as nat;
        lemma_reduced_is_move_table(boards, stride, weights, g);
        let previous = reduced(boards, stride, weights, g);
        let b = g / 11;
        let ri = g % 11;
        let table_board = boards[b as int];
        assert(table_board.board == b && table_board.is_complete());
        let roll = table_board.rolls@[ri as int];
        lemma_best_pick_is_candidate(boards, stride, weights, b, ri, roll.boards@.len());
        if let Some(best) = group_best(boards, stride, weights, g) {
            let table = reduced(boards, stride, weights, groups);
            let key = BoardRoll { board: b as u16, roll: DiceRoll(sum_byte((ri + 2) as u8)) };
            assert(table == previous.push((key, best.0)));
            lemma_sum_byte((ri + 2) as u8);
            assert(roll.boards@.contains(best.0));
            assert(key_rank(key) == g);
            assert forall|i: int| 0 <= i < table.len() implies {
                let key = (#[trigger] table[i]).0;
                &&& key.board < 512
                &&& 2 <= dice_value(key.roll.0) <= 12
                &&& is_move(key.board as nat, dice_value(key.roll.0), table[i].1 as nat)
            } by {
                if i < previous.len() {
                    assert(table[i] == previous[i]);
                }
            }
            assert forall|i: int, j: int|
                0 <= i < j < table.len() implies key_rank((#[trigger] table[i]).0) < key_rank(
                    (#[trigger] table[j]).0,
                ) by {
                assert(table[i] == previous[i]);
                if j < previous.len() {
                    assert(table[j] == previous[j]);
                }
            }
            assert forall|i: int| 0 <= i < table.len() implies key_rank((#[trigger] table[i]).0)
                < groups by {
                if i < previous.len() {
                    assert(table[i] == previous[i]);
                }
            }
        }
    }
}

proof fn lemma_best_pick_unplayed(
    boards: Seq<Board>,
    stride: nat,
    weights: Seq<Weight>,
    board: nat,
    roll_index: nat,
    n: nat,
)
    requires
        forall|i: int| 0 <= i < weights.len() ==> (#[trigger] weights[i]).used == 0,
        slot(stride, board, roll_index, n) <= weights.len(),
    ensures
        best_pick(boards, stride, weights, board, roll_index, n) is None,
    decreases n,
{
    if n > 0 {
        lemma_best_pick_unplayed(boards, stride, weights, board, roll_index, (n - 1) as nat);
    }
}

/// Weights that no game touched reduce to an empty move table.
proof fn lemma_reduced_unplayed(boards: Seq<Board>, table: &WeightTable, groups: nat)
    requires
        is_board_table(boards),
        table.fits(boards),
        groups <= GROUPS,
        forall|i: int| 0 <= i < table.weights@.len() ==> (#[trigger] table.weights@[i]).used == 0,
    ensures
        reduced(boards, table.stride as nat, table.weights@, groups).len() == 0,
    decreases groups,
{
    if groups > 0 {
        let g = (groups - 1) as nat;
        lemma_reduced_unplayed(boards, table, g);
        let b = g / 11;
        let ri = g % 11;
        let n = boards[b as int].rolls@[ri as int].boards@.len();
        assert(n <= table.stride);
        if n > 0 {
            lemma_slot_bound(table.stride as nat, b, ri, (n - 1) as nat);
        } else {
            assert(slot(table.stride as nat, b, ri, 0) == (b * 11 + ri) * table.stride);
            assert((b * 11 + ri) * table.stride <= GROUPS * table.stride) by (nonlinear_arith)
                requires
                    b * 11 + ri < GROUPS,
            ;
        }
        lemma_best_pick_unplayed(boards, table.stride as nat, table.weights@, b, ri, n);
    }
}

/// Reducing the same weights twice gives the same move table: the result depends on the board
/// table and the weights alone, not on the order in which any map was walked.
pub proof fn lemma_reduction_deterministic(
    boards: Seq<Board>,
    first: &WeightTable,
    second: &WeightTable,
)
    requires
        first.stride == second.stride,
        first.weights@ == second.weights@,
    ensures
        reduced(boards, first.stride as nat, first.weights@, GROUPS as nat) == reduced(
            boards,
            second.stride as nat,
            second.weights@,
            GROUPS as nat,
        ),
{
}

/// Runs `threads` workers of `games_to_play` paired matches each, one after the other, merges
/// the weights they gathered and reduces them to the move table.
pub fn compute(threads: u8, games_to_play: u32) -> (r: Vec<(BoardRoll, u16)>)
    ensures
        is_move_table(r@),
        threads == 0 || games_to_play == 0 ==> r@.len() == 0,
{
    let boards = get_boards();
    let mut win_weights = WeightTable::new(&boards);
    let mut finished_threads: u8 = 0;
    while finished_threads < threads
        invariant
            is_board_table(boards@),
            win_weights.fits(boards@),
            win_weights.stride == widest(boards@, GROUPS as nat),
            finished_threads <= threads,
            win_weights.bounded((20 * games_to_play * finished_threads) as nat),
        decreases threads - finished_threads,
    {
        let thread_map = play_games(&boards, games_to_play);
        proof {
            assert(20 * games_to_play * finished_threads as nat + 20 * games_to_play as nat <= 20
                * 4294967295 * 255) by (nonlinear_arith)
                requires
                    finished_threads < 255,
                    games_to_play <= 4294967295,
            ;
            assert(20 * games_to_play as nat * (finished_threads + 1) == 20 * games_to_play
                * finished_threads as nat + 20 * games_to_play as nat) by (nonlinear_arith);
        }
        let ghost w0 = win_weights.weights@;
        win_weights.combine(&thread_map);
        assert forall|i: int| 0 <= i < win_weights.weights@.len() implies (
        #[trigger] win_weights.weights@[i]).used <= 20 * games_to_play * (finished_threads + 1) as nat
            && win_weights.weights@[i].total <= 1000 * win_weights.weights@[i].used by {
            assert(w0[i].used <= 20 * games_to_play * finished_threads as nat);
            assert(thread_map.weights@[i].used <= 20 * games_to_play as nat);
        }
        finished_threads = finished_threads + 1;
    }
    assert(20 * games_to_play * threads as nat <= MAX_USES) by (nonlinear_arith)
        requires
            threads <= 255,
            games_to_play <= 4294967295,
    ;
    proof {
        if threads == 0 || games_to_play == 0 {
            assert(20 * games_to_play * threads == 0) by (nonlinear_arith)
                requires
                    threads == 0 || games_to_play == 0,
            ;
            lemma_reduced_unplayed(boards@, &win_weights, GROUPS as nat);
        }
    }
    reduce(&boards, &win_weights)
}

} // verus!
