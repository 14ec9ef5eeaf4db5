//! A node of the game tree: a state, the states that lead to it, and the states it leads to.
use crate::game_state::GameState;
use crate::pieces::{
    is_move, lemma_gather_spread, lemma_kept_spread, lemma_piece_list, lemma_spread_gather,
    lemma_spread_submask, lemma_submask_split, lemma_sum_spread, lemma_zero_pick, piece_list,
    popcount, selected_sum, spread, value_from, gather,
};
use crate::roll::Roll;
use vstd::arithmetic::power2::{lemma2_to64, lemma_pow2_pos, pow2};
use vstd::bits::lemma_u16_shl_is_mul;
use vstd::prelude::*;

verus! {

/// A state of the board together with the states that could lead to it and those it leads to.
pub struct GameNode {
    pub state: GameState,
    pub parents: Vec<GameState>,
    pub children: Vec<GameNode>,
}

/// The boards of `children` from position `from` on.
pub open spec fn child_boards(children: Seq<GameNode>, from: int) -> Seq<u16> {
    children.subrange(from, children.len() as int).map_values(|c: GameNode| c.state.board_of())
}

/// `child` is a fresh node reached from `parent` by a move: its dice value is a dice sum, its
/// board a move of the parent's board for that sum, its only parent `parent`, and it has no
/// children yet.
pub open spec fn is_child_of(child: GameNode, parent: GameState) -> bool {
    &&& 2 <= child.state.dice_of() <= 12
    &&& is_move(
        parent.board_of() as nat,
        child.state.dice_of() as nat,
        child.state.board_of() as nat,
    )
    &&& child.parents@ == seq![parent]
    &&& child.children@.len() == 0
}

/// `child` is what a pick below `bound` gives on `board`: its board is what remains once the
/// picked pieces, adding up to a dice sum, are knocked down, and its dice value is that sum.
spec fn picked_below(board: nat, bound: nat, child: GameNode) -> bool {
    exists|v: nat|
        1 <= v < bound && 2 <= value_from(#[trigger] spread(v, board), 1) <= 12
            && child.state.board_of() == board - spread(v, board) && child.state.dice_of()
            == value_from(spread(v, board), 1)
}

impl GameNode {
    /// The root of the tree: every piece alive, no parents, and every move as a child.
    pub fn new_root_node() -> (r: GameNode)
        ensures
            r.state.board_of() == 511,
            r.state.dice_of() == 0,
            r.parents@.len() == 0,
            forall|i: int| 0 <= i < r.children@.len() ==> is_child_of(#[trigger] r.children@[i], r.state),
            forall|d: nat, s: nat|
                2 <= d <= 12 && #[trigger] is_move(511, d, s) ==> exists|i: int|
                    0 <= i < r.children@.len() && (#[trigger] r.children@[i]).state.board_of() == s
                        && r.children@[i].state.dice_of() == d,
            child_boards(r.children@, 0).no_duplicates(),
    {
        let mut root_node = GameNode {
            state: GameState::new_root_state(),
            parents: Vec::new(),
            children: Vec::new(),
        };
        root_node.calculate_children();
        assert(child_boards(root_node.children@, 0) =~= child_boards(root_node.children@, 0));
        root_node
    }

    pub fn get_state(&self) -> (r: &GameState)
        ensures
            *r == self.state,
    {
        &self.state
    }

    pub fn get_children(&self) -> (r: &Vec<GameNode>)
        ensures
            r@ == self.children@,
    {
        &self.children
    }

    pub fn get_parents(&self) -> (r: &Vec<GameState>)
        ensures
            r@ == self.parents@,
    {
        &self.parents
    }

    /// The parents of the node, the node given up.
    pub fn into_parents(self) -> (r: Vec<GameState>)
        ensures
            r@ == self.parents@,
    {
        self.parents
    }

    /// Adds a state that could lead to this one.
    pub fn add_parent(&mut self, parent: GameState)
        ensures
            final(self).parents@ == old(self).parents@.push(parent),
            final(self).state == old(self).state,
            final(self).children@ == old(self).children@,
    {
        self.parents.push(parent);
    }

    /// Adds states that could lead to this one.
    pub fn add_parents(&mut self, parents: Vec<GameState>)
        ensures
            final(self).parents@ == old(self).parents@ + parents@,
            final(self).state == old(self).state,
            final(self).children@ == old(self).children@,
    {
        let mut parents = parents;
        self.parents.append(&mut parents);
    }

    /// Adds a child for every move of the board: for each non-empty set of alive pieces adding up
    /// to a dice sum, the board left once they are knocked down, with that sum as its dice value.
    pub fn calculate_children(&mut self)
        ensures
            final(self).state == old(self).state,
            final(self).parents@ == old(self).parents@,
            final(self).children@.len() >= old(self).children@.len(),
            forall|i: int|
                #![trigger final(self).children@[i]]
                0 <= i < old(self).children@.len() ==> final(self).children@[i] == old(self).children@[i],
            forall|i: int|
                #![trigger final(self).children@[i]]
                old(self).children@.len() <= i < final(self).children@.len() ==> is_child_of(final(self).children@[i], old(self).state),
            forall|d: nat, s: nat|
                2 <= d <= 12 && #[trigger] is_move(old(self).state.board_of() as nat, d, s) ==> exists|i: int|
                    #![trigger final(self).children@[i]]
                    old(self).children@.len() <= i < final(self).children@.len() && final(self).children@[i].state.board_of() == s && final(self).children@[i].state.dice_of() == d,
            child_boards(final(self).children@, old(self).children@.len() as int).no_duplicates(),
    {
        let ghost n0 = self.children@.len() as int;
        let ghost old_children = self.children@;
        let board = self.state.get_board();
        let ghost b = board as nat;
        let raw = self.state.state;
        assert(raw & 0x1FFu16 < 512) by (bit_vector);
        if board == 0 {
            proof {
                assert(child_boards(self.children@, n0).len() == 0);
                assert forall|d: nat, s: nat| 2 <= d <= 12 implies !is_move(b, d, s) by {
                    if is_move(b, d, s) {
                        lemma_submask_split(s, b, 1);
                    }
                }
            }
            return;
        }
        let alive_pieces = Self::create_vector_representation(board);
        proof {
            lemma2_to64();
            lemma_piece_list(b, 1, 9);
            lemma_u16_shl_is_mul(1, alive_pieces.len() as u16);
            lemma_pow2_pos(popcount(b));
            if popcount(b) < 9 {
                vstd::arithmetic::power2::lemma_pow2_strictly_increases(popcount(b), 9);
            }
            assert(child_boards(self.children@, n0).len() == 0);
        }
        // Each counter value below 2^k picks a subset of the k alive pieces by its bits.
        let unique_combinations: u16 = 1u16 << (alive_pieces.len() as u16);
        let mut combination: u16 = 1;
        while combination < unique_combinations
            invariant
                alive_pieces@ == piece_list(b, 1),
                b < 512,
                b == self.state.board_of(),
                self.state == old(self).state,
                self.parents@ == old(self).parents@,
                n0 == old(self).children@.len(),
                old_children == old(self).children@,
                unique_combinations as nat == pow2(popcount(b)),
                unique_combinations <= 512,
                1 <= combination <= unique_combinations,
                self.children@.len() >= n0,
                forall|i: int| 0 <= i < n0 ==> #[trigger] self.children@[i] == old_children[i],
                forall|i: int|
                    n0 <= i < self.children@.len() ==> is_child_of(
                        #[trigger] self.children@[i],
                        self.state,
                    ) && picked_below(b, combination as nat, self.children@[i]),
                forall|v: nat|
                    1 <= v < combination && 2 <= value_from(#[trigger] spread(v, b), 1) <= 12
                        ==> child_boards(self.children@, n0).contains((b - spread(v, b)) as u16),
                child_boards(self.children@, n0).no_duplicates(),
            decreases unique_combinations - combination,
        {
            let ghost u = combination as nat;
            let ghost before = self.children@;
            proof {
                lemma2_to64();
                lemma_piece_list(b, 1, 9);
                lemma_sum_spread(u, b, 1, 9);
                lemma_kept_spread(u, b, 1, 9);
                lemma_spread_submask(u, b);
                lemma_submask_split(spread(u, b), b, 1);
                assert(pow2(0) * (b - spread(u, b)) == b - spread(u, b)) by (nonlinear_arith)
                    requires
                        pow2(0) == 1,
                ;
            }
            let summed_pieces = Self::combination_to_piece_value(combination, &alive_pieces);
            if 2 <= summed_pieces && summed_pieces <= 12 {
                let child_board = Roll::preform_move(combination, &alive_pieces);
                assert(child_board as nat == b - spread(u, b));
                assert(child_board & 0x1FFu16 == child_board) by (bit_vector)
                    requires
                        child_board < 512,
                ;
                let child_state = GameState::from_board_and_dice(&child_board, &summed_pieces);
                let child_node = Self::new_child_node(&child_state, self.state);
                proof {
                    lemma_gather_spread(u, b);
                    lemma_zero_pick(b);
                    assert forall|j: int| 0 <= j < child_boards(before, n0).len() implies child_boards(
                        before,
                        n0,
                    )[j] != child_board by {
                        let i = n0 + j;
                        assert(child_boards(before, n0)[j] == before[i].state.board_of());
                        assert(picked_below(b, u, before[i]));
                        let v = choose|v: nat|
                            1 <= v < u && 2 <= value_from(#[trigger] spread(v, b), 1) <= 12
                                && before[i].state.board_of() == b - spread(v, b)
                                && before[i].state.dice_of() == value_from(spread(v, b), 1);
                        lemma_gather_spread(v, b);
                    }
                }
                self.children.push(child_node);
                proof {
                    assert(child_boards(self.children@, n0) =~= child_boards(before, n0).push(
                        child_board,
                    ));
                }
            }
            combination = combination + 1;
            proof {
                assert forall|i: int| n0 <= i < self.children@.len() implies is_child_of(
                    #[trigger] self.children@[i],
                    self.state,
                ) && picked_below(b, combination as nat, self.children@[i]) by {
                    if i < before.len() {
                        assert(self.children@[i] == before[i]);
                        assert(picked_below(b, u, before[i]));
                        let v = choose|v: nat|
                            1 <= v < u && 2 <= value_from(#[trigger] spread(v, b), 1) <= 12
                                && before[i].state.board_of() == b - spread(v, b)
                                && before[i].state.dice_of() == value_from(spread(v, b), 1);
                        assert(value_from(spread(v, b), 1) >= 2);
                    } else {
                        assert(value_from(spread(u, b), 1) >= 2);
                    }
                }
                assert forall|v: nat|
                    1 <= v < combination && 2 <= value_from(#[trigger] spread(v, b), 1) <= 12
                        implies child_boards(self.children@, n0).contains((b - spread(v, b)) as u16) by {
                    if v < u {
                        let cb = child_boards(before, n0);
                        let j = choose|j: int| 0 <= j < cb.len() && cb[j] == (b - spread(v, b)) as u16;
                        assert(child_boards(self.children@, n0)[j] == cb[j]);
                    } else {
                        let cb = child_boards(self.children@, n0);
                        assert(cb[cb.len() - 1] == (b - spread(u, b)) as u16);
                    }
                }
            }
        }
        proof {
            assert forall|d: nat, s: nat|
                2 <= d <= 12 && #[trigger] is_move(b, d, s) implies exists|i: int|
                    n0 <= i < self.children@.len() && (#[trigger] self.children@[i]).state.board_of()
                        == s && self.children@[i].state.dice_of() == d by {
                lemma_submask_split(s, b, 1);
                let c = (b - s) as nat;
                lemma_spread_gather(c, b);
                lemma_zero_pick(b);
                let v = gather(c, b);
                assert(spread(v, b) == c);
                let cb = child_boards(self.children@, n0);
                assert(cb.contains(s as u16));
                let j = choose|j: int| 0 <= j < cb.len() && cb[j] == s as u16;
                let i = n0 + j;
                assert(self.children@[i].state.board_of() == s);
                assert(is_child_of(self.children@[i], self.state));
                lemma_submask_split(s, b, 1);
            }
        }
    }

    /// The numbers of the pieces alive on `board`, ascending.
    fn create_vector_representation(board: u16) -> (r: Vec<u8>)
        requires
            board < 512,
        ensures
            r@ == piece_list(board as nat, 1),
    {
        Roll::pieces(board)
    }

    /// The sum of the pieces whose positions in `alive_pieces` are set in `encoded_combination`.
    fn combination_to_piece_value(encoded_combination: u16, alive_pieces: &Vec<u8>) -> (r: u8)
        requires
            alive_pieces.len() <= 9,
            forall|i: int| 0 <= i < alive_pieces.len() ==> alive_pieces[i] <= 9,
        ensures
            r == selected_sum(encoded_combination as nat, alive_pieces@),
    {
        let mut summed_pieces: u8 = 0;
        let mut rest: u16 = encoded_combination;
        let mut piece_index: usize = 0;
        assert(alive_pieces@.skip(0) == alive_pieces@);
        while piece_index < alive_pieces.len()
            invariant
                piece_index <= alive_pieces.len() <= 9,
                forall|i: int| 0 <= i < alive_pieces.len() ==> alive_pieces[i] <= 9,
                summed_pieces <= 9 * piece_index,
                summed_pieces + selected_sum(rest as nat, alive_pieces@.skip(piece_index as int))
                    == selected_sum(encoded_combination as nat, alive_pieces@),
            decreases alive_pieces.len() - piece_index,
        {
            let ghost tail = alive_pieces@.skip(piece_index as int);
            assert(tail.drop_first() == alive_pieces@.skip(piece_index + 1));
            assert(tail[0] == alive_pieces[piece_index as int]);
            assert(rest & 1 == rest % 2) by (bit_vector);
            assert(rest >> 1 == rest / 2) by (bit_vector);
            if rest & 1 == 1 {
                summed_pieces = summed_pieces + alive_pieces[piece_index];
            }
            rest = rest >> 1;
            piece_index = piece_index + 1;
        }
        assert(alive_pieces@.skip(piece_index as int).len() == 0);
        summed_pieces
    }

    /// A node for `state` whose only parent is `parent`.
    fn new_child_node(state: &GameState, parent: GameState) -> (r: GameNode)
        ensures
            r.state == *state,
            r.parents@ == seq![parent],
            r.children@.len() == 0,
    {
        let mut parents: Vec<GameState> = Vec::new();
        parents.push(parent);
        GameNode { state: *state, parents, children: Vec::new() }
    }
}

} // verus!
