//! The arithmetic model of a board: a mask whose bit `i` stands for piece `i + 1`.
use vstd::arithmetic::power2::{lemma_pow2_pos, lemma_pow2_unfold, pow2};
use vstd::prelude::*;

verus! {

/// The sum of the piece numbers whose bits are set in `mask`, bit 0 standing for piece `first`.
pub open spec fn value_from(mask: nat, first: nat) -> nat
    decreases mask,
{
    if mask == 0 {
        0
    } else {
        (if mask % 2 == 1 {
            first
        } else {
            0
        }) + value_from(mask / 2, first + 1)
    }
}

/// The sum of the numbers of the pieces still alive on `board`.
pub open spec fn board_value(board: nat) -> nat {
    value_from(board, 1)
}

/// Every bit set in `sub` is set in `mask`.
pub open spec fn is_submask(sub: nat, mask: nat) -> bool
    decreases mask,
{
    if mask == 0 {
        sub == 0
    } else {
        (sub % 2 == 1 ==> mask % 2 == 1) && is_submask(sub / 2, mask / 2)
    }
}

/// The number of bits set in `mask`.
pub open spec fn popcount(mask: nat) -> nat
    decreases mask,
{
    if mask == 0 {
        0
    } else {
        mask % 2 + popcount(mask / 2)
    }
}

/// `next` is what remains of `board` once alive pieces adding up to `roll` are knocked down.
pub open spec fn is_move(board: nat, roll: nat, next: nat) -> bool {
    &&& is_submask(next, board)
    &&& next != board
    &&& board_value(board) == board_value(next) + roll
}

/// No move is left on `board` for `roll`.
pub open spec fn is_stuck(board: nat, roll: nat) -> bool {
    forall|next: nat| !#[trigger] is_move(board, roll, next)
}

/// The mask that places the low bits of `pick`, lowest first, on the set bits of `mask`.
pub open spec fn spread(pick: nat, mask: nat) -> nat
    decreases mask,
{
    if mask == 0 {
        0
    } else if mask % 2 == 1 {
        pick % 2 + 2 * spread(pick / 2, mask / 2)
    } else {
        2 * spread(pick, mask / 2)
    }
}

/// The inverse of `spread`: the bits of `sub` found on the set bits of `mask`, packed low.
pub open spec fn gather(sub: nat, mask: nat) -> nat
    decreases mask,
{
    if mask == 0 {
        0
    } else if mask % 2 == 1 {
        sub % 2 + 2 * gather(sub / 2, mask / 2)
    } else {
        gather(sub / 2, mask / 2)
    }
}

/// The numbers of the pieces set in `mask`, ascending, bit 0 standing for piece `first`.
pub open spec fn piece_list(mask: nat, first: nat) -> Seq<u8>
    decreases mask,
{
    if mask == 0 {
        seq![]
    } else if mask % 2 == 1 {
        seq![first as u8] + piece_list(mask / 2, first + 1)
    } else {
        piece_list(mask / 2, first + 1)
    }
}

/// The sum of the entries of `pieces` whose positions are set in `pick`.
pub open spec fn selected_sum(pick: nat, pieces: Seq<u8>) -> nat
    decreases pieces.len(),
{
    if pieces.len() == 0 {
        0
    } else {
        (if pick % 2 == 1 {
            pieces[0] as nat
        } else {
            0
        }) + selected_sum(pick / 2, pieces.drop_first())
    }
}

/// The board holding the entries of `pieces` whose positions are clear in `pick`.
pub open spec fn kept_mask(pick: nat, pieces: Seq<u8>) -> nat
    decreases pieces.len(),
{
    if pieces.len() == 0 {
        0
    } else {
        (if pick % 2 == 0 {
            pow2((pieces[0] - 1) as nat)
        } else {
            0
        }) + kept_mask(pick / 2, pieces.drop_first())
    }
}

/// The pieces of a mask below `2^n` are `popcount` many, ascending, between `first` and `first + n`.
pub proof fn lemma_piece_list(mask: nat, first: nat, n: nat)
    requires
        mask < pow2(n),
        first >= 1,
        first + n <= 256,
    ensures
        piece_list(mask, first).len() == popcount(mask),
        popcount(mask) <= n,
        forall|i: int|
            0 <= i < piece_list(mask, first).len() ==> first <= #[trigger] piece_list(
                mask,
                first,
            )[i] < first + n,
        forall|i: int, j: int|
            0 <= i < j < piece_list(mask, first).len() ==> piece_list(mask, first)[i]
                < piece_list(mask, first)[j],
    decreases n,
{
    lemma_pow2_pos(n);
    if mask != 0 {
        if n == 0 {
            assert(pow2(0) == 1) by {
                vstd::arithmetic::power2::lemma2_to64();
            }
        }
        lemma_pow2_unfold(n);
        lemma_piece_list(mask / 2, first + 1, (n - 1) as nat);
        let rest = piece_list(mask / 2, first + 1);
        if mask % 2 == 1 {
            let p = seq![first as u8] + rest;
            assert(piece_list(mask, first) == p);
            assert forall|i: int| 0 <= i < p.len() implies first <= #[trigger] p[i] < first + n by {
                if i > 0 {
                    assert(p[i] == rest[i - 1]);
                }
            }
            assert forall|i: int, j: int| 0 <= i < j < p.len() implies p[i] < p[j] by {
                assert(p[j] == rest[j - 1]);
                if i > 0 {
                    assert(p[i] == rest[i - 1]);
                }
            }
        }
    } else {
        assert(piece_list(mask, first).len() == 0);
    }
}

/// Summing the pieces that `pick` selects from the list is the value of the mask it spreads to.
pub proof fn lemma_sum_spread(pick: nat, mask: nat, first: nat, n: nat)
    requires
        mask < pow2(n),
        first + n <= 256,
    ensures
        selected_sum(pick, piece_list(mask, first)) == value_from(spread(pick, mask), first),
    decreases mask,
{
    if mask != 0 {
        lemma_pow2_pos(n);
        if n == 0 {
            vstd::arithmetic::power2::lemma2_to64();
        }
        lemma_pow2_unfold(n);
        let rest = piece_list(mask / 2, first + 1);
        if mask % 2 == 1 {
            lemma_sum_spread(pick / 2, mask / 2, first + 1, (n - 1) as nat);
            let p = seq![first as u8] + rest;
            assert(p.drop_first() == rest);
            let s = spread(pick, mask);
            assert(s % 2 == pick % 2 && s / 2 == spread(pick / 2, mask / 2));
        } else {
            lemma_sum_spread(pick, mask / 2, first + 1, (n - 1) as nat);
            let s = spread(pick, mask);
            assert(s % 2 == 0 && s / 2 == spread(pick, mask / 2));
        }
    }
}

/// The board that keeps the pieces `pick` leaves out is the mask less the spread of `pick`.
pub proof fn lemma_kept_spread(pick: nat, mask: nat, first: nat, n: nat)
    requires
        mask < pow2(n),
        first >= 1,
        first + n <= 256,
    ensures
        spread(pick, mask) <= mask,
        kept_mask(pick, piece_list(mask, first)) == pow2((first - 1) as nat) * (mask - spread(
            pick,
            mask,
        )),
    decreases mask,
{
    let f1 = (first - 1) as nat;
    if mask != 0 {
        lemma_pow2_pos(n);
        if n == 0 {
            vstd::arithmetic::power2::lemma2_to64();
        }
        lemma_pow2_unfold(n);
        lemma_pow2_unfold(first);
        let big = pow2(first);
        let small = pow2(f1);
        assert(big == 2 * small);
        let rest = piece_list(mask / 2, first + 1);
        if mask % 2 == 1 {
            lemma_kept_spread(pick / 2, mask / 2, first + 1, (n - 1) as nat);
            let p = seq![first as u8] + rest;
            assert(p.drop_first() == rest);
            assert(piece_list(mask, first) == p);
            assert(p[0] as nat == first);
            let t = spread(pick / 2, mask / 2);
            let k = kept_mask(pick / 2, rest);
            assert(mask - spread(pick, mask) == (if pick % 2 == 0 {
                1nat
            } else {
                0nat
            }) + 2 * (mask / 2 - t));
            assert(k == big * (mask / 2 - t));
            let bit: nat = if pick % 2 == 0 {
                1
            } else {
                0
            };
            assert(small * (bit + 2 * (mask / 2 - t)) == bit * small + big * (mask / 2 - t))
                by (nonlinear_arith)
                requires
                    big == 2 * small,
            ;
            assert(bit * small == (if pick % 2 == 0 {
                small
            } else {
                0
            })) by (nonlinear_arith)
                requires
                    bit == 0 || bit == 1,
                    bit == 1 <==> pick % 2 == 0,
            ;
        } else {
            lemma_kept_spread(pick, mask / 2, first + 1, (n - 1) as nat);
            let t = spread(pick, mask / 2);
            assert(piece_list(mask, first) == rest);
            assert(mask - spread(pick, mask) == 2 * (mask / 2 - t));
            assert(small * (2 * (mask / 2 - t)) == big * (mask / 2 - t)) by (nonlinear_arith)
                requires
                    big == 2 * small,
            ;
        }
    }
}

/// Spreading a pick over a mask gives a submask of it.
pub proof fn lemma_spread_submask(pick: nat, mask: nat)
    ensures
        is_submask(spread(pick, mask), mask),
        spread(pick, mask) <= mask,
    decreases mask,
{
    if mask != 0 {
        if mask % 2 == 1 {
            lemma_spread_submask(pick / 2, mask / 2);
        } else {
            lemma_spread_submask(pick, mask / 2);
        }
        let s = spread(pick, mask);
        assert(s / 2 == (if mask % 2 == 1 {
            spread(pick / 2, mask / 2)
        } else {
            spread(pick, mask / 2)
        }));
    }
}

/// Taking a submask out of a mask splits its value and its bit count.
pub proof fn lemma_submask_split(sub: nat, mask: nat, first: nat)
    requires
        is_submask(sub, mask),
    ensures
        sub <= mask,
        is_submask((mask - sub) as nat, mask),
        value_from(mask, first) == value_from(sub, first) + value_from((mask - sub) as nat, first),
        popcount(mask) == popcount(sub) + popcount((mask - sub) as nat),
    decreases mask,
{
    if mask != 0 {
        lemma_submask_split(sub / 2, mask / 2, first + 1);
        let d = (mask - sub) as nat;
        assert(d == 2 * ((mask / 2 - sub / 2) as nat) + (mask % 2 - sub % 2));
        assert(d % 2 == mask % 2 - sub % 2);
        assert(d / 2 == (mask / 2 - sub / 2) as nat);
    }
}

/// Gathering undoes spreading for picks with no more bits than the mask has set.
pub proof fn lemma_gather_spread(pick: nat, mask: nat)
    requires
        pick < pow2(popcount(mask)),
    ensures
        gather(spread(pick, mask), mask) == pick,
    decreases mask,
{
    if mask == 0 {
        vstd::arithmetic::power2::lemma2_to64();
    } else {
        if mask % 2 == 1 {
            lemma_pow2_unfold(popcount(mask));
            lemma_gather_spread(pick / 2, mask / 2);
        } else {
            lemma_gather_spread(pick, mask / 2);
        }
        let s = spread(pick, mask);
        assert(s % 2 == (if mask % 2 == 1 {
            pick % 2
        } else {
            0
        }));
        assert(s / 2 == (if mask % 2 == 1 {
            spread(pick / 2, mask / 2)
        } else {
            spread(pick, mask / 2)
        }));
    }
}

/// Spreading undoes gathering for submasks, and the gathered pick fits in `popcount` bits.
pub proof fn lemma_spread_gather(sub: nat, mask: nat)
    requires
        is_submask(sub, mask),
    ensures
        spread(gather(sub, mask), mask) == sub,
        gather(sub, mask) < pow2(popcount(mask)),
    decreases mask,
{
    lemma_pow2_pos(popcount(mask));
    if mask == 0 {
        vstd::arithmetic::power2::lemma2_to64();
    } else {
        lemma_spread_gather(sub / 2, mask / 2);
        let g = gather(sub, mask);
        if mask % 2 == 1 {
            lemma_pow2_unfold(popcount(mask));
            assert(g % 2 == sub % 2);
            assert(g / 2 == gather(sub / 2, mask / 2));
        } else {
            assert(sub % 2 == 0);
        }
    }
}

/// A non-empty mask has a positive value and at least one bit set.
pub proof fn lemma_nonzero_counts(mask: nat, first: nat)
    requires
        mask != 0,
        first >= 1,
    ensures
        value_from(mask, first) >= first,
        popcount(mask) >= 1,
    decreases mask,
{
    if mask % 2 == 0 {
        lemma_nonzero_counts(mask / 2, first + 1);
    }
}

/// A mask below `2^n` has at most `n` bits set and a value of at most `n * (first + n)`.
pub proof fn lemma_value_bound(mask: nat, first: nat, n: nat)
    requires
        mask < pow2(n),
    ensures
        value_from(mask, first) <= n * (first + n),
        popcount(mask) <= n,
    decreases n,
{
    lemma_pow2_pos(n);
    if mask != 0 {
        if n == 0 {
            vstd::arithmetic::power2::lemma2_to64();
        }
        lemma_pow2_unfold(n);
        let m = (n - 1) as nat;
        lemma_value_bound(mask / 2, first + 1, m);
        assert(first + m * (first + 1 + m) <= n * (first + n)) by (nonlinear_arith)
            requires
                n == m + 1,
        ;
    }
}

/// The empty pick spreads to the empty mask, and the empty submask gathers to the empty pick.
pub proof fn lemma_zero_pick(mask: nat)
    ensures
        spread(0, mask) == 0,
        gather(0, mask) == 0,
    decreases mask,
{
    if mask != 0 {
        lemma_zero_pick(mask / 2);
    }
}

/// The arithmetic submask relation is the bitwise one: no bit of `sub` lies outside `mask`.
pub proof fn lemma_submask_bits(sub: u16, mask: u16)
    requires
        is_submask(sub as nat, mask as nat),
    ensures
        sub & !mask == 0,
    decreases mask,
{
    if mask == 0 {
        assert(sub == 0);
        assert(sub == 0 ==> sub & !mask == 0) by (bit_vector);
    } else {
        let s2 = sub >> 1;
        let m2 = mask >> 1;
        assert(s2 == sub / 2 && m2 == mask / 2 && sub & 1 == sub % 2 && mask & 1 == mask % 2)
            by (bit_vector)
            requires
                s2 == sub >> 1,
                m2 == mask >> 1,
        ;
        lemma_submask_bits(s2, m2);
        assert(((s2 & !m2) == 0 && (sub & 1 == 1 ==> mask & 1 == 1)) ==> sub & !mask == 0)
            by (bit_vector)
            requires
                s2 == sub >> 1,
                m2 == mask >> 1,
        ;
    }
}

} // verus!
