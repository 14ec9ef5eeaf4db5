//! Decimal numerals as text: what integer formatting writes and what integer parsing accepts.
use vstd::prelude::*;

verus! {

/// The ASCII digit for `d`, which is below 10.
pub open spec fn digit_char(d: nat) -> char {
    seq!['0', '1', '2', '3', '4', '5', '6', '7', '8', '9'][d as int]
}

pub open spec fn is_digit(c: char) -> bool {
    48 <= c as u32 <= 57
}

pub open spec fn digit_value(c: char) -> nat {
    (c as u32 - 48) as nat
}

/// The decimal digits of `n`, without sign or leading zeros.
pub open spec fn decimal(n: nat) -> Seq<char>
    decreases n,
{
    if n < 10 {
        seq![digit_char(n)]
    } else {
        decimal(n / 10).push(digit_char(n % 10))
    }
}

/// The number that the digits of `s` spell.
pub open spec fn digits_value(s: Seq<char>) -> nat
    decreases s.len(),
{
    if s.len() == 0 {
        0
    } else {
        digits_value(s.drop_last()) * 10 + digit_value(s.last())
    }
}

pub open spec fn all_digits(s: Seq<char>) -> bool {
    forall|i: int| 0 <= i < s.len() ==> is_digit(#[trigger] s[i])
}

/// The value of an unsigned numeral as Rust's integer parsing reads one: an optional `+`
/// followed by one or more ASCII digits; `None` for any other text.
pub open spec fn numeral_value(s: Seq<char>) -> Option<nat> {
    let digits = if s.len() > 0 && s[0] == '+' {
        s.drop_first()
    } else {
        s
    };
    if digits.len() > 0 && all_digits(digits) {
        Some(digits_value(digits))
    } else {
        None
    }
}

/// The position of the last `c` in `s`, or -1 when there is none.
pub open spec fn last_index_of(s: Seq<char>, c: char) -> int
    decreases s.len(),
{
    if s.len() == 0 {
        -1
    } else if s.last() == c {
        s.len() - 1
    } else {
        last_index_of(s.drop_last(), c)
    }
}

/// The last position of `c` holds `c`, and no later position does.
pub proof fn lemma_last_index_of(s: Seq<char>, c: char)
    ensures
        -1 <= last_index_of(s, c) < s.len(),
        last_index_of(s, c) >= 0 ==> s[last_index_of(s, c)] == c,
        forall|j: int| last_index_of(s, c) < j < s.len() ==> s[j] != c,
    decreases s.len(),
{
    if s.len() > 0 && s.last() != c {
        lemma_last_index_of(s.drop_last(), c);
        assert forall|j: int| last_index_of(s, c) < j < s.len() implies s[j] != c by {
            if j < s.len() - 1 {
                assert(s[j] == s.drop_last()[j]);
            }
        }
    }
}

/// The decimal digits of `n` are a non-empty run of digits, without a sign, that spell `n`.
pub proof fn lemma_decimal(n: nat)
    ensures
        decimal(n).len() > 0,
        all_digits(decimal(n)),
        digits_value(decimal(n)) == n,
        decimal(n)[0] != '+',
    decreases n,
{
    let ds = seq!['0', '1', '2', '3', '4', '5', '6', '7', '8', '9'];
    assert(ds[0] == '0' && ds[1] == '1' && ds[2] == '2' && ds[3] == '3' && ds[4] == '4');
    assert(ds[5] == '5' && ds[6] == '6' && ds[7] == '7' && ds[8] == '8' && ds[9] == '9');
    if n < 10 {
        let s = decimal(n);
        assert(s.drop_last().len() == 0);
        assert(digits_value(s.drop_last()) == 0);
    } else {
        lemma_decimal(n / 10);
        let s = decimal(n);
        assert(s.drop_last() == decimal(n / 10));
        assert forall|i: int| 0 <= i < s.len() implies is_digit(#[trigger] s[i]) by {
            if i < s.len() - 1 {
                assert(s[i] == decimal(n / 10)[i]);
            }
        }
        assert(s[0] == decimal(n / 10)[0]);
    }
}

/// The characters of `text`, in order.
pub fn chars_of(text: &str) -> (r: Vec<char>)
    ensures
        r@ == text@,
{
    let mut out: Vec<char> = Vec::new();
    for c in it: text.chars()
        invariant
            out@ == it.seq().take(it.index() as int),
    {
        out.push(c);
    }
    out
}


/// The smaller of `a` and `b`.
pub open spec fn min_nat(a: nat, b: nat) -> nat {
    if a <= b {
        a
    } else {
        b
    }
}

/// Reads `chars[lo..hi]` as an unsigned numeral, accepted only when its value is at most `max`.
pub fn parse_numeral(chars: &Vec<char>, lo: usize, hi: usize, max: u32) -> (r: Option<u32>)
    requires
        lo <= hi <= chars.len(),
        max <= 65535,
    ensures
        r == (match numeral_value(chars@.subrange(lo as int, hi as int)) {
            Some(v) => if v <= max {
                Some(v as u32)
            } else {
                None
            },
            None => None,
        }),
{
    let ghost whole = chars@.subrange(lo as int, hi as int);
    let mut start = lo;
    if start < hi && chars[start] == '+' {
        start = start + 1;
        assert(whole.drop_first() == chars@.subrange(start as int, hi as int));
    } else {
        assert(whole == chars@.subrange(start as int, hi as int));
    }
    let ghost digits = chars@.subrange(start as int, hi as int);
    assert(numeral_value(whole) == (if digits.len() > 0 && all_digits(digits) {
        Some(digits_value(digits))
    } else {
        None::<nat>
    }));
    if start == hi {
        return None;
    }
    let ghost bound = max as nat + 1;
    let mut value: u32 = 0;
    let mut i = start;
    assert(chars@.subrange(start as int, start as int).len() == 0);
    while i < hi
        invariant
            lo <= start <= i <= hi <= chars.len(),
            max <= 65535,
            bound == max as nat + 1,
            all_digits(chars@.subrange(start as int, i as int)),
            digits == chars@.subrange(start as int, hi as int),
            whole == chars@.subrange(lo as int, hi as int),
            numeral_value(whole) == (if digits.len() > 0 && all_digits(digits) {
                Some(digits_value(digits))
            } else {
                None::<nat>
            }),
            digits.len() > 0,
            value as nat == min_nat(digits_value(chars@.subrange(start as int, i as int)), bound),
        decreases hi - i,
    {
        let ghost prefix = chars@.subrange(start as int, i as int);
        let ghost next = chars@.subrange(start as int, i + 1);
        assert(next.drop_last() == prefix);
        assert(next.last() == chars@[i as int]);
        let code = chars[i] as u32;
        if code < 48 || code > 57 {
            assert(digits[i - start] == chars@[i as int]);
            assert(!is_digit(digits[i - start]));
            return None;
        }
        let digit = code - 48;
        if value > max {
            value = max + 1;
        } else {
            let t = value * 10 + digit;
            if t > max {
                value = max + 1;
            } else {
                value = t;
            }
        }
        assert forall|j: int| 0 <= j < next.len() implies is_digit(#[trigger] next[j]) by {
            if j < prefix.len() {
                assert(next[j] == prefix[j]);
            }
        }
        i = i + 1;
    }
    assert(chars@.subrange(start as int, i as int) == digits);
    if value > max {
        None
    } else {
        Some(value)
    }
}

} // verus!
