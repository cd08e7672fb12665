//! Numbers as decimal text, written and read.

use vstd::prelude::*;

verus! {

/// The digit `0`. The other digits follow it.
pub const ZERO: u8 = 48;

/// The digit `9`.
pub const NINE: u8 = 57;

/// The sign that may stand in front of a number.
pub const PLUS: u8 = 43;

/// Whether `b` is a decimal digit.
pub open spec fn is_digit(b: u8) -> bool {
    ZERO <= b <= NINE
}

/// Whether `s` holds decimal digits only.
pub open spec fn all_digits(s: Seq<u8>) -> bool {
    forall|i: int| 0 <= i < s.len() ==> is_digit(#[trigger] s[i])
}

/// The decimal digits of `n`, without leading zeros.
pub open spec fn digits(n: nat) -> Seq<u8>
    decreases n,
{
    if n < 10 {
        seq![(ZERO + n) as u8]
    } else {
        digits(n / 10).push((ZERO + n % 10) as u8)
    }
}

/// The number that a string of decimal digits stands for.
pub open spec fn digits_value(s: Seq<u8>) -> nat
    decreases s.len(),
{
    if s.len() == 0 {
        0
    } else {
        digits_value(s.drop_last()) * 10 + (s.last() - ZERO) as nat
    }
}

/// `s` without the `+` that may stand in front of it.
pub open spec fn unsigned(s: Seq<u8>) -> Seq<u8> {
    if s.len() > 0 && s[0] == PLUS {
        s.drop_first()
    } else {
        s
    }
}

/// The number that `s` stands for: `s` is one or more decimal digits, with or
/// without a `+` in front of them, and nothing else. Leading zeros do not
/// matter. Any other text stands for no number.
pub open spec fn number(s: Seq<u8>) -> Option<nat> {
    let d = unsigned(s);
    if d.len() > 0 && all_digits(d) {
        Some(digits_value(d))
    } else {
        None
    }
}

/// The number that `s` stands for, where a `usize` can hold it.
pub open spec fn small_number(s: Seq<u8>) -> Option<nat> {
    match number(s) {
        Some(n) => if n <= usize::MAX {
            Some(n)
        } else {
            None
        },
        None => None,
    }
}

/// `s`, with spaces in front of it where it is shorter than `width`.
pub open spec fn pad_left(s: Seq<u8>, width: nat) -> Seq<u8> {
    if s.len() < width {
        Seq::new((width - s.len()) as nat, |i: int| crate::text::SPACE) + s
    } else {
        s
    }
}

/// The digits of a number are digits, and there is at least one.
pub proof fn lemma_digits_are_digits(n: nat)
    ensures
        digits(n).len() > 0,
        all_digits(digits(n)),
    decreases n,
{
    if n >= 10 {
        lemma_digits_are_digits(n / 10);
    }
}

/// The digits of a number stand for that number.
pub proof fn lemma_digits_value(n: nat)
    ensures
        digits_value(digits(n)) == n,
    decreases n,
{
    let s = digits(n);
    if n < 10 {
        assert(s.drop_last() =~= Seq::<u8>::empty());
        assert(digits_value(s.drop_last()) == 0);
        assert(s.last() == (ZERO + n) as u8);
    } else {
        lemma_digits_value(n / 10);
        assert(s.drop_last() =~= digits(n / 10));
        assert(s.last() == (ZERO + n % 10) as u8);
    }
}

/// Reading the digits of a number gives the number back.
pub proof fn lemma_number_of_digits(n: nat)
    ensures
        number(digits(n)) == Some(n),
{
    lemma_digits_are_digits(n);
    lemma_digits_value(n);
    assert(is_digit(digits(n)[0]));
}

/// A string of digits stands for at least as much as any of its beginnings.
pub proof fn lemma_value_grows(s: Seq<u8>, k: int)
    requires
        0 <= k <= s.len(),
        all_digits(s),
    ensures
        digits_value(s.take(k)) <= digits_value(s),
    decreases s.len() - k,
{
    if k == s.len() {
        assert(s.take(k) =~= s);
    } else {
        let t = s.drop_last();
        assert(t.take(k) =~= s.take(k));
        lemma_value_grows(t, k);
        assert(is_digit(s.last()));
    }
}

/// Appends the decimal digits of `n` to `out`.
pub fn push_digits(n: usize, out: &mut Vec<u8>)
    ensures
        final(out)@ == old(out)@ + digits(n as nat),
    decreases n,
{
    if n < 10 {
        out.push(ZERO + n as u8);
        proof {
            assert(final(out)@ =~= old(out)@ + digits(n as nat));
        }
    } else {
        push_digits(n / 10, out);
        out.push(ZERO + (n % 10) as u8);
        proof {
            assert(final(out)@ =~= old(out)@ + digits(n as nat));
        }
    }
}

/// The decimal digits of `n`.
pub fn decimal(n: usize) -> (r: Vec<u8>)
    ensures
        r@ == digits(n as nat),
{
    let mut r: Vec<u8> = Vec::new();
    push_digits(n, &mut r);
    proof {
        assert(r@ =~= digits(n as nat));
    }
    r
}

/// Reads a number: one or more decimal digits, with or without a `+` in front
/// of them. Text that is no number, or a number that a `usize` cannot hold,
/// gives `None`.
pub fn parse_number(s: &[u8]) -> (r: Option<usize>)
    ensures
        match r {
            Some(n) => small_number(s@) == Some(n as nat),
            None => small_number(s@).is_none(),
        },
{
    let start: usize = if s.len() > 0 && s[0] == PLUS {
        1
    } else {
        0
    };
    let ghost d = unsigned(s@);
    proof {
        assert(d =~= s@.skip(start as int));
    }
    if start == s.len() {
        return None;
    }
    let mut value: usize = 0;
    let mut i: usize = start;
    while i < s.len()
        invariant
            start <= i <= s@.len(),
            d == unsigned(s@),
            d == s@.skip(start as int),
            all_digits(d.take(i - start)),
            value == digits_value(d.take(i - start)),
        decreases s@.len() - i,
    {
        let b = s[i];
        let ghost read = d.take(i - start);
        let ghost more = d.take(i + 1 - start);
        proof {
            assert(more.drop_last() =~= read);
            assert(more.last() == b);
            assert(d[i - start] == b);
        }
        if b < ZERO || b > NINE {
            proof {
                assert(!is_digit(d[i - start]));
            }
            return None;
        }
        let digit: usize = (b - ZERO) as usize;
        proof {
            assert forall|j: int| 0 <= j < more.len() implies is_digit(#[trigger] more[j]) by {
                if j < read.len() {
                    assert(more[j] == read[j]);
                }
            }
            assert(digits_value(more) == value * 10 + digit);
            if all_digits(d) {
                lemma_value_grows(d, i + 1 - start);
            }
        }
        let tens = match value.checked_mul(10) {
            Some(tens) => tens,
            None => {
                return None;
            },
        };
        value = match tens.checked_add(digit) {
            Some(sum) => sum,
            None => {
                return None;
            },
        };
        i += 1;
    }
    proof {
        assert(d.take(i - start) =~= d);
    }
    Some(value)
}

} // verus!
