//! Byte strings: trimming spaces, finding a byte, splitting at a byte.

use vstd::prelude::*;
use vstd::slice::slice_subrange;

verus! {

/// The space character.
pub const SPACE: u8 = 32;

/// The newline character, which ends a row.
pub const NEWLINE: u8 = 10;

/// `s` without its leading spaces.
pub open spec fn trim_start(s: Seq<u8>) -> Seq<u8>
    decreases s.len(),
{
    if s.len() > 0 && s[0] == SPACE {
        trim_start(s.drop_first())
    } else {
        s
    }
}

/// `s` without its trailing spaces.
pub open spec fn trim_end(s: Seq<u8>) -> Seq<u8>
    decreases s.len(),
{
    if s.len() > 0 && s.last() == SPACE {
        trim_end(s.drop_last())
    } else {
        s
    }
}

/// `s` without its leading and trailing spaces.
pub open spec fn trim(s: Seq<u8>) -> Seq<u8> {
    trim_end(trim_start(s))
}

/// `trim_start(s)` is the part of `s` from `k` on, where `k` is the number of
/// leading spaces.
pub proof fn lemma_trim_start_from(s: Seq<u8>, k: int)
    requires
        0 <= k <= s.len(),
        forall|i: int| 0 <= i < k ==> s[i] == SPACE,
        k < s.len() ==> s[k] != SPACE,
    ensures
        trim_start(s) == s.skip(k),
    decreases k,
{
    if k == 0 {
        assert(s.skip(0) =~= s);
    } else {
        let t = s.drop_first();
        assert forall|i: int| 0 <= i < k - 1 implies t[i] == SPACE by {
            assert(t[i] == s[i + 1]);
        }
        lemma_trim_start_from(t, k - 1);
        assert(t.skip(k - 1) =~= s.skip(k));
    }
}

/// `trim_end(s)` is the part of `s` before `k`, where everything from `k` on
/// is a space and the byte before `k` is not.
pub proof fn lemma_trim_end_upto(s: Seq<u8>, k: int)
    requires
        0 <= k <= s.len(),
        forall|i: int| k <= i < s.len() ==> s[i] == SPACE,
        k > 0 ==> s[k - 1] != SPACE,
    ensures
        trim_end(s) == s.take(k),
    decreases s.len() - k,
{
    if k == s.len() {
        assert(s.take(k) =~= s);
    } else {
        let t = s.drop_last();
        lemma_trim_end_upto(t, k);
        assert(t.take(k) =~= s.take(k));
    }
}

/// Strips the leading and trailing spaces of `s`.
pub fn trim_spaces(s: &[u8]) -> (r: &[u8])
    ensures
        r@ == trim(s@),
{
    let n = s.len();
    let mut start: usize = 0;
    while start < n && s[start] == SPACE
        invariant
            n == s@.len(),
            start <= n,
            forall|i: int| 0 <= i < start ==> s@[i] == SPACE,
        decreases n - start,
    {
        start += 1;
    }
    let mut end: usize = n;
    while end > start && s[end - 1] == SPACE
        invariant
            n == s@.len(),
            start <= end <= n,
            forall|i: int| end <= i < n ==> s@[i] == SPACE,
        decreases end,
    {
        end -= 1;
    }
    proof {
        lemma_trim_start_from(s@, start as int);
        let t = s@.skip(start as int);
        assert forall|i: int| end - start <= i < t.len() implies t[i] == SPACE by {
            assert(t[i] == s@[i + start]);
        }
        if end > start {
            assert(t[end - start - 1] == s@[end - 1]);
        }
        lemma_trim_end_upto(t, end - start);
        assert(t.take(end - start) =~= s@.subrange(start as int, end as int));
    }
    slice_subrange(s, start, end)
}

/// The position of the first `b` in `s`, or the length of `s` where `s` holds
/// no `b`.
pub open spec fn first_index(s: Seq<u8>, b: u8) -> int
    decreases s.len(),
{
    if s.len() == 0 || s[0] == b {
        0
    } else {
        1 + first_index(s.drop_first(), b)
    }
}

/// The two parts of `s` around its first `b`, which belongs to neither, or
/// `None` where `s` holds no `b`.
pub open spec fn split_once(s: Seq<u8>, b: u8) -> Option<(Seq<u8>, Seq<u8>)> {
    let i = first_index(s, b);
    if i < s.len() {
        Some((s.take(i), s.skip(i + 1)))
    } else {
        None
    }
}

/// The parts of `s` between its occurrences of `b`, in order. There is one
/// part more than there are occurrences, so the result is never empty.
pub open spec fn split(s: Seq<u8>, b: u8) -> Seq<Seq<u8>>
    decreases s.len(),
{
    let i = first_index(s, b);
    if 0 <= i < s.len() {
        seq![s.take(i)] + split(s.skip(i + 1), b)
    } else {
        seq![s]
    }
}

/// What `first_index` is: no `b` before it, and a `b` at it unless it is the
/// length.
pub proof fn lemma_first_index(s: Seq<u8>, b: u8)
    ensures
        0 <= first_index(s, b) <= s.len(),
        forall|j: int| 0 <= j < first_index(s, b) ==> s[j] != b,
        first_index(s, b) < s.len() ==> s[first_index(s, b)] == b,
    decreases s.len(),
{
    if s.len() == 0 || s[0] == b {
    } else {
        let t = s.drop_first();
        lemma_first_index(t, b);
        assert forall|j: int| 0 <= j < first_index(s, b) implies s[j] != b by {
            if j > 0 {
                assert(s[j] == t[j - 1]);
            }
        }
    }
}

/// A position with no `b` before it, and with a `b` at it unless it is the
/// length, is `first_index`.
pub proof fn lemma_first_index_is(s: Seq<u8>, b: u8, k: int)
    requires
        0 <= k <= s.len(),
        forall|j: int| 0 <= j < k ==> s[j] != b,
        k < s.len() ==> s[k] == b,
    ensures
        first_index(s, b) == k,
{
    lemma_first_index(s, b);
    let i = first_index(s, b);
    if i < k {
        assert(s[i] != b);
    } else if k < i {
        assert(s[k] != b);
    }
}

/// A string without `b` is its own only part.
pub proof fn lemma_split_whole(s: Seq<u8>, b: u8)
    requires
        forall|i: int| 0 <= i < s.len() ==> s[i] != b,
    ensures
        split(s, b) == seq![s],
{
    lemma_first_index_is(s, b, s.len() as int);
}

/// The parts of two strings with a `b` between them are the parts of the
/// first and then those of the second.
pub proof fn lemma_split_joined(a: Seq<u8>, c: Seq<u8>, b: u8)
    ensures
        split(a + seq![b] + c, b) == split(a, b) + split(c, b),
    decreases a.len(),
{
    let whole = a + seq![b] + c;
    let i = first_index(a, b);
    lemma_first_index(a, b);
    assert forall|j: int| 0 <= j < i implies whole[j] != b by {
        assert(whole[j] == a[j]);
    }
    if i < a.len() {
        assert(whole[i] == a[i]);
        lemma_first_index_is(whole, b, i);
        assert(whole.take(i) =~= a.take(i));
        assert(whole.skip(i + 1) =~= a.skip(i + 1) + seq![b] + c);
        lemma_split_joined(a.skip(i + 1), c, b);
        assert(split(whole, b) =~= split(a, b) + split(c, b));
    } else {
        assert(whole[i] == b);
        lemma_first_index_is(whole, b, i);
        assert(whole.take(i) =~= a);
        assert(whole.skip(i + 1) =~= c);
        assert(split(whole, b) =~= split(a, b) + split(c, b));
    }
}

/// A string that loses bytes in front of its first `b` keeps its parts, but
/// for the first part, which loses those bytes.
pub proof fn lemma_split_skipped(s: Seq<u8>, b: u8, k: int)
    requires
        0 <= k <= first_index(s, b),
    ensures
        split(s, b).len() > 0,
        split(s.skip(k), b) == split(s, b).update(0, split(s, b)[0].skip(k)),
{
    let i = first_index(s, b);
    lemma_first_index(s, b);
    let t = s.skip(k);
    assert forall|j: int| 0 <= j < i - k implies t[j] != b by {
        assert(t[j] == s[j + k]);
    }
    if i < s.len() {
        assert(t[i - k] == s[i]);
        lemma_first_index_is(t, b, i - k);
        assert(t.take(i - k) =~= s.take(i).skip(k));
        assert(t.skip(i - k + 1) =~= s.skip(i + 1));
        assert(split(t, b) =~= split(s, b).update(0, split(s, b)[0].skip(k)));
    } else {
        lemma_first_index_is(t, b, i - k);
        assert(split(t, b) =~= split(s, b).update(0, split(s, b)[0].skip(k)));
    }
}

/// A string that neither begins nor ends with a space is trimmed already.
pub proof fn lemma_trim_nothing(s: Seq<u8>)
    requires
        s.len() > 0 ==> s[0] != SPACE && s.last() != SPACE,
    ensures
        trim(s) == s,
{
    lemma_trim_start_from(s, 0);
    assert(s.skip(0) =~= s);
    lemma_trim_end_upto(s, s.len() as int);
    assert(s.take(s.len() as int) =~= s);
}

/// The position of the first `b` in `s`, or the length of `s`.
pub fn find_byte(s: &[u8], b: u8) -> (i: usize)
    ensures
        i == first_index(s@, b),
        i <= s@.len(),
{
    let n = s.len();
    let mut i: usize = 0;
    while i < n && s[i] != b
        invariant
            n == s@.len(),
            i <= n,
            forall|j: int| 0 <= j < i ==> s@[j] != b,
        decreases n - i,
    {
        i += 1;
    }
    proof {
        lemma_first_index_is(s@, b, i as int);
    }
    i
}

/// Splits `s` at its first `b`.
pub fn split_at_first(s: &[u8], b: u8) -> (r: Option<(&[u8], &[u8])>)
    ensures
        match r {
            Some((head, tail)) => split_once(s@, b) == Some((head@, tail@)),
            None => split_once(s@, b).is_none(),
        },
{
    let i = find_byte(s, b);
    if i < s.len() {
        let head = slice_subrange(s, 0, i);
        let tail = slice_subrange(s, i + 1, s.len());
        proof {
            assert(head@ =~= s@.take(i as int));
            assert(tail@ =~= s@.skip(i + 1));
        }
        Some((head, tail))
    } else {
        None
    }
}

} // verus!
