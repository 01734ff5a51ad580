//! Splitting bytes into lines, words and `/`-separated fields.

use vstd::prelude::*;
use vstd::slice::slice_subrange;

verus! {

/// The ASCII line feed.
pub const LINE_FEED: u8 = 10;

/// The ASCII slash, which separates the fields of a word.
pub const SLASH: u8 = 47;

/// ASCII white space: space, tab, line feed, vertical tab, form feed and
/// carriage return. No other byte separates words: white space beyond
/// ASCII, such as a no-break space, is part of the word it stands in.
pub open spec fn is_space(b: u8) -> bool {
    b == 32 || (9 <= b <= 13)
}

/// The first index at or after `i` that holds `b`, or the length of `s`.
pub open spec fn next_byte(s: Seq<u8>, i: int, b: u8) -> int
    decreases s.len() - i,
{
    if i >= s.len() {
        s.len() as int
    } else if i >= 0 && s[i] == b {
        i
    } else {
        next_byte(s, i + 1, b)
    }
}

/// The first index at or after `i` that holds no white space, or the length
/// of `s`.
pub open spec fn after_spaces(s: Seq<u8>, i: int) -> int
    decreases s.len() - i,
{
    if i >= s.len() {
        s.len() as int
    } else if i >= 0 && !is_space(s[i]) {
        i
    } else {
        after_spaces(s, i + 1)
    }
}

/// The first index at or after `i` that holds white space, or the length of
/// `s`.
pub open spec fn after_word(s: Seq<u8>, i: int) -> int
    decreases s.len() - i,
{
    if i >= s.len() {
        s.len() as int
    } else if i >= 0 && is_space(s[i]) {
        i
    } else {
        after_word(s, i + 1)
    }
}

/// The words of `s` from index `i` on: the maximal runs of bytes that are not
/// ASCII white space, in order.
pub open spec fn words_from(s: Seq<u8>, i: int) -> Seq<Seq<u8>>
    decreases s.len() - i,
{
    let a = after_spaces(s, i);
    if 0 <= i && a < s.len() {
        let b = after_word(s, a);
        proof {
            lemma_after_spaces(s, i);
            lemma_after_word(s, a);
        }
        seq![s.subrange(a, b)] + words_from(s, b)
    } else {
        Seq::empty()
    }
}

/// The words of `s`. Only ASCII white space separates them.
pub open spec fn words(s: Seq<u8>) -> Seq<Seq<u8>> {
    words_from(s, 0)
}

/// Field number `k` of what `s` holds from index `i` on, where `/` separates
/// fields: `None` when there are `k` fields or fewer.
pub open spec fn field_from(s: Seq<u8>, i: int, k: nat) -> Option<Seq<u8>>
    decreases k,
{
    let j = next_byte(s, i, SLASH);
    if i < 0 || i > s.len() {
        None
    } else if k == 0 {
        Some(s.subrange(i, j))
    } else if j >= s.len() {
        None
    } else {
        field_from(s, j + 1, (k - 1) as nat)
    }
}

/// Field number `k` of the word `s`, counted from 0. A word without a slash
/// is one field; between two slashes that touch lies an empty field.
pub open spec fn field(s: Seq<u8>, k: nat) -> Option<Seq<u8>> {
    field_from(s, 0, k)
}

pub proof fn lemma_next_byte(s: Seq<u8>, i: int, b: u8)
    requires
        0 <= i <= s.len(),
    ensures
        i <= next_byte(s, i, b) <= s.len(),
        next_byte(s, i, b) < s.len() ==> s[next_byte(s, i, b)] == b,
        forall|j: int| i <= j < next_byte(s, i, b) ==> s[j] != b,
    decreases s.len() - i,
{
    if i < s.len() && s[i] != b {
        lemma_next_byte(s, i + 1, b);
    }
}

pub proof fn lemma_after_spaces(s: Seq<u8>, i: int)
    requires
        0 <= i,
    ensures
        i <= s.len() ==> i <= after_spaces(s, i) <= s.len(),
        after_spaces(s, i) < s.len() ==> !is_space(s[after_spaces(s, i)]),
        forall|j: int| i <= j < after_spaces(s, i) ==> is_space(s[j]),
    decreases s.len() - i,
{
    if i < s.len() && is_space(s[i]) {
        lemma_after_spaces(s, i + 1);
    }
}

pub proof fn lemma_after_word(s: Seq<u8>, i: int)
    requires
        0 <= i,
    ensures
        i <= s.len() ==> i <= after_word(s, i) <= s.len(),
        i < s.len() && !is_space(s[i]) ==> i < after_word(s, i),
        after_word(s, i) < s.len() ==> is_space(s[after_word(s, i)]),
        forall|j: int| i <= j < after_word(s, i) ==> !is_space(s[j]),
    decreases s.len() - i,
{
    if i < s.len() && !is_space(s[i]) {
        lemma_after_word(s, i + 1);
    }
}

/// The index of the first `b` in `s` at or after `i`, or the length of `s`.
pub fn find_byte(s: &[u8], i: usize, b: u8) -> (j: usize)
    requires
        i <= s@.len(),
    ensures
        j == next_byte(s@, i as int, b),
        i <= j <= s@.len(),
{
    let mut j: usize = i;
    while j < s.len() && s[j] != b
        invariant
            i <= j <= s@.len(),
            next_byte(s@, i as int, b) == next_byte(s@, j as int, b),
        decreases s@.len() - j,
    {
        j = j + 1;
    }
    j
}

/// The index of the first byte of `s` at or after `i` that is not white
/// space, or the length of `s`.
pub fn skip_spaces(s: &[u8], i: usize) -> (j: usize)
    requires
        i <= s@.len(),
    ensures
        j == after_spaces(s@, i as int),
        i <= j <= s@.len(),
{
    let mut j: usize = i;
    while j < s.len() && (s[j] == 32 || (9 <= s[j] && s[j] <= 13))
        invariant
            i <= j <= s@.len(),
            after_spaces(s@, i as int) == after_spaces(s@, j as int),
        decreases s@.len() - j,
    {
        j = j + 1;
    }
    j
}

/// The index of the first byte of `s` at or after `i` that is white space, or
/// the length of `s`.
pub fn skip_word(s: &[u8], i: usize) -> (j: usize)
    requires
        i <= s@.len(),
    ensures
        j == after_word(s@, i as int),
        i <= j <= s@.len(),
        i < s@.len() && !is_space(s@[i as int]) ==> i < j,
{
    let mut j: usize = i;
    while j < s.len() && !(s[j] == 32 || (9 <= s[j] && s[j] <= 13))
        invariant
            i <= j <= s@.len(),
            after_word(s@, i as int) == after_word(s@, j as int),
            i < s@.len() && !is_space(s@[i as int]) && j == i ==> j < s@.len() && !is_space(
                s@[j as int],
            ),
        decreases s@.len() - j,
    {
        j = j + 1;
    }
    j
}

/// The first word of `s` at or after index `i` and the index behind it, or
/// `None` when only white space is left.
pub fn next_word(s: &[u8], i: usize) -> (r: Option<(&[u8], usize)>)
    requires
        i <= s@.len(),
    ensures
        match r {
            Some((word, rest)) => {
                &&& i < rest <= s@.len()
                &&& word@.len() > 0
                &&& words_from(s@, i as int) == seq![word@] + words_from(s@, rest as int)
            },
            None => words_from(s@, i as int) == Seq::<Seq<u8>>::empty(),
        },
{
    let a: usize = skip_spaces(s, i);
    if a >= s.len() {
        return None;
    }
    let b: usize = skip_word(s, a);
    proof {
        lemma_after_spaces(s@, i as int);
    }
    Some((slice_subrange(s, a, b), b))
}

/// Field number `k` of the word `s`, where `/` separates fields.
pub fn get_field(s: &[u8], k: usize) -> (r: Option<&[u8]>)
    ensures
        match r {
            Some(f) => field(s@, k as nat) == Some(f@),
            None => field(s@, k as nat).is_none(),
        },
{
    let mut i: usize = 0;
    let mut left: usize = k;
    loop
        invariant
            i <= s@.len(),
            left <= k,
            field(s@, k as nat) == field_from(s@, i as int, left as nat),
        decreases left,
    {
        let j: usize = find_byte(s, i, SLASH);
        if left == 0 {
            return Some(slice_subrange(s, i, j));
        }
        if j >= s.len() {
            return None;
        }
        i = j + 1;
        left = left - 1;
    }
}

} // verus!
