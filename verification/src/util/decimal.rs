//! Numbers as ASCII text: unsigned integers both ways, and the shape of
//! floating-point numbers.

use vstd::prelude::*;

verus! {

/// The ASCII code of the digit `0`.
pub const ZERO_DIGIT: u8 = 48;

/// The ASCII code of `+`.
pub const PLUS_SIGN: u8 = 43;

/// Whether `b` is one of the ASCII digits `0` to `9`.
pub open spec fn is_digit(b: u8) -> bool {
    48 <= b <= 57
}

/// The decimal text of `n`: no sign, no leading zero, `"0"` for zero.
pub open spec fn decimal(n: nat) -> Seq<u8>
    decreases n,
{
    if n < 10 {
        seq![(48 + n) as u8]
    } else {
        decimal(n / 10).push((48 + n % 10) as u8)
    }
}

/// Whether every byte of `s` is a digit.
pub open spec fn all_digits(s: Seq<u8>) -> bool {
    forall|i: int| 0 <= i < s.len() ==> is_digit(#[trigger] s[i])
}

/// The number that a run of digits writes, read as base ten; 0 for no digits.
pub open spec fn digits_value(s: Seq<u8>) -> nat
    decreases s.len(),
{
    if s.len() == 0 {
        0
    } else {
        (digits_value(s.drop_last()) * 10 + (s.last() - 48)) as nat
    }
}

/// The digits of a number token: the token itself, or what follows one
/// leading `+`.
pub open spec fn unsigned_body(token: Seq<u8>) -> Seq<u8> {
    if token.len() > 0 && token[0] == PLUS_SIGN {
        token.skip(1)
    } else {
        token
    }
}

/// What a token means as a `usize`: the value of its digits when there is at
/// least one, all of it is digits after an optional `+`, and the value fits.
pub open spec fn parsed_usize(token: Seq<u8>) -> Option<usize> {
    let body = unsigned_body(token);
    if body.len() > 0 && all_digits(body) && digits_value(body) <= usize::MAX {
        Some(digits_value(body) as usize)
    } else {
        None
    }
}

/// The decimal text of a number is made of digits and is never empty.
pub proof fn lemma_decimal_is_digits(n: nat)
    ensures
        decimal(n).len() >= 1,
        all_digits(decimal(n)),
    decreases n,
{
    if n >= 10 {
        lemma_decimal_is_digits(n / 10);
    }
}

/// Reading back the decimal text of a number gives the number.
pub proof fn lemma_decimal_round_trip(n: nat)
    ensures
        digits_value(decimal(n)) == n,
    decreases n,
{
    if n < 10 {
        let s = decimal(n);
        assert(s.drop_last().len() == 0);
        assert(digits_value(s.drop_last()) == 0);
    } else {
        lemma_decimal_round_trip(n / 10);
        let s = decimal(n);
        assert(s.drop_last() =~= decimal(n / 10));
    }
}

/// A run of digits is worth at least as much as any run it begins with.
proof fn lemma_value_grows(s: Seq<u8>, k: int)
    requires
        0 <= k <= s.len(),
        all_digits(s),
    ensures
        digits_value(s.take(k)) <= digits_value(s),
    decreases s.len() - k,
{
    if k == s.len() {
        assert(s.take(k) =~= s);
    } else {
        lemma_value_grows(s, k + 1);
        let t = s.take(k + 1);
        assert(t.drop_last() =~= s.take(k));
        assert(is_digit(s[k]));
        assert(t.last() == s[k]);
    }
}

/// Whether `b` is `+` or `-`.
pub open spec fn is_sign(b: u8) -> bool {
    b == 43 || b == 45
}

/// An ASCII capital as its small letter, any other byte as it is.
pub open spec fn lowered(b: u8) -> u8 {
    if 65 <= b <= 90 {
        (b + 32) as u8
    } else {
        b
    }
}

/// The first index at or after `i` that holds no digit, or the length of `s`.
pub open spec fn digits_end(s: Seq<u8>, i: int) -> int
    decreases s.len() - i,
{
    if i >= s.len() {
        s.len() as int
    } else if i >= 0 && !is_digit(s[i]) {
        i
    } else {
        digits_end(s, i + 1)
    }
}

/// Whether `s` from index `from` on is `word`, capitals counting as small
/// letters.
pub open spec fn spells(s: Seq<u8>, from: int, word: Seq<u8>) -> bool {
    &&& s.len() - from == word.len()
    &&& forall|k: int| 0 <= k < word.len() ==> lowered(s[from + k]) == #[trigger] word[k]
}

/// Whether `s` from index `from` on is a decimal number: digits with at most
/// one point among them and at least one digit, then nothing or an exponent,
/// which is `e` or `E`, an optional sign and at least one digit.
pub open spec fn is_decimal_from(s: Seq<u8>, from: int) -> bool {
    let i = digits_end(s, from);
    let j = if i < s.len() && s[i] == 46 {
        digits_end(s, i + 1)
    } else {
        i
    };
    let m = if j + 1 < s.len() && is_sign(s[j + 1]) {
        j + 2
    } else {
        j + 1
    };
    &&& i > from || j > i + 1
    &&& j == s.len() || ((s[j] == 101 || s[j] == 69) && m < digits_end(s, m) && digits_end(s, m)
        == s.len())
}

/// Whether `s` is a floating-point number as `str::parse` takes it: an
/// optional sign, then `inf`, `infinity` or `nan` in any mix of capitals and
/// small letters, or a decimal number.
pub open spec fn is_float_text(s: Seq<u8>) -> bool {
    let from: int = if s.len() > 0 && is_sign(s[0]) {
        1
    } else {
        0
    };
    ||| spells(s, from, seq![105u8, 110u8, 102u8])
    ||| spells(s, from, seq![105u8, 110u8, 102u8, 105u8, 110u8, 105u8, 116u8, 121u8])
    ||| spells(s, from, seq![110u8, 97u8, 110u8])
    ||| is_decimal_from(s, from)
}

/// The text of a number that fits a `usize` reads back as that number.
pub proof fn lemma_decimal_reads_back(n: nat)
    requires
        n <= usize::MAX,
    ensures
        parsed_usize(decimal(n)) == Some(n as usize),
{
    lemma_decimal_is_digits(n);
    lemma_decimal_round_trip(n);
    let s = decimal(n);
    assert(is_digit(s[0]));
}

/// The index of the first byte of `s` at or after `i` that is no digit, or
/// the length of `s`.
pub fn skip_digits(s: &[u8], i: usize) -> (j: usize)
    requires
        i <= s@.len(),
    ensures
        j == digits_end(s@, i as int),
        i <= j <= s@.len(),
{
    let mut j: usize = i;
    while j < s.len() && ZERO_DIGIT <= s[j] && s[j] <= 57
        invariant
            i <= j <= s@.len(),
            digits_end(s@, i as int) == digits_end(s@, j as int),
        decreases s@.len() - j,
    {
        j = j + 1;
    }
    j
}

/// Whether `s` from index `from` on is `word`, capitals counting as small
/// letters.
fn spells_word(s: &[u8], from: usize, word: &[u8]) -> (r: bool)
    requires
        from <= s@.len(),
    ensures
        r == spells(s@, from as int, word@),
{
    let n: usize = s.len();
    if n - from != word.len() {
        return false;
    }
    let mut k: usize = 0;
    while k < word.len()
        invariant
            k <= word@.len(),
            from <= s@.len(),
            n == s@.len(),
            s@.len() - from == word@.len(),
            forall|i: int| 0 <= i < k ==> lowered(s@[from + i]) == #[trigger] word@[i],
        decreases word@.len() - k,
    {
        let b: u8 = s[from + k];
        let small: u8 = if 65 <= b && b <= 90 {
            b + 32
        } else {
            b
        };
        if small != word[k] {
            return false;
        }
        k = k + 1;
    }
    true
}

/// Whether `text` is a floating-point number as `str::parse` takes it.
pub fn is_float(text: &[u8]) -> (r: bool)
    ensures
        r == is_float_text(text@),
{
    let n: usize = text.len();
    let from: usize = if n > 0 && (text[0] == 43 || text[0] == 45) {
        1
    } else {
        0
    };
    let inf: [u8; 3] = [105, 110, 102];
    let infinity: [u8; 8] = [105, 110, 102, 105, 110, 105, 116, 121];
    let nan: [u8; 3] = [110, 97, 110];
    proof {
        assert(inf@ =~= seq![105u8, 110u8, 102u8]);
        assert(infinity@ =~= seq![105u8, 110u8, 102u8, 105u8, 110u8, 105u8, 116u8, 121u8]);
        assert(nan@ =~= seq![110u8, 97u8, 110u8]);
    }
    if spells_word(text, from, inf.as_slice()) || spells_word(text, from, infinity.as_slice())
        || spells_word(text, from, nan.as_slice()) {
        return true;
    }
    let i: usize = skip_digits(text, from);
    let j: usize = if i < n && text[i] == 46 {
        skip_digits(text, i + 1)
    } else {
        i
    };
    if !(i > from || j > i + 1) {
        return false;
    }
    if j == n {
        return true;
    }
    if text[j] != 101 && text[j] != 69 {
        return false;
    }
    let m: usize = if j + 1 < n && (text[j + 1] == 43 || text[j + 1] == 45) {
        j + 2
    } else {
        j + 1
    };
    let end: usize = skip_digits(text, m);
    m < end && end == n
}

/// Appends the decimal text of `n` to `out`.
pub fn push_decimal(out: &mut Vec<u8>, n: u64)
    ensures
        final(out)@ == old(out)@ + decimal(n as nat),
    decreases n,
{
    if n >= 10 {
        push_decimal(out, n / 10);
    }
    let digit: u8 = (n % 10) as u8;
    out.push(ZERO_DIGIT + digit);
    proof {
        if n < 10 {
            assert(final(out)@ =~= old(out)@ + decimal(n as nat));
        } else {
            assert(final(out)@ =~= old(out)@ + decimal(n as nat));
        }
    }
}

/// Reads a token as a `usize`, the way `str::parse` does for unsigned
/// integers: an optional `+`, then at least one digit, and `None` when
/// anything else occurs or the value does not fit.
pub fn parse_usize(token: &[u8]) -> (r: Option<usize>)
    ensures
        r == parsed_usize(token@),
{
    let n: usize = token.len();
    let start: usize = if n > 0 && token[0] == PLUS_SIGN {
        1
    } else {
        0
    };
    if start == n {
        return None;
    }
    let ghost body = unsigned_body(token@);
    assert(body =~= token@.skip(start as int));
    let mut acc: usize = 0;
    let mut i: usize = start;
    while i < n
        invariant
            start <= i <= n,
            n == token@.len(),
            body == token@.skip(start as int),
            body == unsigned_body(token@),
            body.len() == n - start,
            all_digits(body.take(i - start)),
            acc == digits_value(body.take(i - start)),
        decreases n - i,
    {
        let b: u8 = token[i];
        let ghost k: int = i - start;
        if b < ZERO_DIGIT || b > 57 {
            proof {
                assert(body[k] == b);
                assert(!is_digit(body[k]));
            }
            return None;
        }
        let d: usize = (b - ZERO_DIGIT) as usize;
        proof {
            let t = body.take(k + 1);
            assert(t.drop_last() =~= body.take(k));
            assert(t.last() == b);
            assert(digits_value(t) == acc * 10 + d);
            assert forall|j: int| 0 <= j < t.len() implies is_digit(#[trigger] t[j]) by {
                if j < k {
                    assert(t[j] == body.take(k)[j]);
                }
            }
        }
        let next: Option<usize> = match acc.checked_mul(10) {
            Some(m) => m.checked_add(d),
            None => None,
        };
        match next {
            Some(v) => {
                acc = v;
            },
            None => {
                proof {
                    if all_digits(body) {
                        lemma_value_grows(body, k + 1);
                    }
                }
                return None;
            },
        }
        i = i + 1;
    }
    proof {
        assert(body.take(i - start) =~= body);
    }
    Some(acc)
}

} // verus!
