//! Numbering the frames of an animation.

use crate::util::decimal::{decimal, push_decimal};
use vstd::prelude::*;

verus! {

/// How many digits a frame number has at least in a file name.
pub const FRAME_DIGITS: usize = 6;

/// `count` zero digits.
pub open spec fn zeros(count: nat) -> Seq<u8> {
    Seq::new(count, |i: int| 48u8)
}

/// The decimal text of `n`, with zeros in front up to six digits.
pub open spec fn padded(n: nat) -> Seq<u8> {
    if decimal(n).len() < 6 {
        zeros((6 - decimal(n).len()) as nat) + decimal(n)
    } else {
        decimal(n)
    }
}

/// The file name of a frame: the prefix, the padded number, and `.ppm`.
pub open spec fn frame_file_name_spec(prefix: Seq<u8>, number: nat) -> Seq<u8> {
    prefix + padded(number) + seq![46u8, 112u8, 112u8, 109u8]
}

/// The number under which frame `frame` of an animation is filed when the
/// first is filed under `starting_frame_number`, or `None` when that number
/// is too large for a `usize`.
pub fn file_frame_number(starting_frame_number: usize, frame: usize) -> (r: Option<usize>)
    ensures
        r == if starting_frame_number + frame <= usize::MAX {
            Some((starting_frame_number + frame) as usize)
        } else {
            None
        },
{
    starting_frame_number.checked_add(frame)
}

/// The name of the file that a frame is written to.
pub fn frame_file_name(prefix: &[u8], number: usize) -> (name: Vec<u8>)
    ensures
        name@ == frame_file_name_spec(prefix@, number as nat),
{
    let mut digits: Vec<u8> = Vec::new();
    push_decimal(&mut digits, number as u64);
    assert(digits@ =~= decimal(number as nat));
    let mut name: Vec<u8> = Vec::new();
    let mut i: usize = 0;
    while i < prefix.len()
        invariant
            i <= prefix@.len(),
            name@ == prefix@.take(i as int),
        decreases prefix@.len() - i,
    {
        name.push(prefix[i]);
        assert(name@ =~= prefix@.take(i + 1));
        i = i + 1;
    }
    assert(prefix@.take(i as int) =~= prefix@);
    let mut k: usize = digits.len();
    while k < FRAME_DIGITS
        invariant
            digits@.len() <= k,
            k == digits@.len() || k <= FRAME_DIGITS,
            name@ == prefix@ + zeros((k - digits@.len()) as nat),
        decreases FRAME_DIGITS - k,
    {
        name.push(48);
        assert(name@ =~= prefix@ + zeros((k + 1 - digits@.len()) as nat));
        k = k + 1;
    }
    let ghost before = name@;
    let mut j: usize = 0;
    while j < digits.len()
        invariant
            j <= digits@.len(),
            name@ == before + digits@.take(j as int),
        decreases digits@.len() - j,
    {
        name.push(digits[j]);
        assert(name@ =~= before + digits@.take(j + 1));
        j = j + 1;
    }
    assert(digits@.take(j as int) =~= digits@);
    name.push(46);
    name.push(112);
    name.push(112);
    name.push(109);
    proof {
        let n = number as nat;
        if decimal(n).len() >= 6 {
            assert(zeros(0) =~= Seq::<u8>::empty());
        }
        assert(name@ =~= frame_file_name_spec(prefix@, n));
    }
    name
}

} // verus!
