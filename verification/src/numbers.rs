//! Decimal numbers on the wire.
//!
//! The protocol writes argument lengths, reply lengths, array counts and
//! integer replies as base-10 ASCII. This module gives the protocol's view
//! of such text: what a run of digits denotes, what the canonical digits of
//! a number are, and executable routines to read and write them.

use vstd::prelude::*;

verus! {

/// ASCII `0` through `9`.
pub open spec fn is_digit(b: u8) -> bool {
    48 <= b <= 57
}

/// Every byte of `t` is an ASCII digit.
pub open spec fn all_digits(t: Seq<u8>) -> bool {
    forall|i: int| 0 <= i < t.len() ==> is_digit(#[trigger] t[i])
}

/// The number denoted by a run of ASCII digits (most significant first).
/// Leading zeros are allowed and denote the same number.
pub open spec fn digits_val(t: Seq<u8>) -> nat
    decreases t,
{
    if t.len() == 0 {
        0
    } else {
        digits_val(t.drop_last()) * 10 + (t.last() - 48) as nat
    }
}

/// The signed number denoted by `t`: an optional ASCII `-`, then at least
/// one digit. `None` when `t` is not of that shape.
pub open spec fn parse_int(t: Seq<u8>) -> Option<int> {
    if t.len() > 0 && t[0] == 45 {
        let d = t.skip(1);
        if d.len() > 0 && all_digits(d) {
            Some(-(digits_val(d) as int))
        } else {
            None
        }
    } else if t.len() > 0 && all_digits(t) {
        Some(digits_val(t) as int)
    } else {
        None
    }
}

/// The canonical decimal digits of `n`: no sign, no leading zero
/// (except for `n == 0` itself).
pub open spec fn dec_digits(n: nat) -> Seq<u8>
    decreases n,
{
    if n < 10 {
        seq![(48 + n) as u8]
    } else {
        dec_digits(n / 10).push((48 + n % 10) as u8)
    }
}

/// Appending one digit multiplies the denoted number by ten.
pub proof fn lemma_digits_val_push(t: Seq<u8>, b: u8)
    requires
        is_digit(b),
    ensures
        digits_val(t.push(b)) == digits_val(t) * 10 + (b - 48),
{
    assert(t.push(b).drop_last() =~= t);
    assert(t.push(b).last() == b);
}

/// The canonical digits of `n` are digits, start with no sign, and denote `n`.
pub proof fn lemma_dec_digits(n: nat)
    ensures
        dec_digits(n).len() >= 1,
        all_digits(dec_digits(n)),
        digits_val(dec_digits(n)) == n,
        forall|i: int| 0 <= i < dec_digits(n).len() ==> is_digit(#[trigger] dec_digits(n)[i]),
    decreases n,
{
    if n < 10 {
        assert(digits_val(dec_digits(n)) == digits_val(dec_digits(n).drop_last()) * 10 + (
        dec_digits(n).last() - 48) as nat);
        assert(dec_digits(n).drop_last() =~= Seq::<u8>::empty());
    } else {
        lemma_dec_digits(n / 10);
        lemma_digits_val_push(dec_digits(n / 10), (48 + n % 10) as u8);
        assert(digits_val(dec_digits(n)) == (n / 10) * 10 + n % 10);
        assert((n / 10) * 10 + n % 10 == n) by {
            vstd::arithmetic::div_mod::lemma_fundamental_div_mod(n as int, 10);
        }
    }
}

/// Append the decimal digits of `n` to `out`.
pub fn push_decimal(out: &mut Vec<u8>, n: u64)
    ensures
        final(out)@ == old(out)@ + dec_digits(n as nat),
    decreases n,
{
    if n < 10 {
        out.push(48 + n as u8);
        assert(out@ =~= old(out)@ + dec_digits(n as nat));
    } else {
        push_decimal(out, n / 10);
        out.push(48 + (n % 10) as u8);
        assert(out@ =~= old(out)@ + dec_digits(n as nat));
    }
}

/// What an executable scan of a digit run can report.
pub enum ScannedNum {
    /// The bytes are not one-or-more digits.
    NotNum,
    /// The denoted number, which fits in a `u64`.
    Num(u64),
    /// A digit run denoting a number beyond `u64::MAX`.
    Big,
}

/// Read the digit run `buf[lo..hi]`.
pub fn scan_digits(buf: &Vec<u8>, lo: usize, hi: usize) -> (r: ScannedNum)
    requires
        lo <= hi <= buf@.len(),
    ensures
        ({
            let t = buf@.subrange(lo as int, hi as int);
            match r {
                ScannedNum::NotNum => !(t.len() > 0 && all_digits(t)),
                ScannedNum::Num(v) => t.len() > 0 && all_digits(t) && digits_val(t) == v,
                ScannedNum::Big => t.len() > 0 && all_digits(t) && digits_val(t) > u64::MAX,
            }
        }),
{
    let ghost t = buf@.subrange(lo as int, hi as int);
    if lo == hi {
        return ScannedNum::NotNum;
    }
    let mut acc: u64 = 0;
    let mut big: bool = false;
    let mut j: usize = lo;
    while j < hi
        invariant
            lo <= j <= hi <= buf@.len(),
            t == buf@.subrange(lo as int, hi as int),
            all_digits(t.take(j - lo)),
            !big ==> acc == digits_val(t.take(j - lo)),
            big ==> digits_val(t.take(j - lo)) > u64::MAX,
        decreases hi - j,
    {
        let b = buf[j];
        if b < 48 || b > 57 {
            assert(t[j - lo] == b);
            assert(!all_digits(t));
            return ScannedNum::NotNum;
        }
        let d = b - 48;
        proof {
            assert(t[j - lo] == b);
            assert(t.take(j - lo + 1).drop_last() =~= t.take(j - lo));
            assert(t.take(j - lo + 1).last() == b);
            assert(digits_val(t.take(j - lo + 1)) == digits_val(t.take(j - lo)) * 10 + (b
                - 48));
        }
        if !big {
            if acc > (u64::MAX - d as u64) / 10 {
                big = true;
                assert(digits_val(t.take(j - lo + 1)) > u64::MAX);
            } else {
                acc = acc * 10 + d as u64;
            }
        } else {
            assert(digits_val(t.take(j - lo + 1)) > u64::MAX);
        }
        j = j + 1;
    }
    assert(t.take(hi - lo) =~= t);
    if big {
        ScannedNum::Big
    } else {
        ScannedNum::Num(acc)
    }
}

} // verus!
