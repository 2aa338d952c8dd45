//! Decimal text of the protocol's numeric fields.
//!
//! Integer replies, bulk-string lengths and array counts all travel as
//! decimal ASCII.  This module renders an integer as its digit string and
//! reads one back, with the value pinned exactly in both directions.

use vstd::prelude::*;

verus! {

/// Whether `b` is an ASCII decimal digit.
pub open spec fn is_digit(b: u8) -> bool {
    48 <= b <= 57
}

/// Whether every byte of `s` is an ASCII decimal digit.
pub open spec fn all_digits(s: Seq<u8>) -> bool {
    forall|i: int| 0 <= i < s.len() ==> is_digit(#[trigger] s[i])
}

/// Numeric value of a digit string, most significant digit first; only
/// meaningful when `all_digits(s)`.
pub open spec fn dec_value(s: Seq<u8>) -> int
    decreases s.len(),
{
    if s.len() == 0 {
        0
    } else {
        dec_value(s.drop_last()) * 10 + (s.last() - 48)
    }
}

/// Shortest digit string of a natural number: no leading zero, except for
/// the single digit `0` itself.
pub open spec fn spec_dec_digits(n: nat) -> Seq<u8>
    decreases n,
{
    if n < 10 {
        seq![(48 + n) as u8]
    } else {
        spec_dec_digits(n / 10).push((48 + n % 10) as u8)
    }
}

/// What reading a decimal field yields: the value, if the text is a
/// non-empty run of digits whose value fits in 64 bits unsigned.
pub open spec fn spec_parse_u64(s: Seq<u8>) -> Option<u64> {
    if s.len() > 0 && all_digits(s) && dec_value(s) <= u64::MAX {
        Some(dec_value(s) as u64)
    } else {
        None
    }
}

/// A digit string's value is not negative.
pub proof fn lemma_dec_value_nonneg(s: Seq<u8>)
    requires
        all_digits(s),
    ensures
        dec_value(s) >= 0,
    decreases s.len(),
{
    if s.len() > 0 {
        assert(all_digits(s.drop_last()));
        lemma_dec_value_nonneg(s.drop_last());
    }
}

/// Extending a digit string on the right can only grow its value.
pub proof fn lemma_dec_value_take_mono(s: Seq<u8>, i: int, j: int)
    requires
        0 <= i <= j <= s.len(),
        all_digits(s),
    ensures
        dec_value(s.take(i)) <= dec_value(s.take(j)),
    decreases j - i,
{
    if i < j {
        lemma_dec_value_take_mono(s, i, j - 1);
        let t = s.take(j);
        assert(t.drop_last() =~= s.take(j - 1));
        assert(all_digits(s.take(j - 1)));
        lemma_dec_value_nonneg(s.take(j - 1));
        assert(dec_value(t) == dec_value(s.take(j - 1)) * 10 + (s[j - 1] - 48));
        assert(dec_value(s.take(j - 1)) * 10 >= dec_value(s.take(j - 1))) by (nonlinear_arith)
            requires dec_value(s.take(j - 1)) >= 0;
    }
}

/// The digit string of `n` is made of digits, is never empty, starts with
/// a non-zero digit unless it is exactly `0`, and reads back to `n`.
pub proof fn lemma_dec_digits_value(n: nat)
    ensures
        spec_dec_digits(n).len() >= 1,
        all_digits(spec_dec_digits(n)),
        dec_value(spec_dec_digits(n)) == n,
        n > 0 ==> spec_dec_digits(n)[0] != 48,
        n < 10 ==> spec_dec_digits(n).len() == 1,
    decreases n,
{
    if n < 10 {
        let s = spec_dec_digits(n);
        assert(s.drop_last() =~= Seq::<u8>::empty());
        assert(dec_value(s.drop_last()) == 0);
        assert(dec_value(s) == n);
    } else {
        lemma_dec_digits_value(n / 10);
        let d = spec_dec_digits(n / 10);
        let whole = spec_dec_digits(n);
        assert(whole =~= d.push((48 + n % 10) as u8));
        assert(whole.drop_last() =~= d);
        assert(dec_value(whole) == dec_value(d) * 10 + (n % 10));
        assert((n / 10) * 10 + n % 10 == n) by (nonlinear_arith);
        assert(n / 10 > 0);
        assert(whole[0] == d[0]);
    }
}

/// Appends the decimal digits of `n` to `out`.
pub fn push_dec_u64(out: &mut Vec<u8>, n: u64)
    ensures
        final(out)@ == old(out)@ + spec_dec_digits(n as nat),
    decreases n,
{
    if n < 10 {
        out.push(48 + (n as u8));
        assert(out@ =~= old(out)@ + spec_dec_digits(n as nat));
    } else {
        push_dec_u64(out, n / 10);
        out.push(48 + ((n % 10) as u8));
        assert(out@ =~= old(out)@ + spec_dec_digits(n as nat));
    }
}

/// Reads a whole slice as an unsigned decimal number.  Fails exactly when
/// the slice is empty, holds a non-digit, or spells a value above
/// `u64::MAX`.
pub fn parse_u64_bytes(s: &[u8]) -> (r: Option<u64>)
    ensures
        r == spec_parse_u64(s@),
{
    let len = s.len();
    if len == 0 {
        return None;
    }
    let mut acc: u64 = 0;
    let mut k: usize = 0;
    while k < len
        invariant
            0 <= k <= len,
            len == s@.len(),
            all_digits(s@.take(k as int)),
            acc == dec_value(s@.take(k as int)),
        decreases len - k,
    {
        let b = *vstd::slice::slice_index_get(s, k);
        if b < 48 || b > 57 {
            assert(!is_digit(s@[k as int]));
            return None;
        }
        let d = (b - 48) as u64;
        assert(s@.take(k as int + 1).drop_last() =~= s@.take(k as int));
        assert(dec_value(s@.take(k as int + 1)) == acc * 10 + d);
        if acc > (u64::MAX - d) / 10 {
            // the value of the digits seen so far already overflows, and
            // more digits can only grow it
            assert(acc * 10 + d > u64::MAX) by (nonlinear_arith)
                requires acc > (u64::MAX - d) / 10, 0 <= d <= 9;
            proof {
                if all_digits(s@) {
                    lemma_dec_value_take_mono(s@, k as int + 1, len as int);
                    assert(s@.take(len as int) =~= s@);
                }
            }
            return None;
        }
        assert(acc * 10 + d <= u64::MAX) by (nonlinear_arith)
            requires acc <= (u64::MAX - d) / 10, 0 <= d <= 9;
        acc = acc * 10 + d;
        k = k + 1;
    }
    assert(s@.take(len as int) =~= s@);
    Some(acc)
}

/// What reading a signed decimal field yields: an optional minus sign and
/// a non-empty run of digits, with the value in the signed 64-bit range.
pub open spec fn spec_parse_i64(s: Seq<u8>) -> Option<i64> {
    if s.len() > 0 && s[0] == 45 {
        let mag = s.drop_first();
        if mag.len() > 0 && all_digits(mag) && dec_value(mag) <= 0x8000_0000_0000_0000 {
            Some((-dec_value(mag)) as i64)
        } else {
            None
        }
    } else {
        if s.len() > 0 && all_digits(s) && dec_value(s) <= i64::MAX {
            Some(dec_value(s) as i64)
        } else {
            None
        }
    }
}

/// Reads a whole slice as a signed decimal number.  Fails exactly when the
/// text (after an optional minus sign) is empty, holds a non-digit, or
/// spells a value outside the signed 64-bit range.
pub fn parse_i64_bytes(s: &[u8]) -> (r: Option<i64>)
    ensures
        r == spec_parse_i64(s@),
{
    let len = s.len();
    if len > 0 && *vstd::slice::slice_index_get(s, 0) == 45 {
        let mag = vstd::slice::slice_subrange(s, 1, len);
        proof {
            assert(mag@ =~= s@.drop_first());
        }
        match parse_u64_bytes(mag) {
            None => {
                proof {
                    if s@.drop_first().len() > 0 && all_digits(s@.drop_first()) {
                        lemma_dec_value_nonneg(s@.drop_first());
                    }
                }
                None
            },
            Some(v) => {
                proof {
                    lemma_dec_value_nonneg(s@.drop_first());
                }
                if v > 9223372036854775808u64 {
                    None
                } else if v == 9223372036854775808u64 {
                    Some(i64::MIN)
                } else {
                    Some(-(v as i64))
                }
            },
        }
    } else {
        match parse_u64_bytes(s) {
            None => {
                proof {
                    if s@.len() > 0 && all_digits(s@) {
                        lemma_dec_value_nonneg(s@);
                    }
                }
                None
            },
            Some(v) => {
                proof {
                    lemma_dec_value_nonneg(s@);
                }
                if v > i64::MAX as u64 {
                    None
                } else {
                    Some(v as i64)
                }
            },
        }
    }
}


/// The `k`-th power of ten.
pub open spec fn spec_pow10(k: nat) -> nat
    decreases k,
{
    if k == 0 {
        1
    } else {
        10 * spec_pow10((k - 1) as nat)
    }
}

/// A number below the `k`-th power of ten has at most `k` digits.
pub proof fn lemma_dec_digits_len(n: nat, k: nat)
    requires
        k >= 1,
        n < spec_pow10(k),
    ensures
        spec_dec_digits(n).len() <= k,
    decreases n,
{
    if n >= 10 {
        let d = n / 10;
        let p = spec_pow10((k - 1) as nat);
        assert(spec_pow10(k) == 10 * p);
        if k == 1 {
            assert(spec_pow10(0) == 1);
            assert(false);
        }
        assert(n >= 10 * d) by (nonlinear_arith)
            requires d == n / 10, n >= 0;
        assert(d < p) by (nonlinear_arith)
            requires n >= 10 * d, n < 10 * p;
        lemma_dec_digits_len(d, (k - 1) as nat);
    }
}

/// Digit strings of 64-bit values are at most twenty digits long.
pub proof fn lemma_dec_digits_len_u64(n: nat)
    requires
        n <= u64::MAX,
    ensures
        spec_dec_digits(n).len() <= 20,
{
    assert(spec_pow10(20) == 100000000000000000000) by {
        reveal_with_fuel(spec_pow10, 21);
    }
    lemma_dec_digits_len(n, 20);
}

} // verus!
