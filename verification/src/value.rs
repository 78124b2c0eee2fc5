//! The fixed-point value grammar `-?[0-9]+\.[0-9]` and its meaning.
//!
//! A value is held in tenths, as a signed integer: `"12.3"` is `123`,
//! `"-0.5"` is `-5`. Summing tenths is exact, so per-key statistics carry
//! no rounding error.

use vstd::prelude::*;
use crate::RecordError;

verus! {

/// Byte value of `-`.
pub const MINUS: u8 = 45;
/// Byte value of `.`.
pub const DOT: u8 = 46;
/// Byte value of `0`.
pub const ZERO: u8 = 48;

pub open spec fn is_digit(b: u8) -> bool {
    48 <= b <= 57
}

pub open spec fn all_digits(s: Seq<u8>) -> bool {
    forall|i: int| 0 <= i < s.len() ==> is_digit(s[i])
}

/// The unsigned part of the grammar: `[0-9]+ '.' [0-9]`.
pub open spec fn valid_unsigned_value(s: Seq<u8>) -> bool {
    &&& s.len() >= 3
    &&& s[s.len() - 2] == DOT
    &&& all_digits(s.take(s.len() - 2))
    &&& is_digit(s[s.len() - 1])
}

/// The whole grammar: an optional leading `-` before the unsigned part.
pub open spec fn valid_value(s: Seq<u8>) -> bool {
    if s.len() > 0 && s[0] == MINUS {
        valid_unsigned_value(s.skip(1))
    } else {
        valid_unsigned_value(s)
    }
}

/// Numeric value of a run of decimal digit bytes, most significant first.
pub open spec fn digits_val(s: Seq<u8>) -> int
    decreases s.len(),
{
    if s.len() == 0 {
        0
    } else {
        digits_val(s.drop_last()) * 10 + (s.last() - ZERO)
    }
}

/// Value in tenths of the unsigned part.
pub open spec fn unsigned_value_of(s: Seq<u8>) -> int {
    digits_val(s.take(s.len() - 2)) * 10 + (s[s.len() - 1] - ZERO)
}

/// Value in tenths of a string of the whole grammar.
pub open spec fn value_of(s: Seq<u8>) -> int {
    if s.len() > 0 && s[0] == MINUS {
        -unsigned_value_of(s.skip(1))
    } else {
        unsigned_value_of(s)
    }
}

/// Whether the value is representable in the `i64` tenths carried at run time.
pub open spec fn value_fits(s: Seq<u8>) -> bool {
    -(i64::MAX as int) <= value_of(s) <= i64::MAX as int
}

pub proof fn lemma_digits_val_nonneg(s: Seq<u8>)
    requires
        all_digits(s),
    ensures
        digits_val(s) >= 0,
    decreases s.len(),
{
    if s.len() > 0 {
        lemma_digits_val_nonneg(s.drop_last());
    }
}

/// A prefix of a digit run never exceeds the value of the whole run.
pub proof fn lemma_digits_val_take(s: Seq<u8>, k: int)
    requires
        all_digits(s),
        0 <= k <= s.len(),
    ensures
        0 <= digits_val(s.take(k)) <= digits_val(s),
    decreases s.len(),
{
    if k == s.len() {
        assert(s.take(k) =~= s);
        lemma_digits_val_nonneg(s);
    } else {
        assert(s.drop_last().take(k) =~= s.take(k));
        lemma_digits_val_take(s.drop_last(), k);
    }
}

/// A nonempty digit run without a leading zero has value at least 1,
/// and at least 10 once it has two digits.
pub proof fn lemma_digits_val_pos(s: Seq<u8>)
    requires
        all_digits(s),
        s.len() >= 1,
        s[0] != ZERO,
    ensures
        digits_val(s) >= 1,
        s.len() >= 2 ==> digits_val(s) >= 10,
    decreases s.len(),
{
    assert(is_digit(s[s.len() - 1]));
    if s.len() == 1 {
        assert(s.drop_last().len() == 0);
        assert(digits_val(s.drop_last()) == 0);
        assert(digits_val(s) == s[0] - ZERO);
    } else {
        assert(all_digits(s.drop_last())) by {
            assert(forall|i: int| 0 <= i < s.len() - 1 ==> s.drop_last()[i] == s[i]);
        }
        lemma_digits_val_pos(s.drop_last());
    }
}

/// Parses a byte slice of the grammar `-?[0-9]+\.[0-9]` into tenths.
///
/// Returns `Ok` exactly when the slice matches the grammar and the value is
/// representable; every rejection is `MalformedValue`.
pub fn parse_value(s: &[u8]) -> (r: Result<i64, RecordError>)
    ensures
        match r {
            Ok(v) => valid_value(s@) && value_fits(s@) && v == value_of(s@),
            Err(e) => e == RecordError::MalformedValue && !(valid_value(s@) && value_fits(s@)),
        },
{
    let n = s.len();
    let neg = n > 0 && s[0] == MINUS;
    let start: usize = if neg { 1 } else { 0 };
    let ghost u: Seq<u8> = if neg { s@.skip(1) } else { s@ };
    assert(u =~= s@.subrange(start as int, n as int));
    if n < 3 || n - start < 3 {
        return Err(RecordError::MalformedValue);
    }
    if s[n - 2] != DOT {
        return Err(RecordError::MalformedValue);
    }
    let last = s[n - 1];
    if !(ZERO <= last && last <= 57) {
        return Err(RecordError::MalformedValue);
    }
    let limit: u64 = i64::MAX as u64;
    let mut acc: u64 = 0;
    let mut j: usize = start;
    while j < n - 2
        invariant
            start <= j <= n - 2,
            n == s@.len(),
            n - start >= 3,
            all_digits(s@.subrange(start as int, j as int)),
            acc == digits_val(s@.subrange(start as int, j as int)),
            acc <= limit,
            limit == i64::MAX as u64,
        decreases n - 2 - j,
    {
        let b = s[j];
        if !(ZERO <= b && b <= 57) {
            assert(!valid_value(s@)) by {
                assert(u[j - start] == s@[j as int]);
                assert(u.take(u.len() - 2)[j - start] == s@[j as int]);
            }
            return Err(RecordError::MalformedValue);
        }
        let d: u64 = (b - ZERO) as u64;
        proof {
            assert(s@.subrange(start as int, j + 1).drop_last() =~= s@.subrange(
                start as int,
                j as int,
            ));
        }
        if acc > (limit - d) / 10 {
            // The digits seen so far already push the value past `i64::MAX`,
            // so no continuation of them can be representable.
            assert(acc * 10 + d > limit);
            proof {
                if valid_value(s@) {
                    let digs = u.take(u.len() - 2);
                    assert(digs =~= s@.subrange(start as int, n - 2));
                    lemma_digits_val_take(digs, j + 1 - start);
                    assert(digs.take(j + 1 - start) =~= s@.subrange(start as int, j + 1));
                    assert(digits_val(digs) >= acc * 10 + d);
                    assert(unsigned_value_of(u) >= digits_val(digs) * 10);
                    assert(value_of(s@) == if neg { -unsigned_value_of(u) } else { unsigned_value_of(u) });
                }
            }
            return Err(RecordError::MalformedValue);
        }
        acc = acc * 10 + d;
        j += 1;
    }
    let ghost digs = s@.subrange(start as int, n - 2);
    let fd: u64 = (last - ZERO) as u64;
    if acc > (limit - fd) / 10 {
        assert(acc * 10 + fd > limit);
        proof {
            if valid_value(s@) {
                assert(u.take(u.len() - 2) =~= digs);
                assert(unsigned_value_of(u) == acc * 10 + fd);
            }
        }
        return Err(RecordError::MalformedValue);
    }
    let mag: u64 = acc * 10 + fd;
    proof {
        assert(u.take(u.len() - 2) =~= digs);
        assert(u[u.len() - 2] == s@[n - 2]);
        assert(u[u.len() - 1] == s@[n - 1]);
        assert(valid_unsigned_value(u));
        assert(unsigned_value_of(u) == mag);
    }
    let v: i64 = mag as i64;
    if neg {
        Ok(-v)
    } else {
        Ok(v)
    }
}

/// A value string is canonical when its integer part has no leading zero and
/// it is not a negative spelling of zero.
pub open spec fn canonical_value(s: Seq<u8>) -> bool {
    let u = if s.len() > 0 && s[0] == MINUS {
        s.skip(1)
    } else {
        s
    };
    &&& valid_value(s)
    &&& value_fits(s)
    &&& (u.len() > 3 ==> u[0] != ZERO)
    &&& (s.len() > 0 && s[0] == MINUS ==> value_of(s) != 0)
}

/// Rendering inverts the numeric reading of a digit run without a leading zero.
pub proof fn lemma_dec_digits_round(d: Seq<u8>)
    requires
        all_digits(d),
        d.len() >= 1,
        d.len() > 1 ==> d[0] != ZERO,
    ensures
        dec_digits(digits_val(d)) == d,
    decreases d.len(),
{
    if d.len() == 1 {
        assert(d.drop_last().len() == 0);
        assert(digits_val(d.drop_last()) == 0);
        assert(digits_val(d) == d[0] - ZERO);
        assert(dec_digits(digits_val(d)) =~= d);
    } else {
        let p = d.drop_last();
        assert(forall|i: int| 0 <= i < p.len() ==> p[i] == d[i]);
        lemma_digits_val_pos(p);
        let x = d.last() - ZERO;
        assert(digits_val(d) == digits_val(p) * 10 + x);
        vstd::arithmetic::div_mod::lemma_fundamental_div_mod_converse(
            digits_val(d),
            10,
            digits_val(p),
            x,
        );
        lemma_dec_digits_round(p);
        assert(dec_digits(digits_val(d)) =~= d);
    }
}

/// Rendering a parsed canonical value string reproduces it exactly.
pub proof fn lemma_value_round_trip(s: Seq<u8>)
    requires
        canonical_value(s),
    ensures
        fmt_tenths(value_of(s)) == s,
{
    let neg = s.len() > 0 && s[0] == MINUS;
    let u = if neg {
        s.skip(1)
    } else {
        s
    };
    let d = u.take(u.len() - 2);
    assert(d.len() >= 1);
    assert(d.len() > 1 ==> d[0] != ZERO);
    let x = u[u.len() - 1] - ZERO;
    lemma_digits_val_nonneg(d);
    let uv = unsigned_value_of(u);
    assert(uv == digits_val(d) * 10 + x);
    vstd::arithmetic::div_mod::lemma_fundamental_div_mod_converse(uv, 10, digits_val(d), x);
    lemma_dec_digits_round(d);
    assert(fmt_unsigned_tenths(uv) =~= u);
    if neg {
        assert(uv >= 1);
        assert(fmt_tenths(value_of(s)) =~= seq![MINUS] + u);
        assert(seq![MINUS] + u =~= s);
    } else {
        assert(fmt_tenths(value_of(s)) == u);
    }
}

/// Decimal digit bytes of a nonnegative integer, most significant first.
pub open spec fn dec_digits(n: int) -> Seq<u8>
    decreases n,
{
    if n < 10 {
        seq![(ZERO + n) as u8]
    } else {
        dec_digits(n / 10).push((ZERO + n % 10) as u8)
    }
}

/// Rendering of a nonnegative value in tenths: integer part, `.`, one digit.
pub open spec fn fmt_unsigned_tenths(u: int) -> Seq<u8> {
    dec_digits(u / 10) + seq![DOT] + seq![(ZERO + u % 10) as u8]
}

/// Rendering of a value in tenths with exactly one fractional digit.
pub open spec fn fmt_tenths(t: int) -> Seq<u8> {
    if t < 0 {
        seq![MINUS] + fmt_unsigned_tenths(-t)
    } else {
        fmt_unsigned_tenths(t)
    }
}

/// Writes the decimal digits of `n` onto `out`.
fn push_dec_digits(out: &mut Vec<u8>, n: u64)
    ensures
        final(out)@ == old(out)@ + dec_digits(n as int),
{
    let mut digits: Vec<u8> = Vec::new();
    let mut cur: u64 = n;
    let d0: u8 = (cur % 10) as u8;
    digits.push(ZERO + d0);
    proof {
        assert(digits@.reverse() =~= seq![(ZERO + n as int % 10) as u8]);
    }
    cur = cur / 10;
    while cur > 0
        invariant
            digits@.len() >= 1,
            dec_digits(n as int) == (if cur > 0 {
                dec_digits(cur as int)
            } else {
                Seq::<u8>::empty()
            }) + digits@.reverse(),
        decreases cur,
    {
        let d: u8 = (cur % 10) as u8;
        let ghost before = digits@;
        digits.push(ZERO + d);
        proof {
            assert(digits@.reverse() =~= seq![(ZERO + cur as int % 10) as u8] + before.reverse());
        }
        cur = cur / 10;
        proof {
            if cur > 0 {
                assert(dec_digits(n as int) =~= dec_digits(cur as int) + digits@.reverse());
            } else {
                assert(dec_digits(n as int) =~= Seq::<u8>::empty() + digits@.reverse());
            }
        }
    }
    let ghost start_out = out@;
    let mut k: usize = digits.len();
    while k > 0
        invariant
            k <= digits@.len(),
            out@ == start_out + digits@.reverse().take(digits@.len() - k),
        decreases k,
    {
        k -= 1;
        out.push(digits[k]);
        proof {
            assert(out@ =~= start_out + digits@.reverse().take(digits@.len() - k));
        }
    }
    proof {
        assert(digits@.reverse().take(digits@.len() as int) =~= digits@.reverse());
        assert(out@ =~= old(out)@ + dec_digits(n as int));
    }
}

/// Writes a value in tenths onto `out` with exactly one fractional digit.
pub fn push_tenths(out: &mut Vec<u8>, t: i64)
    requires
        t != i64::MIN,
    ensures
        final(out)@ == old(out)@ + fmt_tenths(t as int),
{
    let mut mag: u64;
    if t < 0 {
        out.push(MINUS);
        mag = (-t) as u64;
    } else {
        mag = t as u64;
    }
    let ghost mid = out@;
    push_dec_digits(out, mag / 10);
    out.push(DOT);
    out.push(ZERO + (mag % 10) as u8);
    proof {
        assert(out@ =~= mid + fmt_unsigned_tenths(mag as int));
        if t < 0 {
            assert(out@ =~= old(out)@ + fmt_tenths(t as int));
        } else {
            assert(out@ =~= old(out)@ + fmt_tenths(t as int));
        }
    }
}

} // verus!

