//! ASCII decimal numbers and little-endian integers.
//!
//! RESP frames carry lengths as ASCII decimal lines; the snapshot format
//! carries integers little-endian.  Formatting and parsing are defined by
//! the spec functions here and proved to invert each other.

use vstd::prelude::*;

verus! {

/// Decimal digit bytes of `n`, most significant digit first.
pub open spec fn spec_dec(n: nat) -> Seq<u8>
    decreases n,
{
    if n < 10 {
        seq![(48 + n) as u8]
    } else {
        spec_dec(n / 10).push((48 + n % 10) as u8)
    }
}

/// Decimal bytes of a signed number: a leading `-` when negative.
pub open spec fn spec_dec_i64(n: int) -> Seq<u8> {
    if n < 0 {
        seq![45u8] + spec_dec((-n) as nat)
    } else {
        spec_dec(n as nat)
    }
}

pub open spec fn is_digit(b: u8) -> bool {
    48 <= b && b <= 57
}

pub open spec fn all_digits(s: Seq<u8>) -> bool {
    forall|i: int| 0 <= i < s.len() ==> is_digit(#[trigger] s[i])
}

/// Numeric value of a digit string, most significant digit first.
pub open spec fn digits_val(s: Seq<u8>) -> nat
    decreases s.len(),
{
    if s.len() == 0 {
        0
    } else {
        (digits_val(s.drop_last()) * 10 + (s.last() - 48)) as nat
    }
}

/// Meaning of an unsigned decimal integer line: an optional `+` sign,
/// then one or more digits, with a value that fits in a `u64`.
pub open spec fn spec_parse_u64(s: Seq<u8>) -> Option<u64> {
    let body = if s.len() > 0 && s[0] == 43 {
        s.skip(1)
    } else {
        s
    };
    if body.len() > 0 && all_digits(body) && digits_val(body) <= u64::MAX {
        Some(digits_val(body) as u64)
    } else {
        None
    }
}

/// Meaning of a signed decimal integer line: an optional `+` or `-` sign,
/// then one or more digits, with a value that fits in an `i64`.
pub open spec fn spec_parse_i64(s: Seq<u8>) -> Option<i64> {
    if s.len() > 0 && s[0] == 45 {
        let body = s.skip(1);
        if body.len() > 0 && all_digits(body) && digits_val(body) <= i64::MAX + 1 {
            Some((-(digits_val(body) as int)) as i64)
        } else {
            None
        }
    } else {
        let body = if s.len() > 0 && s[0] == 43 {
            s.skip(1)
        } else {
            s
        };
        if body.len() > 0 && all_digits(body) && digits_val(body) <= i64::MAX {
            Some(digits_val(body) as i64)
        } else {
            None
        }
    }
}

/// Value of a byte string read as a little-endian integer: the first byte
/// is least significant.
pub open spec fn le_val(s: Seq<u8>) -> int
    decreases s.len(),
{
    if s.len() == 0 {
        0
    } else {
        s[0] + 256 * le_val(s.skip(1))
    }
}

/// The digits of `n`, written most significant first.
pub fn format_u64(n: u64) -> (r: Vec<u8>)
    ensures
        r@ == spec_dec(n as nat),
    decreases n,
{
    if n < 10 {
        let mut r: Vec<u8> = Vec::new();
        r.push(48 + n as u8);
        proof {
            assert(r@ =~= spec_dec(n as nat));
        }
        r
    } else {
        let mut r = format_u64(n / 10);
        r.push(48 + (n % 10) as u8);
        proof {
            assert(r@ =~= spec_dec(n as nat));
        }
        r
    }
}

/// The digits of `n`, with a leading `-` when `n` is negative.
pub fn format_i64(n: i64) -> (r: Vec<u8>)
    ensures
        r@ == spec_dec_i64(n as int),
{
    if n >= 0 {
        format_u64(n as u64)
    } else {
        // magnitude of n, computed without overflowing at i64::MIN
        let mag: u64 = ((-(n + 1)) as u64) + 1;
        let mut r: Vec<u8> = Vec::new();
        r.push(45);
        let mut digits = format_u64(mag);
        r.append(&mut digits);
        proof {
            assert(mag as nat == (-(n as int)) as nat);
            assert(r@ =~= spec_dec_i64(n as int));
        }
        r
    }
}

/// The value of a longer digit string is at least the value of any of its
/// prefixes.
proof fn lemma_digits_val_prefix(t: Seq<u8>, k: int)
    requires
        0 <= k <= t.len(),
        all_digits(t),
    ensures
        digits_val(t.take(k)) <= digits_val(t),
    decreases t.len() - k,
{
    if k < t.len() {
        assert(t.take(k + 1).drop_last() =~= t.take(k));
        assert(t.take(k + 1).last() == t[k]);
        lemma_digits_val_prefix(t, k + 1);
    } else {
        assert(t.take(k) =~= t);
    }
}

/// Digits-only core of the parsers: the value of `s[start..]`, or `None`
/// when that range is empty, holds a non-digit, or exceeds `u64::MAX`.
fn parse_digits(s: &[u8], start: usize) -> (r: Option<u64>)
    requires
        start <= s@.len(),
    ensures
        r == ({
            let body = s@.skip(start as int);
            if body.len() > 0 && all_digits(body) && digits_val(body) <= u64::MAX {
                Some::<u64>(digits_val(body) as u64)
            } else {
                None::<u64>
            }
        }),
{
    let ghost body = s@.skip(start as int);
    if start == s.len() {
        return None;
    }
    let mut i: usize = start;
    let mut acc: u64 = 0;
    while i < s.len()
        invariant
            start <= i <= s@.len(),
            start < s@.len(),
            body == s@.skip(start as int),
            all_digits(body.take(i - start)),
            acc as nat == digits_val(body.take(i - start)),
        decreases s@.len() - i,
    {
        let b = s[i];
        proof {
            assert(body[i - start] == s@[i as int]);
        }
        if b < 48 || b > 57 {
            proof {
                assert(!is_digit(body[i - start]));
                assert(!all_digits(body));
            }
            return None;
        }
        let d = (b - 48) as u64;
        if acc > (u64::MAX - d) / 10 {
            proof {
                // acc * 10 + d exceeds u64::MAX, so any digits-only
                // completion of the line exceeds it too.
                assert(acc * 10 + d > u64::MAX) by (nonlinear_arith)
                    requires
                        acc > (u64::MAX - d) / 10,
                        0 <= d <= 9,
                        0 <= acc,
                {}
                assert(body.take(i + 1 - start).drop_last() =~= body.take(i - start));
                assert(body.take(i + 1 - start).last() == body[i - start]);
                assert(digits_val(body.take(i + 1 - start)) > u64::MAX);
                if all_digits(body) {
                    lemma_digits_val_prefix(body, i + 1 - start);
                }
            }
            return None;
        }
        proof {
            assert(acc * 10 + d <= u64::MAX) by (nonlinear_arith)
                requires
                    acc <= (u64::MAX - d) / 10,
                    0 <= d <= 9,
                    0 <= acc,
            {}
            assert(body.take(i + 1 - start).drop_last() =~= body.take(i - start));
            assert(body.take(i + 1 - start).last() == body[i - start]);
        }
        acc = acc * 10 + d;
        i = i + 1;
    }
    proof {
        assert(body.take(i - start) =~= body);
    }
    Some(acc)
}

/// Parse an unsigned decimal integer, as the RESP bulk length line uses.
pub fn parse_u64(s: &[u8]) -> (r: Option<u64>)
    ensures
        r == spec_parse_u64(s@),
{
    proof {
        assert(s@.skip(0) =~= s@);
    }
    if s.len() > 0 && s[0] == 43 {
        parse_digits(s, 1)
    } else {
        parse_digits(s, 0)
    }
}

/// Parse a signed decimal integer, as the RESP array length line uses.
pub fn parse_i64(s: &[u8]) -> (r: Option<i64>)
    ensures
        r == spec_parse_i64(s@),
{
    proof {
        assert(s@.skip(0) =~= s@);
    }
    if s.len() > 0 && s[0] == 45 {
        match parse_digits(s, 1) {
            Some(v) => {
                if v <= i64::MAX as u64 {
                    Some(-(v as i64))
                } else if v == i64::MAX as u64 + 1 {
                    Some(i64::MIN)
                } else {
                    None
                }
            },
            None => None,
        }
    } else {
        let v = if s.len() > 0 && s[0] == 43 {
            parse_digits(s, 1)
        } else {
            parse_digits(s, 0)
        };
        match v {
            Some(v) => {
                if v <= i64::MAX as u64 {
                    Some(v as i64)
                } else {
                    None
                }
            },
            None => None,
        }
    }
}

/// Every byte of a formatted number is a decimal digit, the first digit is
/// never a sign, and parsing the digits gives the number back.
pub proof fn lemma_dec_digits(n: nat)
    ensures
        spec_dec(n).len() >= 1,
        all_digits(spec_dec(n)),
        digits_val(spec_dec(n)) == n,
    decreases n,
{
    if n < 10 {
        assert(spec_dec(n) =~= seq![(48 + n) as u8]);
        assert(spec_dec(n).drop_last() =~= Seq::<u8>::empty());
        assert(digits_val(spec_dec(n))
            == (digits_val(spec_dec(n).drop_last()) * 10 + (spec_dec(n).last() - 48)) as nat);
    } else {
        lemma_dec_digits(n / 10);
        assert(spec_dec(n).drop_last() =~= spec_dec(n / 10));
        assert(spec_dec(n).last() == (48 + n % 10) as u8);
        assert(digits_val(spec_dec(n))
            == (digits_val(spec_dec(n).drop_last()) * 10 + (spec_dec(n).last() - 48)) as nat);
        assert(digits_val(spec_dec(n)) == ((n / 10) * 10 + n % 10) as nat);
        assert forall|i: int| 0 <= i < spec_dec(n).len() implies is_digit(#[trigger] spec_dec(n)[i]) by {
            if i < spec_dec(n).len() - 1 {
                assert(spec_dec(n)[i] == spec_dec(n / 10)[i]);
            }
        }
    }
}

/// Round trip: formatting a `u64` and parsing the line gives it back.
pub proof fn lemma_dec_round_trip(n: u64)
    ensures
        spec_parse_u64(spec_dec(n as nat)) == Some(n),
{
    lemma_dec_digits(n as nat);
    assert(is_digit(spec_dec(n as nat)[0]));
}

} // verus!
