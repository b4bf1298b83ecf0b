//! The RESP codec: a framed, self-describing wire format.
//!
//! Three value kinds are in scope: simple strings (`+` line, CRLF
//! terminated), bulk strings (`$<len>\r\n<bytes>\r\n`) and arrays
//! (`*<len>\r\n` followed by that many further values, which the caller
//! streams).  Decoding works over a byte buffer and a position; a buffer
//! that ends before the frame does yields `UnexpectedEof`, so the caller
//! can extend the buffer and retry from the same position.  The spec
//! functions here are the format's definition; the executable codec is
//! proved to match them, and the round-trip laws at the end of the module
//! show that decoding inverts encoding.

use vstd::prelude::*;

use crate::WireError;
use crate::num::{is_digit, spec_dec, spec_dec_i64, spec_parse_i64, spec_parse_u64, lemma_dec_digits};
use crate::reader::copy_range;

verus! {

/// One decoded RESP value: a string's bytes, or an array header carrying
/// the announced element count (negative announces a null array).
pub enum RespValue {
    String(Vec<u8>),
    Array(i64),
}

/// Mathematical shape of a decoded RESP value.
pub enum RespVal {
    Str(Seq<u8>),
    Arr(int),
}

impl View for RespValue {
    type V = RespVal;

    open spec fn view(&self) -> RespVal {
        match self {
            RespValue::String(v) => RespVal::Str(v@),
            RespValue::Array(n) => RespVal::Arr(*n as int),
        }
    }
}

/// Position of the first CRLF pair at or after `pos`, if any.
pub open spec fn spec_find_crlf(s: Seq<u8>, pos: int) -> Option<int>
    decreases s.len() - pos,
{
    if pos + 2 > s.len() {
        None
    } else if s[pos] == 13 && s[pos + 1] == 10 {
        Some(pos)
    } else {
        spec_find_crlf(s, pos + 1)
    }
}

/// A line: the bytes before the next CRLF, which is consumed with it.
pub open spec fn spec_read_line(s: Seq<u8>, pos: int) -> Result<(Seq<u8>, int), WireError> {
    match spec_find_crlf(s, pos) {
        Some(i) => Ok((s.subrange(pos, i), i + 2)),
        None => Err(WireError::UnexpectedEof),
    }
}

/// One RESP value at `pos`: dispatch on the first byte.
///
/// `+` starts a simple string line; `$` a length line, that many payload
/// bytes, and a closing CRLF; `*` a signed length line announcing an
/// array.  Any other first byte, a length line that is not a decimal
/// integer, a bulk length beyond what a vector can hold, or a missing
/// closing CRLF is `InvalidData`; running out of buffer is
/// `UnexpectedEof`.
pub open spec fn spec_read_value(s: Seq<u8>, pos: int) -> Result<(RespVal, int), WireError> {
    if pos >= s.len() {
        Err(WireError::UnexpectedEof)
    } else if s[pos] == 43 {  // '+'
        match spec_read_line(s, pos + 1) {
            Ok((line, p)) => Ok((RespVal::Str(line), p)),
            Err(e) => Err(e),
        }
    } else if s[pos] == 36 {  // '$'
        match spec_read_line(s, pos + 1) {
            Ok((line, p)) => match spec_parse_u64(line) {
                Some(n) => if n > usize::MAX as u64 {
                    Err(WireError::InvalidData)
                } else if p + n + 2 > s.len() {
                    Err(WireError::UnexpectedEof)
                } else if s[p + n] == 13 && s[p + n + 1] == 10 {
                    Ok((RespVal::Str(s.subrange(p, p + n)), p + n + 2))
                } else {
                    Err(WireError::InvalidData)
                },
                None => Err(WireError::InvalidData),
            },
            Err(e) => Err(e),
        }
    } else if s[pos] == 42 {  // '*'
        match spec_read_line(s, pos + 1) {
            Ok((line, p)) => match spec_parse_i64(line) {
                Some(n) => Ok((RespVal::Arr(n as int), p)),
                None => Err(WireError::InvalidData),
            },
            Err(e) => Err(e),
        }
    } else {
        Err(WireError::InvalidData)
    }
}

/// A value that must be a string.
pub open spec fn spec_read_string(s: Seq<u8>, pos: int) -> Result<(Seq<u8>, int), WireError> {
    match spec_read_value(s, pos) {
        Ok((RespVal::Str(l), p)) => Ok((l, p)),
        Ok((RespVal::Arr(_), _)) => Err(WireError::InvalidData),
        Err(e) => Err(e),
    }
}

/// A value that must be an array header.
pub open spec fn spec_read_array(s: Seq<u8>, pos: int) -> Result<(int, int), WireError> {
    match spec_read_value(s, pos) {
        Ok((RespVal::Arr(n), p)) => Ok((n, p)),
        Ok((RespVal::Str(_), _)) => Err(WireError::InvalidData),
        Err(e) => Err(e),
    }
}

/// Exactly `n` strings, one after the other.
pub open spec fn spec_read_strings(s: Seq<u8>, pos: int, n: nat) -> Result<
    (Seq<Seq<u8>>, int),
    WireError,
>
    decreases n,
{
    if n == 0 {
        Ok((Seq::empty(), pos))
    } else {
        match spec_read_string(s, pos) {
            Ok((l, p)) => match spec_read_strings(s, p, (n - 1) as nat) {
                Ok((ls, q)) => Ok((seq![l] + ls, q)),
                Err(e) => Err(e),
            },
            Err(e) => Err(e),
        }
    }
}

/// An array header followed by that many bulk or simple strings, as a
/// request frame is shaped.  A negative header is `InvalidData`.
pub open spec fn spec_read_string_array(s: Seq<u8>, pos: int) -> Result<
    (Seq<Seq<u8>>, int),
    WireError,
> {
    match spec_read_array(s, pos) {
        Ok((n, p)) => if n < 0 {
            Err(WireError::InvalidData)
        } else {
            spec_read_strings(s, p, n as nat)
        },
        Err(e) => Err(e),
    }
}

/// Find the first CRLF at or after `pos`, consuming nothing.
fn find_crlf(buf: &[u8], pos: usize) -> (r: Option<usize>)
    ensures
        match r {
            Some(i) => pos <= i && i + 2 <= buf@.len()
                && spec_find_crlf(buf@, pos as int) == Some(i as int),
            None => spec_find_crlf(buf@, pos as int) is None,
        },
{
    let mut i: usize = pos;
    loop
        invariant
            pos <= i,
            spec_find_crlf(buf@, pos as int) == spec_find_crlf(buf@, i as int),
        ensures
            pos <= i,
            spec_find_crlf(buf@, pos as int) == spec_find_crlf(buf@, i as int),
            i + 2 <= buf@.len() && buf@[i as int] == 13 && buf@[i + 1] == 10,
        decreases buf@.len() - i,
    {
        if i >= buf.len() || buf.len() - i < 2 {
            return None;
        }
        if buf[i] == 13 && buf[i + 1] == 10 {
            break;
        }
        i = i + 1;
    }
    Some(i)
}

/// Read a CRLF-terminated line; the returned position is past the CRLF.
pub fn read_line(buf: &[u8], pos: usize) -> (r: Result<(Vec<u8>, usize), WireError>)
    ensures
        match r {
            Ok((line, p)) => spec_read_line(buf@, pos as int) == Ok::<_, WireError>((
                line@,
                p as int,
            )) && pos <= p <= buf@.len(),
            Err(e) => spec_read_line(buf@, pos as int) == Err::<(Seq<u8>, int), _>(e),
        },
{
    let blen = buf.len();
    match find_crlf(buf, pos) {
        Some(i) => {
            let line = copy_range(buf, pos, i);
            proof {
                assert(i + 2 <= blen);
            }
            Ok((line, i + 2))
        },
        None => Err(WireError::UnexpectedEof),
    }
}

/// Decode one RESP value at `pos`.
pub fn read_value(buf: &[u8], pos: usize) -> (r: Result<(RespValue, usize), WireError>)
    ensures
        match r {
            Ok((v, p)) => spec_read_value(buf@, pos as int) == Ok::<_, WireError>((v@, p as int))
                && pos < p <= buf@.len(),
            Err(e) => spec_read_value(buf@, pos as int) == Err::<(RespVal, int), _>(e),
        },
{
    let blen = buf.len();
    if pos >= blen {
        return Err(WireError::UnexpectedEof);
    }
    let tag = buf[pos];
    if tag == 43 {  // '+'
        match read_line(buf, pos + 1) {
            Ok((line, p)) => Ok((RespValue::String(line), p)),
            Err(e) => Err(e),
        }
    } else if tag == 36 {  // '$'
        let (line, p) = match read_line(buf, pos + 1) {
            Ok(x) => x,
            Err(e) => {
                return Err(e);
            },
        };
        let n64 = match crate::num::parse_u64(line.as_slice()) {
            Some(n) => n,
            None => {
                return Err(WireError::InvalidData);
            },
        };
        if n64 > usize::MAX as u64 {
            return Err(WireError::InvalidData);
        }
        let n = n64 as usize;
        if n > blen - p || (blen - p) - n < 2 {
            return Err(WireError::UnexpectedEof);
        }
        if buf[p + n] == 13 && buf[p + n + 1] == 10 {
            let payload = copy_range(buf, p, p + n);
            Ok((RespValue::String(payload), p + n + 2))
        } else {
            Err(WireError::InvalidData)
        }
    } else if tag == 42 {  // '*'
        let (line, p) = match read_line(buf, pos + 1) {
            Ok(x) => x,
            Err(e) => {
                return Err(e);
            },
        };
        match crate::num::parse_i64(line.as_slice()) {
            Some(n) => Ok((RespValue::Array(n), p)),
            None => Err(WireError::InvalidData),
        }
    } else {
        Err(WireError::InvalidData)
    }
}

/// Decode one value and require it to be a string.
pub fn read_string(buf: &[u8], pos: usize) -> (r: Result<(Vec<u8>, usize), WireError>)
    ensures
        match r {
            Ok((v, p)) => spec_read_string(buf@, pos as int) == Ok::<_, WireError>((
                v@,
                p as int,
            )) && pos < p <= buf@.len(),
            Err(e) => spec_read_string(buf@, pos as int) == Err::<(Seq<u8>, int), _>(e),
        },
{
    match read_value(buf, pos) {
        Ok((RespValue::String(v), p)) => Ok((v, p)),
        Ok((RespValue::Array(_), _)) => Err(WireError::InvalidData),
        Err(e) => Err(e),
    }
}

/// Decode one value and require it to be an array header.
pub fn read_array(buf: &[u8], pos: usize) -> (r: Result<(i64, usize), WireError>)
    ensures
        match r {
            Ok((n, p)) => spec_read_array(buf@, pos as int) == Ok::<_, WireError>((
                n as int,
                p as int,
            )) && pos < p <= buf@.len(),
            Err(e) => spec_read_array(buf@, pos as int) == Err::<(int, int), _>(e),
        },
{
    match read_value(buf, pos) {
        Ok((RespValue::Array(n), p)) => Ok((n, p)),
        Ok((RespValue::String(_), _)) => Err(WireError::InvalidData),
        Err(e) => Err(e),
    }
}

/// Decode an array of strings: the request framing.  Returns the strings
/// and the position just past the last one.
pub fn read_string_array(buf: &[u8], pos: usize) -> (r: Result<(Vec<Vec<u8>>, usize), WireError>)
    ensures
        match r {
            Ok((vs, p)) => spec_read_string_array(buf@, pos as int) == Ok::<_, WireError>((
                vs.deep_view(),
                p as int,
            )) && pos < p <= buf@.len(),
            Err(e) => spec_read_string_array(buf@, pos as int) == Err::<(Seq<Seq<u8>>, int), _>(e),
        },
{
    let (n, p0) = match read_array(buf, pos) {
        Ok(x) => x,
        Err(e) => {
            return Err(e);
        },
    };
    if n < 0 {
        return Err(WireError::InvalidData);
    }
    let ghost whole = spec_read_strings(buf@, p0 as int, n as nat);
    let mut values: Vec<Vec<u8>> = Vec::new();
    let mut cur: usize = p0;
    let mut i: u64 = 0;
    while i < n as u64
        invariant
            0 <= i <= n,
            pos < cur <= buf@.len(),
            values.deep_view().len() == i as int,
            spec_read_array(buf@, pos as int) == Ok::<_, WireError>((n as int, p0 as int)),
            whole == spec_read_strings(buf@, p0 as int, n as nat),
            (match spec_read_strings(buf@, cur as int, (n - i) as nat) {
                Ok((tail, q)) => whole == Ok::<_, WireError>((values.deep_view() + tail, q)),
                Err(e) => whole == Err::<(Seq<Seq<u8>>, int), _>(e),
            }),
        decreases n - i,
    {
        let ghost pre = values.deep_view();
        match read_string(buf, cur) {
            Ok((v, q)) => {
                proof {
                    let tail_r = spec_read_strings(buf@, cur as int, (n - i) as nat);
                    let next_r = spec_read_strings(buf@, q as int, (n - i - 1) as nat);
                    match next_r {
                        Ok((tl2, q2)) => {
                            assert(tail_r == Ok::<_, WireError>((seq![v@] + tl2, q2)));
                            assert(pre + (seq![v@] + tl2) =~= (pre.push(v@)) + tl2);
                        },
                        Err(_) => {},
                    }
                }
                proof {
                    assert(v.deep_view() =~= v@);
                }
                values.push(v);
                proof {
                    assert(values.deep_view() =~= pre.push(v@));
                }
                cur = q;
            },
            Err(e) => {
                proof {
                    assert(spec_read_strings(buf@, cur as int, (n - i) as nat)
                        == Err::<(Seq<Seq<u8>>, int), _>(e));
                }
                return Err(e);
            },
        }
        i = i + 1;
    }
    proof {
        assert(spec_read_strings(buf@, cur as int, 0) == Ok::<_, WireError>((
            Seq::<Seq<u8>>::empty(),
            cur as int,
        )));
        assert(values.deep_view() + Seq::<Seq<u8>>::empty() =~= values.deep_view());
    }
    Ok((values, cur))
}

/// Wire bytes of a simple string: `+`, the payload, CRLF.
pub open spec fn spec_enc_simple(s: Seq<u8>) -> Seq<u8> {
    seq![43u8] + s + seq![13u8, 10u8]
}

/// Wire bytes of a bulk string: `$`, the decimal length, CRLF, the
/// payload, CRLF.
pub open spec fn spec_enc_bulk(s: Seq<u8>) -> Seq<u8> {
    seq![36u8] + spec_dec(s.len()) + seq![13u8, 10u8] + s + seq![13u8, 10u8]
}

/// Wire bytes of a null bulk string: `$-1` CRLF.
pub open spec fn spec_enc_null_bulk() -> Seq<u8> {
    seq![36u8, 45u8, 49u8, 13u8, 10u8]
}

/// Wire bytes of an array header: `*`, the signed decimal length, CRLF.
pub open spec fn spec_enc_array_header(n: int) -> Seq<u8> {
    seq![42u8] + spec_dec_i64(n) + seq![13u8, 10u8]
}

/// Append all of `s` to `out`.
fn append_bytes(out: &mut Vec<u8>, s: &[u8])
    ensures
        final(out)@ == old(out)@ + s@,
{
    let mut i: usize = 0;
    while i < s.len()
        invariant
            i <= s@.len(),
            out@.len() == old(out)@.len() + i,
            out@ == old(out)@ + s@.subrange(0, i as int),
        decreases s@.len() - i,
    {
        out.push(s[i]);
        proof {
            assert(old(out)@ + s@.subrange(0, i as int) + seq![s@[i as int]] =~= old(out)@
                + s@.subrange(0, i + 1));
        }
        i = i + 1;
    }
    proof {
        assert(old(out)@ + s@.subrange(0, s@.len() as int) =~= old(out)@ + s@);
    }
}

/// Encode a simple string.  The payload must hold no CR or LF: the format
/// has no way to escape them.
pub fn write_simple_string(out: &mut Vec<u8>, s: &[u8])
    requires
        forall|i: int| 0 <= i < s@.len() ==> s@[i] != 13 && s@[i] != 10,
    ensures
        final(out)@ == old(out)@ + spec_enc_simple(s@),
{
    out.push(43);
    append_bytes(out, s);
    out.push(13);
    out.push(10);
    proof {
        assert(out@ =~= old(out)@ + spec_enc_simple(s@));
    }
}

/// Encode a bulk string: any payload bytes are allowed.
pub fn write_bulk_string(out: &mut Vec<u8>, s: &[u8])
    ensures
        final(out)@ == old(out)@ + spec_enc_bulk(s@),
{
    out.push(36);
    let mut len_digits = crate::num::format_u64(s.len() as u64);
    out.append(&mut len_digits);
    out.push(13);
    out.push(10);
    append_bytes(out, s);
    out.push(13);
    out.push(10);
    proof {
        assert(s@.len() as u64 as nat == s@.len());
        assert(out@ =~= old(out)@ + spec_enc_bulk(s@));
    }
}

/// Encode the null bulk string.
pub fn write_null_bulk_string(out: &mut Vec<u8>)
    ensures
        final(out)@ == old(out)@ + spec_enc_null_bulk(),
{
    out.push(36);
    out.push(45);
    out.push(49);
    out.push(13);
    out.push(10);
    proof {
        assert(out@ =~= old(out)@ + spec_enc_null_bulk());
    }
}

/// Encode a bulk string when present, the null bulk string when absent.
pub fn write_bulk_string_opt(out: &mut Vec<u8>, s: Option<&Vec<u8>>)
    ensures
        final(out)@ == old(out)@ + (match s {
            Some(v) => spec_enc_bulk(v@),
            None => spec_enc_null_bulk(),
        }),
{
    match s {
        Some(v) => write_bulk_string(out, v.as_slice()),
        None => write_null_bulk_string(out),
    }
}

/// Encode an array header announcing `size` elements; the caller writes
/// exactly that many values after it.
pub fn write_array(out: &mut Vec<u8>, size: i64)
    ensures
        final(out)@ == old(out)@ + spec_enc_array_header(size as int),
{
    out.push(42);
    let mut len_digits = crate::num::format_i64(size);
    out.append(&mut len_digits);
    out.push(13);
    out.push(10);
    proof {
        assert(out@ =~= old(out)@ + spec_enc_array_header(size as int));
    }
}

/// The first CRLF at or after `pos` is the one at `k`, given that no pair
/// starts earlier.
proof fn lemma_find_crlf_at(s: Seq<u8>, pos: int, k: int)
    requires
        0 <= pos <= k,
        k + 2 <= s.len(),
        s[k] == 13,
        s[k + 1] == 10,
        forall|j: int| pos <= j < k ==> !((#[trigger] s[j]) == 13 && s[j + 1] == 10),
    ensures
        spec_find_crlf(s, pos) == Some(k),
    decreases k - pos,
{
    if pos < k {
        lemma_find_crlf_at(s, pos + 1, k);
    }
}

/// Decoding at a position holding an encoded simple string yields its
/// payload and stops right after it.
proof fn lemma_decode_encoded_simple(s: Seq<u8>, pos: int, v: Seq<u8>)
    requires
        0 <= pos,
        pos + spec_enc_simple(v).len() <= s.len(),
        s.subrange(pos, pos + spec_enc_simple(v).len()) == spec_enc_simple(v),
        forall|i: int| 0 <= i < v.len() ==> v[i] != 13 && v[i] != 10,
    ensures
        spec_read_value(s, pos) == Ok::<_, WireError>((
            RespVal::Str(v),
            pos + spec_enc_simple(v).len(),
        )),
{
    let enc = spec_enc_simple(v);
    let vl = v.len() as int;
    assert(forall|i: int| 0 <= i < enc.len() ==> s[pos + i] == #[trigger] enc[i]) by {
        assert(forall|i: int| 0 <= i < enc.len()
            ==> #[trigger] s.subrange(pos, pos + enc.len() as int)[i] == s[pos + i]);
    }
    assert(enc[0] == 43 && s[pos + 0] == enc[0]);
    let k = pos + 1 + vl;
    assert(enc[1 + vl] == 13 && s[pos + (1 + vl)] == enc[1 + vl]);
    assert(enc[1 + vl + 1] == 10 && s[pos + (1 + vl + 1)] == enc[1 + vl + 1]);
    assert forall|j: int| pos + 1 <= j < k implies !((#[trigger] s[j]) == 13 && s[j + 1] == 10) by {
        assert(s[pos + (j - pos)] == enc[j - pos]);
        assert(enc[j - pos] == v[j - pos - 1]);
    }
    lemma_find_crlf_at(s, pos + 1, k);
    assert forall|i: int| 0 <= i < vl implies s.subrange(pos + 1, k)[i] == v[i] by {
        assert(s[pos + (1 + i)] == enc[1 + i]);
        assert(enc[1 + i] == v[i]);
    }
    assert(s.subrange(pos + 1, k) =~= v);
}

/// Decoding at a position holding an encoded bulk string yields its
/// payload and stops right after it.
proof fn lemma_decode_encoded_bulk(s: Seq<u8>, pos: int, v: Seq<u8>)
    requires
        0 <= pos,
        v.len() <= usize::MAX,
        pos + spec_enc_bulk(v).len() <= s.len(),
        s.subrange(pos, pos + spec_enc_bulk(v).len()) == spec_enc_bulk(v),
    ensures
        spec_read_value(s, pos) == Ok::<_, WireError>((
            RespVal::Str(v),
            pos + spec_enc_bulk(v).len(),
        )),
        spec_read_string(s, pos) == Ok::<_, WireError>((v, pos + spec_enc_bulk(v).len())),
{
    let enc = spec_enc_bulk(v);
    let digits = spec_dec(v.len());
    lemma_dec_digits(v.len());
    let dl = digits.len() as int;
    let vl = v.len() as int;
    assert(forall|i: int| 0 <= i < enc.len() ==> s[pos + i] == #[trigger] enc[i]) by {
        assert(forall|i: int| 0 <= i < enc.len()
            ==> #[trigger] s.subrange(pos, pos + enc.len() as int)[i] == s[pos + i]);
    }
    assert(enc[0] == 36 && s[pos + 0] == enc[0]);
    let k = pos + 1 + dl;
    assert(enc[1 + dl] == 13 && s[pos + (1 + dl)] == enc[1 + dl]);
    assert(enc[1 + dl + 1] == 10 && s[pos + (1 + dl + 1)] == enc[1 + dl + 1]);
    assert forall|j: int| pos + 1 <= j < k implies !((#[trigger] s[j]) == 13 && s[j + 1] == 10) by {
        assert(s[pos + (j - pos)] == enc[j - pos]);
        assert(enc[j - pos] == digits[j - pos - 1]);
        assert(is_digit(digits[j - pos - 1]));
    }
    lemma_find_crlf_at(s, pos + 1, k);
    assert forall|i: int| 0 <= i < dl implies s.subrange(pos + 1, k)[i] == digits[i] by {
        assert(s[pos + (1 + i)] == enc[1 + i]);
        assert(enc[1 + i] == digits[i]);
    }
    let line = s.subrange(pos + 1, k);
    assert(line =~= digits);
    let n64 = v.len() as u64;
    assert(n64 as nat == v.len());
    assert(spec_dec(n64 as nat) == digits);
    crate::num::lemma_dec_round_trip(n64);
    assert(spec_parse_u64(line) == Some(n64));
    let p = k + 2;
    assert(p + n64 + 2 <= s.len());
    assert(enc[3 + dl + vl] == 13 && s[pos + (3 + dl + vl)] == enc[3 + dl + vl]);
    assert(enc[3 + dl + vl + 1] == 10 && s[pos + (3 + dl + vl + 1)] == enc[3 + dl + vl + 1]);
    assert(s[p + n64] == 13 && s[p + n64 + 1] == 10);
    assert forall|i: int| 0 <= i < vl implies s.subrange(p, p + vl)[i] == v[i] by {
        assert(s[pos + (3 + dl + i)] == enc[3 + dl + i]);
        assert(enc[3 + dl + i] == v[i]);
    }
    assert(s.subrange(p, p + n64) =~= v);
    assert(pos + enc.len() == p + n64 + 2);
}

/// Round trip of a non-negative formatted number through the signed
/// parser.
proof fn lemma_dec_round_trip_i64(n: i64)
    requires
        n >= 0,
    ensures
        spec_parse_i64(spec_dec(n as nat)) == Some(n),
{
    lemma_dec_digits(n as nat);
    assert(is_digit(spec_dec(n as nat)[0]));
}

/// RESP round trip for strings: for a non-empty payload without CR or LF,
/// decoding the output of the simple-string encoder yields the payload
/// back; for any payload at all, decoding the output of the bulk-string
/// encoder yields the payload back.  Whatever follows the encoding is
/// untouched: decoding stops exactly at its end.
pub proof fn lemma_simple_string_round_trip(v: Seq<u8>, rest: Seq<u8>)
    requires
        v.len() > 0,
        forall|i: int| 0 <= i < v.len() ==> v[i] != 13 && v[i] != 10,
    ensures
        spec_read_value(spec_enc_simple(v) + rest, 0) == Ok::<_, WireError>((
            RespVal::Str(v),
            spec_enc_simple(v).len() as int,
        )),
{
    let s = spec_enc_simple(v) + rest;
    assert(s.subrange(0, spec_enc_simple(v).len() as int) =~= spec_enc_simple(v));
    lemma_decode_encoded_simple(s, 0, v);
}

/// See [`lemma_simple_string_round_trip`]: the bulk half of the law.
pub proof fn lemma_bulk_string_round_trip(v: Seq<u8>, rest: Seq<u8>)
    requires
        v.len() <= usize::MAX,
    ensures
        spec_read_value(spec_enc_bulk(v) + rest, 0) == Ok::<_, WireError>((
            RespVal::Str(v),
            spec_enc_bulk(v).len() as int,
        )),
{
    let s = spec_enc_bulk(v) + rest;
    assert(s.subrange(0, spec_enc_bulk(v).len() as int) =~= spec_enc_bulk(v));
    lemma_decode_encoded_bulk(s, 0, v);
}

/// Concatenated bulk encodings of a sequence of values.
pub open spec fn spec_enc_bulks(vals: Seq<Seq<u8>>) -> Seq<u8>
    decreases vals.len(),
{
    if vals.len() == 0 {
        Seq::empty()
    } else {
        spec_enc_bulk(vals.first()) + spec_enc_bulks(vals.drop_first())
    }
}

/// Bulk encodings concatenate one value at a time.
pub proof fn lemma_enc_bulks_push(vals: Seq<Seq<u8>>, x: Seq<u8>)
    ensures
        spec_enc_bulks(vals.push(x)) == spec_enc_bulks(vals) + spec_enc_bulk(x),
    decreases vals.len(),
{
    if vals.len() == 0 {
        assert(vals.push(x).drop_first() =~= Seq::<Seq<u8>>::empty());
        assert(vals.push(x).first() == x);
        assert(spec_enc_bulks(vals) == Seq::<u8>::empty());
        assert(spec_enc_bulks(vals.push(x).drop_first()) == Seq::<u8>::empty());
        assert(spec_enc_bulk(x) + Seq::<u8>::empty() =~= Seq::<u8>::empty() + spec_enc_bulk(x));
    } else {
        assert(vals.push(x).drop_first() =~= vals.drop_first().push(x));
        assert(vals.push(x).first() == vals.first());
        lemma_enc_bulks_push(vals.drop_first(), x);
        assert(spec_enc_bulk(vals.first()) + (spec_enc_bulks(vals.drop_first()) + spec_enc_bulk(x))
            =~= (spec_enc_bulk(vals.first()) + spec_enc_bulks(vals.drop_first())) + spec_enc_bulk(
            x,
        ));
    }
}

/// Reading `vals.len()` strings at a position holding the concatenated
/// bulk encodings of `vals` yields exactly `vals`.
proof fn lemma_decode_encoded_bulks(s: Seq<u8>, pos: int, vals: Seq<Seq<u8>>)
    requires
        0 <= pos,
        forall|i: int| 0 <= i < vals.len() ==> #[trigger] vals[i].len() <= usize::MAX,
        pos + spec_enc_bulks(vals).len() <= s.len(),
        s.subrange(pos, pos + spec_enc_bulks(vals).len()) == spec_enc_bulks(vals),
    ensures
        spec_read_strings(s, pos, vals.len()) == Ok::<_, WireError>((
            vals,
            pos + spec_enc_bulks(vals).len(),
        )),
    decreases vals.len(),
{
    if vals.len() == 0 {
        assert(spec_read_strings(s, pos, 0) == Ok::<_, WireError>((Seq::<Seq<u8>>::empty(), pos)));
        assert(vals =~= Seq::<Seq<u8>>::empty());
    } else {
        let whole = spec_enc_bulks(vals);
        let e0 = spec_enc_bulk(vals.first());
        let tail = spec_enc_bulks(vals.drop_first());
        assert(whole == e0 + tail);
        assert(forall|i: int| 0 <= i < whole.len() ==> s[pos + i] == #[trigger] whole[i]) by {
            assert(forall|i: int| 0 <= i < whole.len()
                ==> #[trigger] s.subrange(pos, pos + whole.len() as int)[i] == s[pos + i]);
        }
        assert forall|i: int| 0 <= i < e0.len() implies s.subrange(pos, pos + e0.len() as int)[i]
            == e0[i] by {
            assert(s[pos + i] == whole[i]);
            assert(whole[i] == e0[i]);
        }
        assert(s.subrange(pos, pos + e0.len() as int) =~= e0);
        lemma_decode_encoded_bulk(s, pos, vals.first());
        let p1 = pos + e0.len() as int;
        assert forall|i: int| 0 <= i < tail.len() implies s.subrange(p1, p1 + tail.len() as int)[i]
            == tail[i] by {
            assert(s[pos + (e0.len() + i)] == whole[e0.len() + i]);
            assert(whole[e0.len() + i] == tail[i]);
        }
        assert(s.subrange(p1, p1 + tail.len() as int) =~= tail);
        lemma_decode_encoded_bulks(s, p1, vals.drop_first());
        assert(seq![vals.first()] + vals.drop_first() =~= vals);
    }
}

/// RESP array framing: an array header announcing `N`, followed by `N`
/// encoded values, decodes to an `Array(N)` header and then exactly those
/// `N` values; the next read starts exactly at whatever follows them.
pub proof fn lemma_array_framing(vals: Seq<Seq<u8>>, rest: Seq<u8>)
    requires
        vals.len() <= i64::MAX,
        forall|i: int| 0 <= i < vals.len() ==> #[trigger] vals[i].len() <= usize::MAX,
    ensures
        ({
            let hdr = spec_enc_array_header(vals.len() as int);
            let body = spec_enc_bulks(vals);
            let s = hdr + body + rest;
            spec_read_value(s, 0) == Ok::<_, WireError>((
                RespVal::Arr(vals.len() as int),
                hdr.len() as int,
            )) && spec_read_strings(s, hdr.len() as int, vals.len()) == Ok::<_, WireError>((
                vals,
                (hdr.len() + body.len()) as int,
            )) && spec_read_string_array(s, 0) == Ok::<_, WireError>((
                vals,
                (hdr.len() + body.len()) as int,
            ))
        }),
{
    let n = vals.len() as int;
    let hdr = spec_enc_array_header(n);
    let body = spec_enc_bulks(vals);
    let s = hdr + body + rest;
    let digits = spec_dec(vals.len());
    lemma_dec_digits(vals.len());
    let dl = digits.len() as int;
    assert(hdr == seq![42u8] + spec_dec_i64(n) + seq![13u8, 10u8]);
    assert(spec_dec_i64(n) == digits);
    assert(s[0] == hdr[0] && hdr[0] == 42);
    let k = 1 + dl;
    assert(s[k] == hdr[k] && hdr[k] == 13);
    assert(s[k + 1] == hdr[k + 1] && hdr[k + 1] == 10);
    assert forall|j: int| 1 <= j < k implies !((#[trigger] s[j]) == 13 && s[j + 1] == 10) by {
        assert(s[j] == hdr[j]);
        assert(hdr[j] == digits[j - 1]);
        assert(is_digit(digits[j - 1]));
    }
    lemma_find_crlf_at(s, 1, k);
    assert forall|i: int| 0 <= i < dl implies s.subrange(1, k)[i] == digits[i] by {
        assert(s.subrange(1, k)[i] == s[1 + i]);
        assert(s[1 + i] == hdr[1 + i]);
        assert(hdr[1 + i] == digits[i]);
    }
    let line = s.subrange(1, k);
    assert(line =~= digits);
    lemma_dec_round_trip_i64(vals.len() as i64);
    assert(vals.len() as i64 as nat == vals.len());
    assert(spec_parse_i64(line) == Some(vals.len() as i64));
    assert(spec_read_value(s, 0) == Ok::<_, WireError>((RespVal::Arr(n), hdr.len() as int)));
    let hl = hdr.len() as int;
    let bl = body.len() as int;
    assert forall|i: int| 0 <= i < bl implies s.subrange(hl, hl + bl)[i] == body[i] by {
        assert(s.subrange(hl, hl + bl)[i] == s[hl + i]);
        assert(s[hl + i] == body[i]);
    }
    assert(s.subrange(hl, hl + bl) =~= body);
    lemma_decode_encoded_bulks(s, hl, vals);
}

} // verus!
