//! Primitive reads over an in-memory byte buffer.
//!
//! A reader is a buffer plus a position.  Each primitive either consumes a
//! fixed amount and returns exactly what it consumed, or reports
//! `UnexpectedEof` without consuming: the caller may append bytes to the
//! buffer and retry from the same position.  No primitive returns partial
//! data.  Multi-byte integers are little-endian, as the snapshot format
//! uses them.

use vstd::prelude::*;

use crate::WireError;
use crate::num::le_val;

verus! {

/// Read one byte at `pos`.
pub fn read_u8_at(buf: &[u8], pos: usize) -> (r: Result<(u8, usize), WireError>)
    ensures
        match r {
            Ok((b, p)) => pos < buf@.len() && b == buf@[pos as int] && p == pos + 1,
            Err(e) => e == WireError::UnexpectedEof && pos >= buf@.len(),
        },
{
    if pos < buf.len() {
        Ok((buf[pos], pos + 1))
    } else {
        Err(WireError::UnexpectedEof)
    }
}

/// Copy `buf[from..to]` into an owned vector.
pub fn copy_range(buf: &[u8], from: usize, to: usize) -> (r: Vec<u8>)
    requires
        from <= to <= buf@.len(),
    ensures
        r@ == buf@.subrange(from as int, to as int),
{
    let mut r: Vec<u8> = Vec::new();
    let mut i: usize = from;
    while i < to
        invariant
            from <= i <= to <= buf@.len(),
            r@.len() == i - from,
            forall|j: int| 0 <= j < r@.len() ==> r@[j] == buf@[from + j],
        decreases to - i,
    {
        r.push(buf[i]);
        i = i + 1;
    }
    proof {
        assert(r@ =~= buf@.subrange(from as int, to as int));
    }
    r
}

/// Read exactly `n` bytes starting at `pos`.
pub fn read_bytes_at(buf: &[u8], pos: usize, n: usize) -> (r: Result<(Vec<u8>, usize), WireError>)
    ensures
        match r {
            Ok((v, p)) => pos + n <= buf@.len() && v@ == buf@.subrange(pos as int, pos + n)
                && p == pos + n,
            Err(e) => e == WireError::UnexpectedEof && pos + n > buf@.len(),
        },
{
    if pos > buf.len() || n > buf.len() - pos {
        return Err(WireError::UnexpectedEof);
    }
    Ok((copy_range(buf, pos, pos + n), pos + n))
}

/// Unfold the little-endian value of a short byte string into a sum of its
/// bytes weighted by powers of 256.
pub proof fn lemma_le_val_unfold(s: Seq<u8>)
    requires
        1 <= s.len() <= 8,
    ensures
        s.len() == 1 ==> le_val(s) == s[0],
        s.len() == 2 ==> le_val(s) == s[0] + s[1] * 256,
        s.len() == 3 ==> le_val(s) == s[0] + s[1] * 256 + s[2] * 65536,
        s.len() == 4 ==> le_val(s) == s[0] + s[1] * 256 + s[2] * 65536 + s[3] * 16777216,
        s.len() == 5 ==> le_val(s) == s[0] + s[1] * 256 + s[2] * 65536 + s[3] * 16777216
            + s[4] * 0x1_0000_0000,
        s.len() == 6 ==> le_val(s) == s[0] + s[1] * 256 + s[2] * 65536 + s[3] * 16777216
            + s[4] * 0x1_0000_0000 + s[5] * 0x100_0000_0000,
        s.len() == 7 ==> le_val(s) == s[0] + s[1] * 256 + s[2] * 65536 + s[3] * 16777216
            + s[4] * 0x1_0000_0000 + s[5] * 0x100_0000_0000 + s[6] * 0x1_0000_0000_0000,
        s.len() == 8 ==> le_val(s) == s[0] + s[1] * 256 + s[2] * 65536 + s[3] * 16777216
            + s[4] * 0x1_0000_0000 + s[5] * 0x100_0000_0000 + s[6] * 0x1_0000_0000_0000
            + s[7] * 0x100_0000_0000_0000,
    decreases s.len(),
{
    if s.len() == 1 {
        assert(s.skip(1).len() == 0);
        assert(le_val(s.skip(1)) == 0);
    } else {
        lemma_le_val_unfold(s.skip(1));
        assert(forall|i: int| 0 <= i < s.skip(1).len() ==> #[trigger] s.skip(1)[i] == s[i + 1]);
    }
}

/// Read a little-endian `u16` at `pos`.
pub fn read_u16_le_at(buf: &[u8], pos: usize) -> (r: Result<(u16, usize), WireError>)
    ensures
        match r {
            Ok((v, p)) => pos + 2 <= buf@.len()
                && v as int == le_val(buf@.subrange(pos as int, pos + 2)) && p == pos + 2,
            Err(e) => e == WireError::UnexpectedEof && pos + 2 > buf@.len(),
        },
{
    if pos > buf.len() || buf.len() - pos < 2 {
        return Err(WireError::UnexpectedEof);
    }
    let v: u16 = buf[pos] as u16 + buf[pos + 1] as u16 * 256;
    proof {
        lemma_le_val_unfold(buf@.subrange(pos as int, pos + 2));
    }
    Ok((v, pos + 2))
}

/// Read a little-endian `u32` at `pos`.
pub fn read_u32_le_at(buf: &[u8], pos: usize) -> (r: Result<(u32, usize), WireError>)
    ensures
        match r {
            Ok((v, p)) => pos + 4 <= buf@.len()
                && v as int == le_val(buf@.subrange(pos as int, pos + 4)) && p == pos + 4,
            Err(e) => e == WireError::UnexpectedEof && pos + 4 > buf@.len(),
        },
{
    if pos > buf.len() || buf.len() - pos < 4 {
        return Err(WireError::UnexpectedEof);
    }
    let v: u32 = buf[pos] as u32 + buf[pos + 1] as u32 * 256 + buf[pos + 2] as u32 * 65536
        + buf[pos + 3] as u32 * 16777216;
    proof {
        lemma_le_val_unfold(buf@.subrange(pos as int, pos + 4));
    }
    Ok((v, pos + 4))
}

/// Read a little-endian `u64` at `pos`.
pub fn read_u64_le_at(buf: &[u8], pos: usize) -> (r: Result<(u64, usize), WireError>)
    ensures
        match r {
            Ok((v, p)) => pos + 8 <= buf@.len()
                && v as int == le_val(buf@.subrange(pos as int, pos + 8)) && p == pos + 8,
            Err(e) => e == WireError::UnexpectedEof && pos + 8 > buf@.len(),
        },
{
    if pos > buf.len() || buf.len() - pos < 8 {
        return Err(WireError::UnexpectedEof);
    }
    let v: u64 = buf[pos] as u64 + buf[pos + 1] as u64 * 256 + buf[pos + 2] as u64 * 65536
        + buf[pos + 3] as u64 * 16777216 + buf[pos + 4] as u64 * 0x1_0000_0000
        + buf[pos + 5] as u64 * 0x100_0000_0000 + buf[pos + 6] as u64 * 0x1_0000_0000_0000
        + buf[pos + 7] as u64 * 0x100_0000_0000_0000;
    proof {
        lemma_le_val_unfold(buf@.subrange(pos as int, pos + 8));
    }
    Ok((v, pos + 8))
}

} // verus!
