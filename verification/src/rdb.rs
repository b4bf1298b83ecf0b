//! The RDB snapshot decoder: magic, version, then an opcode stream.
//!
//! Lengths use a variable-width prefix: the top two bits of the first
//! byte pick one of four encodings.  Strings are a length followed by
//! that many bytes; the three special length codes mean the "string" is
//! the next 1, 2 or 4 raw bytes (an integer in the target's own
//! little-endian order).  The stream is decoded into one dataset; only
//! database index 0 can be selected.

use vstd::prelude::*;
use vstd::slice::slice_to_vec;

use crate::WireError;
use crate::assoc::spec_assoc_set;
use crate::database::{Dataset, DatasetView, Value, ValueV};
use crate::num::le_val;
use crate::reader::{read_bytes_at, read_u32_le_at, read_u64_le_at, read_u8_at};

verus! {

/// A decoded length prefix: an ordinary length, or one of the special
/// codes interpreted by the reader of the value.
#[derive(Clone, Copy, Debug, PartialEq, Eq, Structural)]
pub enum Length {
    Normal(u32),
    Special(u8),
}

pub open spec fn rdb_magic() -> Seq<u8> {
    seq![82u8, 69u8, 68u8, 73u8, 83u8]
}

pub open spec fn rdb_version() -> Seq<u8> {
    seq![48u8, 48u8, 48u8, 51u8]
}

/// One length prefix at `pos`: the top two bits of the first byte pick
/// six low bits, six low bits plus one byte, a little-endian `u32`, or a
/// special code.
pub open spec fn spec_read_length(s: Seq<u8>, pos: int) -> Result<(Length, int), WireError> {
    if pos >= s.len() {
        Err(WireError::UnexpectedEof)
    } else {
        let first = s[pos];
        let flag = first / 64;
        if flag == 0 {
            Ok((Length::Normal(first as u32), pos + 1))
        } else if flag == 1 {
            if pos + 2 <= s.len() {
                let v = (((first % 64) as int) * 256 + s[pos + 1]) as u32;
                Ok((Length::Normal(v), pos + 2))
            } else {
                Err(WireError::UnexpectedEof)
            }
        } else if flag == 2 {
            if pos + 5 <= s.len() {
                Ok((Length::Normal(le_val(s.subrange(pos + 1, pos + 5)) as u32), pos + 5))
            } else {
                Err(WireError::UnexpectedEof)
            }
        } else {
            Ok((Length::Special((first % 64) as u8), pos + 1))
        }
    }
}

/// One RDB string at `pos`: a normal length followed by that many bytes,
/// or a special code 0, 1 or 2 followed by 1, 2 or 4 raw bytes.  Any
/// other special code is `InvalidData`.
pub open spec fn spec_read_rdb_string(s: Seq<u8>, pos: int) -> Result<(Seq<u8>, int), WireError> {
    match spec_read_length(s, pos) {
        Ok((Length::Normal(n), p)) => if p + n <= s.len() {
            Ok((s.subrange(p, p + n), p + n))
        } else {
            Err(WireError::UnexpectedEof)
        },
        Ok((Length::Special(m), p)) => if m == 0 || m == 1 || m == 2 {
            let w = if m == 0 {
                1int
            } else if m == 1 {
                2int
            } else {
                4int
            };
            if p + w <= s.len() {
                Ok((s.subrange(p, p + w), p + w))
            } else {
                Err(WireError::UnexpectedEof)
            }
        } else {
            Err(WireError::InvalidData)
        },
        Err(e) => Err(e),
    }
}

/// Read one length prefix.
pub fn read_length(buf: &[u8], pos: usize) -> (r: Result<(Length, usize), WireError>)
    ensures
        match r {
            Ok((l, p)) => spec_read_length(buf@, pos as int) == Ok::<_, WireError>((l, p as int))
                && pos < p <= buf@.len(),
            Err(e) => spec_read_length(buf@, pos as int) == Err::<(Length, int), _>(e),
        },
{
    let (first, p0) = match read_u8_at(buf, pos) {
        Ok(x) => x,
        Err(e) => {
            return Err(e);
        },
    };
    let flag = first / 64;
    if flag == 0 {
        Ok((Length::Normal(first as u32), p0))
    } else if flag == 1 {
        let (second, p1) = match read_u8_at(buf, p0) {
            Ok(x) => x,
            Err(e) => {
                return Err(e);
            },
        };
        Ok((Length::Normal((first % 64) as u32 * 256 + second as u32), p1))
    } else if flag == 2 {
        let (v, p1) = match read_u32_le_at(buf, p0) {
            Ok(x) => x,
            Err(e) => {
                return Err(e);
            },
        };
        Ok((Length::Normal(v), p1))
    } else {
        Ok((Length::Special(first % 64), p0))
    }
}

/// Read one RDB string.
pub fn read_rdb_string(buf: &[u8], pos: usize) -> (r: Result<(Vec<u8>, usize), WireError>)
    ensures
        match r {
            Ok((v, p)) => spec_read_rdb_string(buf@, pos as int) == Ok::<_, WireError>((
                v@,
                p as int,
            )) && pos < p <= buf@.len(),
            Err(e) => spec_read_rdb_string(buf@, pos as int) == Err::<(Seq<u8>, int), _>(e),
        },
{
    let (l, p) = match read_length(buf, pos) {
        Ok(x) => x,
        Err(e) => {
            return Err(e);
        },
    };
    match l {
        Length::Normal(n) => {
            if n as u64 > usize::MAX as u64 {
                // a length no buffer on this target can hold
                return Err(WireError::UnexpectedEof);
            }
            match read_bytes_at(buf, p, n as usize) {
                Ok((v, p2)) => {
                    if n == 0 {
                        proof {
                            assert(p2 == p);
                        }
                    }
                    Ok((v, p2))
                },
                Err(e) => Err(e),
            }
        },
        Length::Special(m) => {
            if m == 0 || m == 1 || m == 2 {
                let w: usize = if m == 0 {
                    1
                } else if m == 1 {
                    2
                } else {
                    4
                };
                match read_bytes_at(buf, p, w) {
                    Ok((v, p2)) => Ok((v, p2)),
                    Err(e) => Err(e),
                }
            } else {
                Err(WireError::InvalidData)
            }
        },
    }
}

/// One directive of the opcode stream, at `pos`, applied to the dataset
/// `d`: the new dataset and the position after the directive, or `None`
/// when the directive is the end-of-file marker.
///
/// `0x00` stores a key/value pair; `0xFA` reads and discards an auxiliary
/// pair; `0xFB` reads and discards two size hints; `0xFC` and `0xFD`
/// store a pair with an absolute expiry given in milliseconds or seconds;
/// `0xFE` selects a database, and only index 0 is supported; `0xFF` ends
/// the stream.  Anything else is `InvalidData`.
pub open spec fn spec_rdb_step(s: Seq<u8>, pos: int, d: DatasetView) -> Result<
    Option<(DatasetView, int)>,
    WireError,
> {
    if pos >= s.len() {
        Err(WireError::UnexpectedEof)
    } else {
        let op = s[pos];
        let p = pos + 1;
        if op == 0xFF {
            Ok(None)
        } else if op == 0x00 {
            match spec_read_rdb_string(s, p) {
                Ok((k, p1)) => match spec_read_rdb_string(s, p1) {
                    Ok((v, p2)) => Ok(
                        Some(
                            (
                                DatasetView {
                                    data: spec_assoc_set(d.data, k, ValueV::Str(v)),
                                    expiry: d.expiry,
                                },
                                p2,
                            ),
                        ),
                    ),
                    Err(e) => Err(e),
                },
                Err(e) => Err(e),
            }
        } else if op == 0xFA {
            match spec_read_rdb_string(s, p) {
                Ok((_, p1)) => match spec_read_rdb_string(s, p1) {
                    Ok((_, p2)) => Ok(Some((d, p2))),
                    Err(e) => Err(e),
                },
                Err(e) => Err(e),
            }
        } else if op == 0xFB {
            match spec_read_length(s, p) {
                Ok((_, p1)) => match spec_read_length(s, p1) {
                    Ok((_, p2)) => Ok(Some((d, p2))),
                    Err(e) => Err(e),
                },
                Err(e) => Err(e),
            }
        } else if op == 0xFC || op == 0xFD {
            let w = if op == 0xFC {
                8int
            } else {
                4int
            };
            if p + w + 1 > s.len() {
                Err(WireError::UnexpectedEof)
            } else {
                let raw = le_val(s.subrange(p, p + w));
                let ms = if op == 0xFC {
                    raw as u64
                } else {
                    (raw * 1000) as u64
                };
                if s[p + w] != 0 {
                    Err(WireError::InvalidData)
                } else {
                    match spec_read_rdb_string(s, p + w + 1) {
                        Ok((k, p1)) => match spec_read_rdb_string(s, p1) {
                            Ok((v, p2)) => Ok(
                                Some(
                                    (
                                        DatasetView {
                                            data: spec_assoc_set(d.data, k, ValueV::Str(v)),
                                            expiry: spec_assoc_set(d.expiry, k, ms),
                                        },
                                        p2,
                                    ),
                                ),
                            ),
                            Err(e) => Err(e),
                        },
                        Err(e) => Err(e),
                    }
                }
            }
        } else if op == 0xFE {
            match spec_read_length(s, p) {
                Ok((l, p1)) => if l == Length::Normal(0) {
                    Ok(Some((d, p1)))
                } else {
                    Err(WireError::InvalidData)
                },
                Err(e) => Err(e),
            }
        } else {
            Err(WireError::InvalidData)
        }
    }
}

/// The whole opcode stream from `pos` on: iterate `spec_rdb_step` to the
/// end-of-file marker.
pub open spec fn spec_rdb_body(s: Seq<u8>, pos: int, d: DatasetView) -> Result<
    DatasetView,
    WireError,
>
    decreases s.len() - pos,
    when 0 <= pos
{
    match spec_rdb_step(s, pos, d) {
        Ok(Some((d2, p2))) => if pos < p2 <= s.len() {
            spec_rdb_body(s, p2, d2)
        } else {
            Err(WireError::InvalidData)
        },
        Ok(None) => Ok(d),
        Err(e) => Err(e),
    }
}

/// A whole snapshot: the magic `REDIS`, the version `0003`, then the
/// opcode stream over one initially empty dataset.
pub open spec fn spec_read_rdb(s: Seq<u8>) -> Result<DatasetView, WireError> {
    if s.len() < 5 {
        Err(WireError::UnexpectedEof)
    } else if s.subrange(0, 5) != rdb_magic() {
        Err(WireError::InvalidData)
    } else if s.len() < 9 {
        Err(WireError::UnexpectedEof)
    } else if s.subrange(5, 9) != rdb_version() {
        Err(WireError::InvalidData)
    } else {
        spec_rdb_body(s, 9, DatasetView::empty())
    }
}

/// One directive of the opcode stream, applied to the dataset: returns
/// the position after it, or `None` when the end-of-file marker was
/// reached.
#[verifier::rlimit(100)]
fn rdb_step(bytes: &[u8], pos: usize, d: &mut Dataset) -> (r: Result<Option<usize>, WireError>)
    requires
        old(d).wf(),
        pos <= bytes@.len(),
    ensures
        final(d).wf(),
        match r {
            Ok(Some(p2)) => pos < p2 <= bytes@.len() && spec_rdb_step(
                bytes@,
                pos as int,
                old(d)@,
            ) == Ok::<_, WireError>(Some((final(d)@, p2 as int))),
            Ok(None) => spec_rdb_step(bytes@, pos as int, old(d)@) == Ok::<
                Option<(DatasetView, int)>,
                WireError,
            >(None) && final(d)@ == old(d)@,
            Err(e) => spec_rdb_step(bytes@, pos as int, old(d)@) == Err::<
                Option<(DatasetView, int)>,
                _,
            >(e),
        },
{
    let (op, p) = match read_u8_at(bytes, pos) {
        Ok(x) => x,
        Err(e) => {
            return Err(e);
        },
    };
    if op == 0xFF {
        Ok(None)
    } else if op == 0x00 {
        let (k, p1) = match read_rdb_string(bytes, p) {
            Ok(x) => x,
            Err(e) => {
                return Err(e);
            },
        };
        let (v, p2) = match read_rdb_string(bytes, p1) {
            Ok(x) => x,
            Err(e) => {
                return Err(e);
            },
        };
        d.set(k, Value::String(v));
        Ok(Some(p2))
    } else if op == 0xFA {
        let (_k, p1) = match read_rdb_string(bytes, p) {
            Ok(x) => x,
            Err(e) => {
                return Err(e);
            },
        };
        let (_v, p2) = match read_rdb_string(bytes, p1) {
            Ok(x) => x,
            Err(e) => {
                return Err(e);
            },
        };
        Ok(Some(p2))
    } else if op == 0xFB {
        let (_l1, p1) = match read_length(bytes, p) {
            Ok(x) => x,
            Err(e) => {
                return Err(e);
            },
        };
        let (_l2, p2) = match read_length(bytes, p1) {
            Ok(x) => x,
            Err(e) => {
                return Err(e);
            },
        };
        Ok(Some(p2))
    } else if op == 0xFC {
        let (ms, p1) = match read_u64_le_at(bytes, p) {
            Ok(x) => x,
            Err(e) => {
                return Err(e);
            },
        };
        let (tb, p2) = match read_u8_at(bytes, p1) {
            Ok(x) => x,
            Err(e) => {
                return Err(e);
            },
        };
        if tb != 0 {
            return Err(WireError::InvalidData);
        }
        let (k, p3) = match read_rdb_string(bytes, p2) {
            Ok(x) => x,
            Err(e) => {
                return Err(e);
            },
        };
        let (v, p4) = match read_rdb_string(bytes, p3) {
            Ok(x) => x,
            Err(e) => {
                return Err(e);
            },
        };
        let k2 = slice_to_vec(k.as_slice());
        d.set_expiry(k2, ms);
        d.set(k, Value::String(v));
        Ok(Some(p4))
    } else if op == 0xFD {
        let (secs, p1) = match read_u32_le_at(bytes, p) {
            Ok(x) => x,
            Err(e) => {
                return Err(e);
            },
        };
        let (tb, p2) = match read_u8_at(bytes, p1) {
            Ok(x) => x,
            Err(e) => {
                return Err(e);
            },
        };
        if tb != 0 {
            return Err(WireError::InvalidData);
        }
        let (k, p3) = match read_rdb_string(bytes, p2) {
            Ok(x) => x,
            Err(e) => {
                return Err(e);
            },
        };
        let (v, p4) = match read_rdb_string(bytes, p3) {
            Ok(x) => x,
            Err(e) => {
                return Err(e);
            },
        };
        let ms = secs as u64 * 1000;
        let k2 = slice_to_vec(k.as_slice());
        d.set_expiry(k2, ms);
        d.set(k, Value::String(v));
        Ok(Some(p4))
    } else if op == 0xFE {
        let (l, p1) = match read_length(bytes, p) {
            Ok(x) => x,
            Err(e) => {
                return Err(e);
            },
        };
        match l {
            Length::Normal(n) => {
                if n != 0 {
                    return Err(WireError::InvalidData);
                }
            },
            Length::Special(_) => {
                return Err(WireError::InvalidData);
            },
        }
        Ok(Some(p1))
    } else {
        Err(WireError::InvalidData)
    }
}

/// Decode a whole snapshot into the vector of datasets that replaces the
/// running database: exactly one, at index 0.
pub fn read_rdb(bytes: &[u8]) -> (r: Result<Vec<Dataset>, WireError>)
    ensures
        match r {
            Ok(ds) => ds@.len() == 1 && ds@[0].wf() && spec_read_rdb(bytes@) == Ok::<_, WireError>(
                ds@[0]@,
            ),
            Err(e) => spec_read_rdb(bytes@) == Err::<DatasetView, _>(e),
        },
{
    let (magic, p_magic) = match read_bytes_at(bytes, 0, 5) {
        Ok(x) => x,
        Err(e) => {
            return Err(e);
        },
    };
    let magic_want: Vec<u8> = vec![82u8, 69u8, 68u8, 73u8, 83u8];
    if !crate::ascii::bytes_eq(magic.as_slice(), magic_want.as_slice()) {
        proof {
            assert(magic_want@ =~= rdb_magic());
        }
        return Err(WireError::InvalidData);
    }
    let (version, _p_version) = match read_bytes_at(bytes, p_magic, 4) {
        Ok(x) => x,
        Err(e) => {
            return Err(e);
        },
    };
    let version_want: Vec<u8> = vec![48u8, 48u8, 48u8, 51u8];
    if !crate::ascii::bytes_eq(version.as_slice(), version_want.as_slice()) {
        proof {
            assert(version_want@ =~= rdb_version());
        }
        return Err(WireError::InvalidData);
    }
    proof {
        assert(magic@ == rdb_magic() && version@ == rdb_version());
    }
    let mut d = Dataset::new();
    let mut pos: usize = 9;
    loop
        invariant
            9 <= pos <= bytes@.len(),
            d.wf(),
            spec_read_rdb(bytes@) == spec_rdb_body(bytes@, pos as int, d@),
        decreases bytes@.len() - pos,
    {
        match rdb_step(bytes, pos, &mut d) {
            Ok(Some(p2)) => {
                pos = p2;
            },
            Ok(None) => {
                let mut ds: Vec<Dataset> = Vec::new();
                ds.push(d);
                return Ok(ds);
            },
            Err(e) => {
                return Err(e);
            },
        }
    }
}

/// Law, first half: every `u32` has a valid length-prefix encoding, and
/// decoding it gives the number back, wherever it sits in a stream.  The
/// witness is the five-byte form: the `10` flag byte, then the number
/// little-endian.
pub open spec fn spec_enc_length(n: u32) -> Seq<u8> {
    seq![
        128u8,
        (n % 256) as u8,
        ((n / 256) % 256) as u8,
        ((n / 65536) % 256) as u8,
        ((n / 16777216) % 256) as u8,
    ]
}

pub proof fn lemma_length_prefix_round_trip(n: u32, rest: Seq<u8>)
    ensures
        spec_read_length(spec_enc_length(n) + rest, 0) == Ok::<_, WireError>((
            Length::Normal(n),
            5int,
        )),
{
    let s = spec_enc_length(n) + rest;
    assert(s[0] == 128);
    let sub = s.subrange(1, 5);
    assert(sub =~= seq![
        (n % 256) as u8,
        ((n / 256) % 256) as u8,
        ((n / 65536) % 256) as u8,
        ((n / 16777216) % 256) as u8,
    ]);
    crate::reader::lemma_le_val_unfold(sub);
    assert(le_val(sub) == (n % 256) + ((n / 256) % 256) * 256 + ((n / 65536) % 256) * 65536 + ((n
        / 16777216) % 256) * 16777216);
    assert((n % 256) + ((n / 256) % 256) * 256 + ((n / 65536) % 256) * 65536 + ((n / 16777216)
        % 256) * 16777216 == n) by (bit_vector);
}

/// Law, second half: after a special length code 0, 1 or 2, the string
/// read returns exactly 1, 2 or 4 raw bytes.
pub proof fn lemma_special_length_string(s: Seq<u8>, pos: int, m: u8, p: int)
    requires
        0 <= pos,
        spec_read_length(s, pos) == Ok::<_, WireError>((Length::Special(m), p)),
        m == 0 || m == 1 || m == 2,
        p + (if m == 0 { 1int } else if m == 1 { 2int } else { 4int }) <= s.len(),
    ensures
        ({
            let w = if m == 0 { 1int } else if m == 1 { 2int } else { 4int };
            spec_read_rdb_string(s, pos) == Ok::<_, WireError>((s.subrange(p, p + w), p + w))
        }),
{
}

} // verus!
