//! The format's two variable-length integer encodings.
//!
//! A 32-bit value is carried in 1 to 5 bytes, a 64-bit value in 1 to 9:
//! the number of leading one bits of the first byte gives the number of
//! bytes that follow, the remaining bits of the first byte and all bits of
//! the following bytes are the value, big-endian. The widest form of each
//! domain is an escape: all prefix bits set, and for the 32-bit form only
//! the low four bits of the last byte are significant.
//!
//! Encoders emit the shortest form that carries the value; decoders accept
//! any byte count consistent with the prefix, and report a stream that ends
//! mid-field as [`Error::UnexpectedEof`].

use vstd::prelude::*;

use crate::cram::error::Error;

verus! {

/// The bytes of the canonical (shortest-form) encoding of the 32-bit
/// pattern `u`.
#[verifier::opaque]
pub open spec fn itf8_bytes(u: u32) -> Seq<u8> {
    if u < 0x80 {
        seq![u as u8]
    } else if u < 0x4000 {
        seq![((u >> 8) | 0x80) as u8, u as u8]
    } else if u < 0x200000 {
        seq![((u >> 16) | 0xc0) as u8, (u >> 8) as u8, u as u8]
    } else if u < 0x10000000 {
        seq![((u >> 24) | 0xe0) as u8, (u >> 16) as u8, (u >> 8) as u8, u as u8]
    } else {
        seq![
            ((u >> 28) | 0xf0) as u8,
            (u >> 20) as u8,
            (u >> 12) as u8,
            (u >> 4) as u8,
            (u & 0x0f) as u8,
        ]
    }
}

/// What decoding a 32-bit value at the head of `s` yields: the value's
/// bit pattern and the number of bytes consumed, or nothing if `s` ends
/// before the form announced by the first byte's prefix is complete.
#[verifier::opaque]
pub open spec fn decode_itf8_spec(s: Seq<u8>) -> Option<(u32, int)> {
    if s.len() < 1 {
        None
    } else {
        let b0 = s[0];
        if b0 & 0x80 == 0 {
            Some((b0 as u32, 1))
        } else if b0 & 0x40 == 0 {
            if s.len() < 2 {
                None
            } else {
                Some(((((b0 & 0x7f) as u32) << 8) | (s[1] as u32), 2))
            }
        } else if b0 & 0x20 == 0 {
            if s.len() < 3 {
                None
            } else {
                Some(((((b0 & 0x3f) as u32) << 16) | ((s[1] as u32) << 8) | (s[2] as u32), 3))
            }
        } else if b0 & 0x10 == 0 {
            if s.len() < 4 {
                None
            } else {
                Some(
                    (
                        (((b0 & 0x1f) as u32) << 24) | ((s[1] as u32) << 16) | ((s[2] as u32) << 8)
                            | (s[3] as u32),
                        4,
                    ),
                )
            }
        } else {
            if s.len() < 5 {
                None
            } else {
                Some(
                    (
                        (((b0 & 0x0f) as u32) << 28) | ((s[1] as u32) << 20) | ((s[2] as u32) << 12)
                            | ((s[3] as u32) << 4) | ((s[4] & 0x0f) as u32),
                        5,
                    ),
                )
            }
        }
    }
}

/// Appends the shortest-form encoding of `v` to `buf`.
pub fn encode_itf8(buf: &mut Vec<u8>, v: i32)
    ensures
        final(buf)@ == old(buf)@ + itf8_bytes(v as u32),
{
    proof {
        reveal(itf8_bytes);
    }
    let u: u32 = #[verifier::truncate] (v as u32);
    if u < 0x80 {
        buf.push(#[verifier::truncate] (u as u8));
    } else if u < 0x4000 {
        buf.push(#[verifier::truncate] (((u >> 8) | 0x80) as u8));
        buf.push(#[verifier::truncate] (u as u8));
    } else if u < 0x200000 {
        buf.push(#[verifier::truncate] (((u >> 16) | 0xc0) as u8));
        buf.push(#[verifier::truncate] ((u >> 8) as u8));
        buf.push(#[verifier::truncate] (u as u8));
    } else if u < 0x10000000 {
        buf.push(#[verifier::truncate] (((u >> 24) | 0xe0) as u8));
        buf.push(#[verifier::truncate] ((u >> 16) as u8));
        buf.push(#[verifier::truncate] ((u >> 8) as u8));
        buf.push(#[verifier::truncate] (u as u8));
    } else {
        buf.push(#[verifier::truncate] (((u >> 28) | 0xf0) as u8));
        buf.push(#[verifier::truncate] ((u >> 20) as u8));
        buf.push(#[verifier::truncate] ((u >> 12) as u8));
        buf.push(#[verifier::truncate] ((u >> 4) as u8));
        buf.push(#[verifier::truncate] ((u & 0x0f) as u8));
    }
    proof {
        assert(buf@ =~= old(buf)@ + itf8_bytes(v as u32));
    }
}

/// Reinterprets a 32-bit pattern as a signed value.
pub(crate) fn u32_to_i32(val: u32) -> (r: i32)
    ensures
        r as u32 == val,
{
    let out: i32 = #[verifier::truncate] (val as i32);
    proof {
        assert(((val as i32) as u32) == val) by (bit_vector);
    }
    out
}

/// Decodes a 32-bit value from `src` at `pos`. Returns the value and the
/// position of the first byte after it.
pub fn decode_itf8(src: &[u8], pos: usize) -> (r: Result<(i32, usize), Error>)
    requires
        pos <= src@.len(),
    ensures
        match r {
            Ok((v, n)) => {
                &&& pos < n <= src@.len()
                &&& decode_itf8_spec(src@.skip(pos as int)) == Some((v as u32, n - pos))
            },
            Err(e) => {
                &&& e == Error::UnexpectedEof
                &&& decode_itf8_spec(src@.skip(pos as int)) is None
            },
        },
{
    proof {
        reveal(decode_itf8_spec);
    }
    let ghost s = src@.skip(pos as int);
    let remaining = src.len() - pos;
    if remaining < 1 {
        return Err(Error::UnexpectedEof);
    }
    let b0 = src[pos];
    proof {
        assert(s[0] == src@[pos as int]);
    }
    if b0 & 0x80 == 0 {
        let val: u32 = b0 as u32;
        let out: i32 = u32_to_i32(val);
        Ok((out, pos + 1))
    } else if b0 & 0x40 == 0 {
        if remaining < 2 {
            return Err(Error::UnexpectedEof);
        }
        let b1 = src[pos + 1];
        proof {
            assert(s[1] == src@[pos + 1]);
        }
        let val: u32 = (((b0 & 0x7f) as u32) << 8) | (b1 as u32);
        let out: i32 = u32_to_i32(val);
        Ok((out, pos + 2))
    } else if b0 & 0x20 == 0 {
        if remaining < 3 {
            return Err(Error::UnexpectedEof);
        }
        let b1 = src[pos + 1];
        let b2 = src[pos + 2];
        proof {
            assert(s[1] == src@[pos + 1]);
            assert(s[2] == src@[pos + 2]);
        }
        let val: u32 = (((b0 & 0x3f) as u32) << 16) | ((b1 as u32) << 8) | (b2 as u32);
        let out: i32 = u32_to_i32(val);
        Ok((out, pos + 3))
    } else if b0 & 0x10 == 0 {
        if remaining < 4 {
            return Err(Error::UnexpectedEof);
        }
        let b1 = src[pos + 1];
        let b2 = src[pos + 2];
        let b3 = src[pos + 3];
        proof {
            assert(s[1] == src@[pos + 1]);
            assert(s[2] == src@[pos + 2]);
            assert(s[3] == src@[pos + 3]);
        }
        let val: u32 = (((b0 & 0x1f) as u32) << 24) | ((b1 as u32) << 16) | ((b2 as u32) << 8) | (
        b3 as u32);
        let out: i32 = u32_to_i32(val);
        Ok((out, pos + 4))
    } else {
        if remaining < 5 {
            return Err(Error::UnexpectedEof);
        }
        let b1 = src[pos + 1];
        let b2 = src[pos + 2];
        let b3 = src[pos + 3];
        let b4 = src[pos + 4];
        proof {
            assert(s[1] == src@[pos + 1]);
            assert(s[2] == src@[pos + 2]);
            assert(s[3] == src@[pos + 3]);
            assert(s[4] == src@[pos + 4]);
        }
        let val: u32 = (((b0 & 0x0f) as u32) << 28) | ((b1 as u32) << 20) | ((b2 as u32) << 12) | (
        (b3 as u32) << 4) | ((b4 & 0x0f) as u32);
        let out: i32 = u32_to_i32(val);
        Ok((out, pos + 5))
    }
}

/// Round-trip law: an encoded 32-bit value, whatever follows it in the
/// stream, decodes to the value itself and consumes exactly its bytes.
pub proof fn lemma_itf8_round_trip(v: i32, rest: Seq<u8>)
    ensures
        decode_itf8_spec(itf8_bytes(v as u32) + rest) == Some(
            (v as u32, itf8_bytes(v as u32).len() as int),
        ),
{
    reveal(itf8_bytes);
    reveal(decode_itf8_spec);
    let u = v as u32;
    let enc = itf8_bytes(u);
    let s = enc + rest;
    if u < 0x80 {
        assert(s[0] == u as u8);
        assert((u as u8) & 0x80 == 0 && (u as u8) as u32 == u) by (bit_vector)
            requires
                u < 0x80,
        ;
    } else if u < 0x4000 {
        let b0 = ((u >> 8) | 0x80) as u8;
        assert(s[0] == b0 && s[1] == u as u8);
        assert(b0 & 0x80 != 0 && b0 & 0x40 == 0 && ((((b0 & 0x7f) as u32) << 8) | ((u as u8)
            as u32)) == u) by (bit_vector)
            requires
                b0 == ((u >> 8) | 0x80) as u8 && 0x80 <= u < 0x4000,
        ;
    } else if u < 0x200000 {
        let b0 = ((u >> 16) | 0xc0) as u8;
        assert(s[0] == b0 && s[1] == (u >> 8) as u8 && s[2] == u as u8);
        assert(b0 & 0x80 != 0 && b0 & 0x40 != 0 && b0 & 0x20 == 0 && ((((b0 & 0x3f) as u32) << 16)
            | ((((u >> 8) as u8) as u32) << 8) | ((u as u8) as u32)) == u) by (bit_vector)
            requires
                b0 == ((u >> 16) | 0xc0) as u8 && 0x4000 <= u < 0x200000,
        ;
    } else if u < 0x10000000 {
        let b0 = ((u >> 24) | 0xe0) as u8;
        assert(s[0] == b0 && s[1] == (u >> 16) as u8 && s[2] == (u >> 8) as u8 && s[3] == u as u8);
        assert(b0 & 0x80 != 0 && b0 & 0x40 != 0 && b0 & 0x20 != 0 && b0 & 0x10 == 0 && ((((b0
            & 0x1f) as u32) << 24) | ((((u >> 16) as u8) as u32) << 16) | ((((u >> 8) as u8) as u32)
            << 8) | ((u as u8) as u32)) == u) by (bit_vector)
            requires
                b0 == ((u >> 24) | 0xe0) as u8 && 0x200000 <= u < 0x10000000,
        ;
    } else {
        let b0 = ((u >> 28) | 0xf0) as u8;
        assert(s[0] == b0 && s[1] == (u >> 20) as u8 && s[2] == (u >> 12) as u8 && s[3] == (u >> 4)
            as u8 && s[4] == (u & 0x0f) as u8);
        assert(b0 & 0x80 != 0 && b0 & 0x40 != 0 && b0 & 0x20 != 0 && b0 & 0x10 != 0 && ((((b0
            & 0x0f) as u32) << 28) | ((((u >> 20) as u8) as u32) << 20) | ((((u >> 12) as u8)
            as u32) << 12) | ((((u >> 4) as u8) as u32) << 4) | ((((u & 0x0f) as u8) & 0x0f)
            as u32)) == u) by (bit_vector)
            requires
                b0 == ((u >> 28) | 0xf0) as u8 && 0x10000000 <= u,
        ;
    }
}


/// The bytes of the canonical (shortest-form) encoding of the 64-bit
/// pattern `u`.
#[verifier::opaque]
pub open spec fn ltf8_bytes(u: u64) -> Seq<u8> {
    if u < 0x80 {
        seq![u as u8]
    } else if u < 0x4000 {
        seq![((u >> 8) | 0x80) as u8, u as u8]
    } else if u < 0x200000 {
        seq![((u >> 16) | 0xc0) as u8, (u >> 8) as u8, u as u8]
    } else if u < 0x10000000 {
        seq![((u >> 24) | 0xe0) as u8, (u >> 16) as u8, (u >> 8) as u8, u as u8]
    } else if u < 0x800000000 {
        seq![((u >> 32) | 0xf0) as u8, (u >> 24) as u8, (u >> 16) as u8, (u >> 8) as u8, u as u8]
    } else if u < 0x40000000000 {
        seq![((u >> 40) | 0xf8) as u8, (u >> 32) as u8, (u >> 24) as u8, (u >> 16) as u8, (u >> 8) as u8, u as u8]
    } else if u < 0x2000000000000 {
        seq![((u >> 48) | 0xfc) as u8, (u >> 40) as u8, (u >> 32) as u8, (u >> 24) as u8, (u >> 16) as u8, (u >> 8) as u8, u as u8]
    } else if u < 0x100000000000000 {
        seq![0xfeu8, (u >> 48) as u8, (u >> 40) as u8, (u >> 32) as u8, (u >> 24) as u8, (u >> 16) as u8, (u >> 8) as u8, u as u8]
    } else {
        seq![0xffu8, (u >> 56) as u8, (u >> 48) as u8, (u >> 40) as u8, (u >> 32) as u8, (u >> 24) as u8, (u >> 16) as u8, (u >> 8) as u8, u as u8]
    }
}

/// What decoding a 64-bit value at the head of `s` yields: the value's
/// bit pattern and the number of bytes consumed, or nothing if `s` ends
/// before the form announced by the first byte's prefix is complete.
#[verifier::opaque]
pub open spec fn decode_ltf8_spec(s: Seq<u8>) -> Option<(u64, int)> {
    if s.len() < 1 {
        None
    } else {
        let b0 = s[0];
        if b0 & 0x80 == 0 {
            Some((b0 as u64, 1))
        } else if b0 & 0x40 == 0 {
            if s.len() < 2 {
                None
            } else {
                Some(((((b0 & 0x7f) as u64) << 8) | (s[1] as u64), 2))
            }
        } else if b0 & 0x20 == 0 {
            if s.len() < 3 {
                None
            } else {
                Some(((((b0 & 0x3f) as u64) << 16) | ((s[1] as u64) << 8) | (s[2] as u64), 3))
            }
        } else if b0 & 0x10 == 0 {
            if s.len() < 4 {
                None
            } else {
                Some(((((b0 & 0x1f) as u64) << 24) | ((s[1] as u64) << 16) | ((s[2] as u64) << 8) | (s[3] as u64), 4))
            }
        } else if b0 & 0x08 == 0 {
            if s.len() < 5 {
                None
            } else {
                Some(((((b0 & 0x0f) as u64) << 32) | ((s[1] as u64) << 24) | ((s[2] as u64) << 16) | ((s[3] as u64) << 8) | (s[4] as u64), 5))
            }
        } else if b0 & 0x04 == 0 {
            if s.len() < 6 {
                None
            } else {
                Some(((((b0 & 0x07) as u64) << 40) | ((s[1] as u64) << 32) | ((s[2] as u64) << 24) | ((s[3] as u64) << 16) | ((s[4] as u64) << 8) | (s[5] as u64), 6))
            }
        } else if b0 & 0x02 == 0 {
            if s.len() < 7 {
                None
            } else {
                Some(((((b0 & 0x03) as u64) << 48) | ((s[1] as u64) << 40) | ((s[2] as u64) << 32) | ((s[3] as u64) << 24) | ((s[4] as u64) << 16) | ((s[5] as u64) << 8) | (s[6] as u64), 7))
            }
        } else if b0 & 0x01 == 0 {
            if s.len() < 8 {
                None
            } else {
                Some((((s[1] as u64) << 48) | ((s[2] as u64) << 40) | ((s[3] as u64) << 32) | ((s[4] as u64) << 24) | ((s[5] as u64) << 16) | ((s[6] as u64) << 8) | (s[7] as u64), 8))
            }
        } else {
            if s.len() < 9 {
                None
            } else {
                Some((((s[1] as u64) << 56) | ((s[2] as u64) << 48) | ((s[3] as u64) << 40) | ((s[4] as u64) << 32) | ((s[5] as u64) << 24) | ((s[6] as u64) << 16) | ((s[7] as u64) << 8) | (s[8] as u64), 9))
            }
        }
    }
}

/// Appends the shortest-form encoding of `v` to `buf`.
pub fn encode_ltf8(buf: &mut Vec<u8>, v: i64)
    ensures
        final(buf)@ == old(buf)@ + ltf8_bytes(v as u64),
{
    proof {
        reveal(ltf8_bytes);
    }
    let u: u64 = #[verifier::truncate] (v as u64);
    if u < 0x80 {
        buf.push(#[verifier::truncate] (u as u8));
    } else if u < 0x4000 {
        buf.push(#[verifier::truncate] (((u >> 8) | 0x80) as u8));
        buf.push(#[verifier::truncate] (u as u8));
    } else if u < 0x200000 {
        buf.push(#[verifier::truncate] (((u >> 16) | 0xc0) as u8));
        buf.push(#[verifier::truncate] ((u >> 8) as u8));
        buf.push(#[verifier::truncate] (u as u8));
    } else if u < 0x10000000 {
        buf.push(#[verifier::truncate] (((u >> 24) | 0xe0) as u8));
        buf.push(#[verifier::truncate] ((u >> 16) as u8));
        buf.push(#[verifier::truncate] ((u >> 8) as u8));
        buf.push(#[verifier::truncate] (u as u8));
    } else if u < 0x800000000 {
        buf.push(#[verifier::truncate] (((u >> 32) | 0xf0) as u8));
        buf.push(#[verifier::truncate] ((u >> 24) as u8));
        buf.push(#[verifier::truncate] ((u >> 16) as u8));
        buf.push(#[verifier::truncate] ((u >> 8) as u8));
        buf.push(#[verifier::truncate] (u as u8));
    } else if u < 0x40000000000 {
        buf.push(#[verifier::truncate] (((u >> 40) | 0xf8) as u8));
        buf.push(#[verifier::truncate] ((u >> 32) as u8));
        buf.push(#[verifier::truncate] ((u >> 24) as u8));
        buf.push(#[verifier::truncate] ((u >> 16) as u8));
        buf.push(#[verifier::truncate] ((u >> 8) as u8));
        buf.push(#[verifier::truncate] (u as u8));
    } else if u < 0x2000000000000 {
        buf.push(#[verifier::truncate] (((u >> 48) | 0xfc) as u8));
        buf.push(#[verifier::truncate] ((u >> 40) as u8));
        buf.push(#[verifier::truncate] ((u >> 32) as u8));
        buf.push(#[verifier::truncate] ((u >> 24) as u8));
        buf.push(#[verifier::truncate] ((u >> 16) as u8));
        buf.push(#[verifier::truncate] ((u >> 8) as u8));
        buf.push(#[verifier::truncate] (u as u8));
    } else if u < 0x100000000000000 {
        buf.push(0xfeu8);
        buf.push(#[verifier::truncate] ((u >> 48) as u8));
        buf.push(#[verifier::truncate] ((u >> 40) as u8));
        buf.push(#[verifier::truncate] ((u >> 32) as u8));
        buf.push(#[verifier::truncate] ((u >> 24) as u8));
        buf.push(#[verifier::truncate] ((u >> 16) as u8));
        buf.push(#[verifier::truncate] ((u >> 8) as u8));
        buf.push(#[verifier::truncate] (u as u8));
    } else {
        buf.push(0xffu8);
        buf.push(#[verifier::truncate] ((u >> 56) as u8));
        buf.push(#[verifier::truncate] ((u >> 48) as u8));
        buf.push(#[verifier::truncate] ((u >> 40) as u8));
        buf.push(#[verifier::truncate] ((u >> 32) as u8));
        buf.push(#[verifier::truncate] ((u >> 24) as u8));
        buf.push(#[verifier::truncate] ((u >> 16) as u8));
        buf.push(#[verifier::truncate] ((u >> 8) as u8));
        buf.push(#[verifier::truncate] (u as u8));
    }
    proof {
        assert(buf@ =~= old(buf)@ + ltf8_bytes(v as u64));
    }
}

/// Reinterprets a 64-bit pattern as a signed value.
pub(crate) fn u64_to_i64(val: u64) -> (r: i64)
    ensures
        r as u64 == val,
{
    let out: i64 = #[verifier::truncate] (val as i64);
    proof {
        assert(((val as i64) as u64) == val) by (bit_vector);
    }
    out
}

/// Decodes a 64-bit value from `src` at `pos`. Returns the value and the
/// position of the first byte after it.
pub fn decode_ltf8(src: &[u8], pos: usize) -> (r: Result<(i64, usize), Error>)
    requires
        pos <= src@.len(),
    ensures
        match r {
            Ok((v, n)) => {
                &&& pos < n <= src@.len()
                &&& decode_ltf8_spec(src@.skip(pos as int)) == Some((v as u64, n - pos))
            },
            Err(e) => {
                &&& e == Error::UnexpectedEof
                &&& decode_ltf8_spec(src@.skip(pos as int)) is None
            },
        },
{
    proof {
        reveal(decode_ltf8_spec);
    }
    let ghost s = src@.skip(pos as int);
    let remaining = src.len() - pos;
    if remaining < 1 {
        return Err(Error::UnexpectedEof);
    }
    let b0 = src[pos];
    proof {
        assert(s[0] == src@[pos as int]);
    }
    if b0 & 0x80 == 0 {
        Ok((u64_to_i64(b0 as u64), pos + 1))
    } else if b0 & 0x40 == 0 {
        if remaining < 2 {
            return Err(Error::UnexpectedEof);
        }
        let b1 = src[pos + 1];
        proof {
            assert(s[1] == src@[pos + 1]);
        }
        let val: u64 = (((b0 & 0x7f) as u64) << 8) | (b1 as u64);
        Ok((u64_to_i64(val), pos + 2))
    } else if b0 & 0x20 == 0 {
        if remaining < 3 {
            return Err(Error::UnexpectedEof);
        }
        let b1 = src[pos + 1];
        let b2 = src[pos + 2];
        proof {
            assert(s[1] == src@[pos + 1]);
            assert(s[2] == src@[pos + 2]);
        }
        let val: u64 = (((b0 & 0x3f) as u64) << 16) | ((b1 as u64) << 8) | (b2 as u64);
        Ok((u64_to_i64(val), pos + 3))
    } else if b0 & 0x10 == 0 {
        if remaining < 4 {
            return Err(Error::UnexpectedEof);
        }
        let b1 = src[pos + 1];
        let b2 = src[pos + 2];
        let b3 = src[pos + 3];
        proof {
            assert(s[1] == src@[pos + 1]);
            assert(s[2] == src@[pos + 2]);
            assert(s[3] == src@[pos + 3]);
        }
        let val: u64 = (((b0 & 0x1f) as u64) << 24) | ((b1 as u64) << 16) | ((b2 as u64) << 8) | (b3 as u64);
        Ok((u64_to_i64(val), pos + 4))
    } else if b0 & 0x08 == 0 {
        if remaining < 5 {
            return Err(Error::UnexpectedEof);
        }
        let b1 = src[pos + 1];
        let b2 = src[pos + 2];
        let b3 = src[pos + 3];
        let b4 = src[pos + 4];
        proof {
            assert(s[1] == src@[pos + 1]);
            assert(s[2] == src@[pos + 2]);
            assert(s[3] == src@[pos + 3]);
            assert(s[4] == src@[pos + 4]);
        }
        let val: u64 = (((b0 & 0x0f) as u64) << 32) | ((b1 as u64) << 24) | ((b2 as u64) << 16) | ((b3 as u64) << 8) | (b4 as u64);
        Ok((u64_to_i64(val), pos + 5))
    } else if b0 & 0x04 == 0 {
        if remaining < 6 {
            return Err(Error::UnexpectedEof);
        }
        let b1 = src[pos + 1];
        let b2 = src[pos + 2];
        let b3 = src[pos + 3];
        let b4 = src[pos + 4];
        let b5 = src[pos + 5];
        proof {
            assert(s[1] == src@[pos + 1]);
            assert(s[2] == src@[pos + 2]);
            assert(s[3] == src@[pos + 3]);
            assert(s[4] == src@[pos + 4]);
            assert(s[5] == src@[pos + 5]);
        }
        let val: u64 = (((b0 & 0x07) as u64) << 40) | ((b1 as u64) << 32) | ((b2 as u64) << 24) | ((b3 as u64) << 16) | ((b4 as u64) << 8) | (b5 as u64);
        Ok((u64_to_i64(val), pos + 6))
    } else if b0 & 0x02 == 0 {
        if remaining < 7 {
            return Err(Error::UnexpectedEof);
        }
        let b1 = src[pos + 1];
        let b2 = src[pos + 2];
        let b3 = src[pos + 3];
        let b4 = src[pos + 4];
        let b5 = src[pos + 5];
        let b6 = src[pos + 6];
        proof {
            assert(s[1] == src@[pos + 1]);
            assert(s[2] == src@[pos + 2]);
            assert(s[3] == src@[pos + 3]);
            assert(s[4] == src@[pos + 4]);
            assert(s[5] == src@[pos + 5]);
            assert(s[6] == src@[pos + 6]);
        }
        let val: u64 = (((b0 & 0x03) as u64) << 48) | ((b1 as u64) << 40) | ((b2 as u64) << 32) | ((b3 as u64) << 24) | ((b4 as u64) << 16) | ((b5 as u64) << 8) | (b6 as u64);
        Ok((u64_to_i64(val), pos + 7))
    } else if b0 & 0x01 == 0 {
        if remaining < 8 {
            return Err(Error::UnexpectedEof);
        }
        let b1 = src[pos + 1];
        let b2 = src[pos + 2];
        let b3 = src[pos + 3];
        let b4 = src[pos + 4];
        let b5 = src[pos + 5];
        let b6 = src[pos + 6];
        let b7 = src[pos + 7];
        proof {
            assert(s[1] == src@[pos + 1]);
            assert(s[2] == src@[pos + 2]);
            assert(s[3] == src@[pos + 3]);
            assert(s[4] == src@[pos + 4]);
            assert(s[5] == src@[pos + 5]);
            assert(s[6] == src@[pos + 6]);
            assert(s[7] == src@[pos + 7]);
        }
        let val: u64 = ((b1 as u64) << 48) | ((b2 as u64) << 40) | ((b3 as u64) << 32) | ((b4 as u64) << 24) | ((b5 as u64) << 16) | ((b6 as u64) << 8) | (b7 as u64);
        Ok((u64_to_i64(val), pos + 8))
    } else {
        if remaining < 9 {
            return Err(Error::UnexpectedEof);
        }
        let b1 = src[pos + 1];
        let b2 = src[pos + 2];
        let b3 = src[pos + 3];
        let b4 = src[pos + 4];
        let b5 = src[pos + 5];
        let b6 = src[pos + 6];
        let b7 = src[pos + 7];
        let b8 = src[pos + 8];
        proof {
            assert(s[1] == src@[pos + 1]);
            assert(s[2] == src@[pos + 2]);
            assert(s[3] == src@[pos + 3]);
            assert(s[4] == src@[pos + 4]);
            assert(s[5] == src@[pos + 5]);
            assert(s[6] == src@[pos + 6]);
            assert(s[7] == src@[pos + 7]);
            assert(s[8] == src@[pos + 8]);
        }
        let val: u64 = ((b1 as u64) << 56) | ((b2 as u64) << 48) | ((b3 as u64) << 40) | ((b4 as u64) << 32) | ((b5 as u64) << 24) | ((b6 as u64) << 16) | ((b7 as u64) << 8) | (b8 as u64);
        Ok((u64_to_i64(val), pos + 9))
    }
}

/// Round-trip law: an encoded 64-bit value, whatever follows it in the
/// stream, decodes to the value itself and consumes exactly its bytes.
pub proof fn lemma_ltf8_round_trip(v: i64, rest: Seq<u8>)
    ensures
        decode_ltf8_spec(ltf8_bytes(v as u64) + rest) == Some(
            (v as u64, ltf8_bytes(v as u64).len() as int),
        ),
{
    reveal(ltf8_bytes);
    reveal(decode_ltf8_spec);
    let u = v as u64;
    let enc = ltf8_bytes(u);
    let s = enc + rest;
    if u < 0x80 {
        assert(s[0] == u as u8);
        let b0: u8 = u as u8;
        assert(b0 & 0x80 == 0 && ((u as u8) as u64) == u) by (bit_vector)
            requires
                b0 == u as u8 && u < 0x80,
        ;
    } else if u < 0x4000 {
        assert(s[0] == ((u >> 8) | 0x80) as u8 && s[1] == u as u8);
        let b0: u8 = ((u >> 8) | 0x80) as u8;
        assert(b0 & 0x80 != 0 && b0 & 0x40 == 0 && ((((b0 & 0x7f) as u64) << 8) | ((u as u8) as u64)) == u) by (bit_vector)
            requires
                b0 == ((u >> 8) | 0x80) as u8 && 0x80 <= u && u < 0x4000,
        ;
    } else if u < 0x200000 {
        assert(s[0] == ((u >> 16) | 0xc0) as u8 && s[1] == (u >> 8) as u8 && s[2] == u as u8);
        let b0: u8 = ((u >> 16) | 0xc0) as u8;
        assert(b0 & 0x80 != 0 && b0 & 0x40 != 0 && b0 & 0x20 == 0 && ((((b0 & 0x3f) as u64) << 16) | ((((u >> 8) as u8) as u64) << 8) | ((u as u8) as u64)) == u) by (bit_vector)
            requires
                b0 == ((u >> 16) | 0xc0) as u8 && 0x4000 <= u && u < 0x200000,
        ;
    } else if u < 0x10000000 {
        assert(s[0] == ((u >> 24) | 0xe0) as u8 && s[1] == (u >> 16) as u8 && s[2] == (u >> 8) as u8 && s[3] == u as u8);
        let b0: u8 = ((u >> 24) | 0xe0) as u8;
        assert(b0 & 0x80 != 0 && b0 & 0x40 != 0 && b0 & 0x20 != 0 && b0 & 0x10 == 0 && ((((b0 & 0x1f) as u64) << 24) | ((((u >> 16) as u8) as u64) << 16) | ((((u >> 8) as u8) as u64) << 8) | ((u as u8) as u64)) == u) by (bit_vector)
            requires
                b0 == ((u >> 24) | 0xe0) as u8 && 0x200000 <= u && u < 0x10000000,
        ;
    } else if u < 0x800000000 {
        assert(s[0] == ((u >> 32) | 0xf0) as u8 && s[1] == (u >> 24) as u8 && s[2] == (u >> 16) as u8 && s[3] == (u >> 8) as u8 && s[4] == u as u8);
        let b0: u8 = ((u >> 32) | 0xf0) as u8;
        assert(b0 & 0x80 != 0 && b0 & 0x40 != 0 && b0 & 0x20 != 0 && b0 & 0x10 != 0 && b0 & 0x08 == 0 && ((((b0 & 0x0f) as u64) << 32) | ((((u >> 24) as u8) as u64) << 24) | ((((u >> 16) as u8) as u64) << 16) | ((((u >> 8) as u8) as u64) << 8) | ((u as u8) as u64)) == u) by (bit_vector)
            requires
                b0 == ((u >> 32) | 0xf0) as u8 && 0x10000000 <= u && u < 0x800000000,
        ;
    } else if u < 0x40000000000 {
        assert(s[0] == ((u >> 40) | 0xf8) as u8 && s[1] == (u >> 32) as u8 && s[2] == (u >> 24) as u8 && s[3] == (u >> 16) as u8 && s[4] == (u >> 8) as u8 && s[5] == u as u8);
        let b0: u8 = ((u >> 40) | 0xf8) as u8;
        assert(b0 & 0x80 != 0 && b0 & 0x40 != 0 && b0 & 0x20 != 0 && b0 & 0x10 != 0 && b0 & 0x08 != 0 && b0 & 0x04 == 0 && ((((b0 & 0x07) as u64) << 40) | ((((u >> 32) as u8) as u64) << 32) | ((((u >> 24) as u8) as u64) << 24) | ((((u >> 16) as u8) as u64) << 16) | ((((u >> 8) as u8) as u64) << 8) | ((u as u8) as u64)) == u) by (bit_vector)
            requires
                b0 == ((u >> 40) | 0xf8) as u8 && 0x800000000 <= u && u < 0x40000000000,
        ;
    } else if u < 0x2000000000000 {
        assert(s[0] == ((u >> 48) | 0xfc) as u8 && s[1] == (u >> 40) as u8 && s[2] == (u >> 32) as u8 && s[3] == (u >> 24) as u8 && s[4] == (u >> 16) as u8 && s[5] == (u >> 8) as u8 && s[6] == u as u8);
        let b0: u8 = ((u >> 48) | 0xfc) as u8;
        assert(b0 & 0x80 != 0 && b0 & 0x40 != 0 && b0 & 0x20 != 0 && b0 & 0x10 != 0 && b0 & 0x08 != 0 && b0 & 0x04 != 0 && b0 & 0x02 == 0 && ((((b0 & 0x03) as u64) << 48) | ((((u >> 40) as u8) as u64) << 40) | ((((u >> 32) as u8) as u64) << 32) | ((((u >> 24) as u8) as u64) << 24) | ((((u >> 16) as u8) as u64) << 16) | ((((u >> 8) as u8) as u64) << 8) | ((u as u8) as u64)) == u) by (bit_vector)
            requires
                b0 == ((u >> 48) | 0xfc) as u8 && 0x40000000000 <= u && u < 0x2000000000000,
        ;
    } else if u < 0x100000000000000 {
        assert(s[0] == 0xfeu8 && s[1] == (u >> 48) as u8 && s[2] == (u >> 40) as u8 && s[3] == (u >> 32) as u8 && s[4] == (u >> 24) as u8 && s[5] == (u >> 16) as u8 && s[6] == (u >> 8) as u8 && s[7] == u as u8);
        let b0: u8 = 0xfeu8;
        assert(b0 & 0x80 != 0 && b0 & 0x40 != 0 && b0 & 0x20 != 0 && b0 & 0x10 != 0 && b0 & 0x08 != 0 && b0 & 0x04 != 0 && b0 & 0x02 != 0 && b0 & 0x01 == 0 && (((((u >> 48) as u8) as u64) << 48) | ((((u >> 40) as u8) as u64) << 40) | ((((u >> 32) as u8) as u64) << 32) | ((((u >> 24) as u8) as u64) << 24) | ((((u >> 16) as u8) as u64) << 16) | ((((u >> 8) as u8) as u64) << 8) | ((u as u8) as u64)) == u) by (bit_vector)
            requires
                b0 == 0xfeu8 && 0x2000000000000 <= u && u < 0x100000000000000,
        ;
    } else {
        assert(s[0] == 0xffu8 && s[1] == (u >> 56) as u8 && s[2] == (u >> 48) as u8 && s[3] == (u >> 40) as u8 && s[4] == (u >> 32) as u8 && s[5] == (u >> 24) as u8 && s[6] == (u >> 16) as u8 && s[7] == (u >> 8) as u8 && s[8] == u as u8);
        let b0: u8 = 0xffu8;
        assert(b0 & 0x80 != 0 && b0 & 0x40 != 0 && b0 & 0x20 != 0 && b0 & 0x10 != 0 && b0 & 0x08 != 0 && b0 & 0x04 != 0 && b0 & 0x02 != 0 && b0 & 0x01 != 0 && (((((u >> 56) as u8) as u64) << 56) | ((((u >> 48) as u8) as u64) << 48) | ((((u >> 40) as u8) as u64) << 40) | ((((u >> 32) as u8) as u64) << 32) | ((((u >> 24) as u8) as u64) << 24) | ((((u >> 16) as u8) as u64) << 16) | ((((u >> 8) as u8) as u64) << 8) | ((u as u8) as u64)) == u) by (bit_vector)
            requires
                b0 == 0xffu8 && 0x100000000000000 <= u,
        ;
    }
}



/// An encoded 32-bit value occupies one to five bytes.
pub proof fn lemma_itf8_bytes_len(u: u32)
    ensures
        1 <= itf8_bytes(u).len() <= 5,
{
    reveal(itf8_bytes);
}

/// An encoded 64-bit value occupies one to nine bytes.
pub proof fn lemma_ltf8_bytes_len(u: u64)
    ensures
        1 <= ltf8_bytes(u).len() <= 9,
{
    reveal(ltf8_bytes);
}

/// The four little-endian bytes of a 32-bit value.
pub open spec fn le32_bytes(u: u32) -> Seq<u8> {
    seq![u as u8, (u >> 8) as u8, (u >> 16) as u8, (u >> 24) as u8]
}

/// The 32-bit value carried by the first four bytes of `s`, little-endian.
pub open spec fn le32_val(s: Seq<u8>) -> u32 {
    (s[0] as u32) | ((s[1] as u32) << 8) | ((s[2] as u32) << 16) | ((s[3] as u32) << 24)
}

/// Round-trip law for the little-endian 32-bit form.
pub proof fn lemma_le32_round_trip(u: u32, rest: Seq<u8>)
    ensures
        le32_val(le32_bytes(u) + rest) == u,
{
    let s = le32_bytes(u) + rest;
    assert(s[0] == u as u8 && s[1] == (u >> 8) as u8 && s[2] == (u >> 16) as u8 && s[3] == (u >> 24)
        as u8);
    assert(((u as u8) as u32) | ((((u >> 8) as u8) as u32) << 8) | ((((u >> 16) as u8) as u32)
        << 16) | ((((u >> 24) as u8) as u32) << 24) == u) by (bit_vector);
}

/// Appends the four little-endian bytes of `u` to `buf`.
pub fn write_u32_le(buf: &mut Vec<u8>, u: u32)
    ensures
        final(buf)@ == old(buf)@ + le32_bytes(u),
{
    buf.push(#[verifier::truncate] (u as u8));
    buf.push(#[verifier::truncate] ((u >> 8) as u8));
    buf.push(#[verifier::truncate] ((u >> 16) as u8));
    buf.push(#[verifier::truncate] ((u >> 24) as u8));
    proof {
        assert(buf@ =~= old(buf)@ + le32_bytes(u));
    }
}

/// Reads a 32-bit little-endian value from `src` at `pos`. Returns the
/// value and the position of the first byte after it.
pub fn read_u32_le(src: &[u8], pos: usize) -> (r: Result<(u32, usize), Error>)
    requires
        pos <= src@.len(),
    ensures
        match r {
            Ok((u, n)) => {
                &&& n == pos + 4 <= src@.len()
                &&& u == le32_val(src@.skip(pos as int))
            },
            Err(e) => {
                &&& e == Error::UnexpectedEof
                &&& src@.len() - pos < 4
            },
        },
{
    if src.len() - pos < 4 {
        return Err(Error::UnexpectedEof);
    }
    let b0 = src[pos];
    let b1 = src[pos + 1];
    let b2 = src[pos + 2];
    let b3 = src[pos + 3];
    let u: u32 = (b0 as u32) | ((b1 as u32) << 8) | ((b2 as u32) << 16) | ((b3 as u32) << 24);
    proof {
        let s = src@.skip(pos as int);
        assert(s[0] == src@[pos as int]);
        assert(s[1] == src@[pos + 1]);
        assert(s[2] == src@[pos + 2]);
        assert(s[3] == src@[pos + 3]);
    }
    Ok((u, pos + 4))
}

/// Appends all of `src` to `buf`.
pub fn append_bytes(buf: &mut Vec<u8>, src: &[u8])
    ensures
        final(buf)@ == old(buf)@ + src@,
{
    let ghost prefix = buf@;
    let mut i: usize = 0;
    while i < src.len()
        invariant
            i <= src@.len(),
            buf@ == prefix + src@.take(i as int),
        decreases src@.len() - i,
    {
        buf.push(src[i]);
        proof {
            assert(prefix + src@.take(i + 1) =~= (prefix + src@.take(i as int)).push(
                src@[i as int],
            ));
        }
        i += 1;
    }
    proof {
        assert(src@.take(src@.len() as int) =~= src@);
        assert(buf@ =~= prefix + src@);
    }
}

/// The two little-endian bytes of a 16-bit value.
pub open spec fn le16_bytes(u: u16) -> Seq<u8> {
    seq![u as u8, (u >> 8) as u8]
}

/// Appends the two little-endian bytes of `u` to `buf`.
pub fn write_u16_le(buf: &mut Vec<u8>, u: u16)
    ensures
        final(buf)@ == old(buf)@ + le16_bytes(u),
{
    buf.push(#[verifier::truncate] (u as u8));
    buf.push(#[verifier::truncate] ((u >> 8) as u8));
    proof {
        assert(buf@ =~= old(buf)@ + le16_bytes(u));
    }
}

/// Reinterpreting a 32-bit signed value as unsigned and back yields the
/// value itself.
pub proof fn lemma_i32_cast_id(v: i32)
    ensures
        ((v as u32) as i32) == v,
{
    assert(((v as u32) as i32) == v) by (bit_vector);
}

/// Reinterpreting a 64-bit signed value as unsigned and back yields the
/// value itself.
pub proof fn lemma_i64_cast_id(v: i64)
    ensures
        ((v as u64) as i64) == v,
{
    assert(((v as u64) as i64) == v) by (bit_vector);
}

} // verus!
