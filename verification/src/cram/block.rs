//! The atomic unit of compressed payload: a tagged, checksummed frame.
//!
//! A block carries a content type, a content id naming the data series it
//! belongs to, its compressed and uncompressed sizes, a compression
//! method tag, the compressed payload, and a CRC-32 over everything from
//! the content type through the end of the payload.

use vstd::prelude::*;

use crate::cram::codecs::{decompress_data, spec_decompress};
use crate::cram::crc::{crc32, crc32_of};
use crate::cram::error::Error;
use crate::cram::num::{
    decode_itf8, decode_itf8_spec, encode_itf8, itf8_bytes, le32_bytes, le32_val,
    lemma_itf8_round_trip, lemma_le32_round_trip, read_u32_le, write_u32_le,
};

verus! {

/// The kind of payload a block carries.
#[derive(Clone, Copy, Debug, PartialEq, Eq, Structural)]
pub enum ContentType {
    /// The textual file header.
    FileHeader,
    /// The structured record describing the container's encodings.
    CompressionHeader,
    /// A slice's own header.
    SliceHeader,
    /// A data series, looked up by content id.
    ExternalData,
    /// A slice's core bit stream.
    CoreData,
}

/// The wire tag of a content type.
pub open spec fn content_type_tag(t: ContentType) -> u8 {
    match t {
        ContentType::FileHeader => 0,
        ContentType::CompressionHeader => 1,
        ContentType::SliceHeader => 2,
        ContentType::ExternalData => 4,
        ContentType::CoreData => 5,
    }
}

/// The content type a wire tag names, if any.
pub open spec fn content_type_from_tag(tag: u8) -> Option<ContentType> {
    if tag == 0 {
        Some(ContentType::FileHeader)
    } else if tag == 1 {
        Some(ContentType::CompressionHeader)
    } else if tag == 2 {
        Some(ContentType::SliceHeader)
    } else if tag == 4 {
        Some(ContentType::ExternalData)
    } else if tag == 5 {
        Some(ContentType::CoreData)
    } else {
        None
    }
}

/// Writing a tag and reading it back names the type itself.
pub proof fn lemma_content_type_tag_round_trip(t: ContentType)
    ensures
        content_type_from_tag(content_type_tag(t)) == Some(t),
{
}

/// Exec form of [`content_type_tag`].
pub fn content_type_tag_of(t: ContentType) -> (r: u8)
    ensures
        r == content_type_tag(t),
{
    match t {
        ContentType::FileHeader => 0,
        ContentType::CompressionHeader => 1,
        ContentType::SliceHeader => 2,
        ContentType::ExternalData => 4,
        ContentType::CoreData => 5,
    }
}

/// Exec form of [`content_type_from_tag`].
pub fn content_type_of_tag(tag: u8) -> (r: Option<ContentType>)
    ensures
        r == content_type_from_tag(tag),
{
    if tag == 0 {
        Some(ContentType::FileHeader)
    } else if tag == 1 {
        Some(ContentType::CompressionHeader)
    } else if tag == 2 {
        Some(ContentType::SliceHeader)
    } else if tag == 4 {
        Some(ContentType::ExternalData)
    } else if tag == 5 {
        Some(ContentType::CoreData)
    } else {
        None
    }
}

/// A block: the atomic compressed-payload unit.
pub struct Block {
    /// The kind of payload the block carries.
    pub content_type: ContentType,
    /// Which external data series the payload belongs to. Meaningful for
    /// external data blocks only.
    pub content_id: i32,
    /// The payload's declared length once decompressed.
    pub raw_size: i32,
    /// The compression method tag.
    pub method: u8,
    /// The compressed payload.
    pub payload: Vec<u8>,
}

/// The mathematical value of a block.
pub ghost struct BlockView {
    pub content_type: ContentType,
    pub content_id: i32,
    pub raw_size: i32,
    pub method: u8,
    pub payload: Seq<u8>,
}

impl View for Block {
    type V = BlockView;

    open spec fn view(&self) -> BlockView {
        BlockView {
            content_type: self.content_type,
            content_id: self.content_id,
            raw_size: self.raw_size,
            method: self.method,
            payload: self.payload@,
        }
    }
}

impl BlockView {
    /// What every block that can stand on the wire satisfies: both size
    /// fields are representable as the non-negative 32-bit integers the
    /// frame stores them as.
    pub open spec fn wf(self) -> bool {
        &&& self.raw_size >= 0
        &&& self.payload.len() <= 0x7fffffff
    }
}

/// The bytes of a block from the content type through the payload: the
/// checksummed region.
pub open spec fn block_body_bytes(b: BlockView) -> Seq<u8> {
    seq![content_type_tag(b.content_type)] + itf8_bytes(b.content_id as u32) + itf8_bytes(
        (b.payload.len() as i32) as u32,
    ) + itf8_bytes(b.raw_size as u32) + seq![b.method] + b.payload
}

/// The full wire form of a block: the checksummed region followed by its
/// CRC-32, little-endian.
pub open spec fn block_bytes(b: BlockView) -> Seq<u8> {
    block_body_bytes(b) + le32_bytes(crc32_of(block_body_bytes(b)))
}

/// What reading a block's fields and payload (the checksummed region) at
/// the head of `s` yields: the block and the region's byte length.
pub open spec fn parse_block_fields(s: Seq<u8>) -> Result<(BlockView, int), Error> {
    if s.len() < 1 {
        Err(Error::UnexpectedEof)
    } else {
        match content_type_from_tag(s[0]) {
            None => Err(Error::CorruptBlock),
            Some(ct) => match decode_itf8_spec(s.skip(1)) {
                None => Err(Error::UnexpectedEof),
                Some((cid, k1)) => match decode_itf8_spec(s.skip(1 + k1)) {
                    None => Err(Error::UnexpectedEof),
                    Some((csize, k2)) => if (csize as i32) < 0 {
                        Err(Error::InvalidSize)
                    } else {
                        match decode_itf8_spec(s.skip(1 + k1 + k2)) {
                            None => Err(Error::UnexpectedEof),
                            Some((rsize, k3)) => if (rsize as i32) < 0 {
                                Err(Error::InvalidSize)
                            } else {
                                let body_len = 1 + k1 + k2 + k3 + 1 + (csize as i32);
                                if s.len() < body_len {
                                    Err(Error::UnexpectedEof)
                                } else {
                                    Ok(
                                        (
                                            BlockView {
                                                content_type: ct,
                                                content_id: cid as i32,
                                                raw_size: rsize as i32,
                                                method: s[1 + k1 + k2 + k3],
                                                payload: s.subrange(1 + k1 + k2 + k3 + 1, body_len),
                                            },
                                            body_len,
                                        ),
                                    )
                                }
                            },
                        }
                    },
                },
            },
        }
    }
}

/// What reading a block at the head of `s` yields: the block and the
/// bytes consumed, checksum field included. The stored checksum must
/// equal the CRC-32 of the bytes read before it.
pub open spec fn parse_block(s: Seq<u8>) -> Result<(BlockView, int), Error> {
    match parse_block_fields(s) {
        Err(e) => Err(e),
        Ok((b, k)) => if s.len() < k + 4 {
            Err(Error::UnexpectedEof)
        } else {
            let expected = le32_val(s.skip(k));
            let actual = crc32_of(s.take(k));
            if expected != actual {
                Err(Error::ChecksumMismatch { expected, actual })
            } else {
                Ok((b, k + 4))
            }
        },
    }
}

/// Appends the wire form of `b` to `buf`: the checksummed region, then
/// its CRC-32.
pub fn write_block(buf: &mut Vec<u8>, b: &Block)
    requires
        b@.wf(),
    ensures
        final(buf)@ == old(buf)@ + block_bytes(b@),
{
    let start = buf.len();
    buf.push(content_type_tag_of(b.content_type));
    encode_itf8(buf, b.content_id);
    encode_itf8(buf, b.payload.len() as i32);
    encode_itf8(buf, b.raw_size);
    buf.push(b.method);
    let mut i: usize = 0;
    let ghost prefix = buf@;
    while i < b.payload.len()
        invariant
            i <= b.payload@.len(),
            buf@ == prefix + b.payload@.take(i as int),
        decreases b.payload@.len() - i,
    {
        buf.push(b.payload[i]);
        proof {
            assert(prefix + b.payload@.take(i + 1) =~= (prefix + b.payload@.take(i as int)).push(
                b.payload@[i as int],
            ));
        }
        i += 1;
    }
    proof {
        assert(b.payload@.take(b.payload@.len() as int) =~= b.payload@);
        assert(buf@ =~= old(buf)@ + block_body_bytes(b@));
        assert(buf@.subrange(start as int, buf@.len() as int) =~= block_body_bytes(b@));
    }
    let actual = crc32(vstd::slice::slice_subrange(buf.as_slice(), start, buf.len()));
    write_u32_le(buf, actual);
    proof {
        assert(buf@ =~= old(buf)@ + block_bytes(b@));
    }
}

/// Reads a block from `src` at `pos` and validates its checksum. Returns
/// the block and the position of the first byte after its checksum field.
#[verifier::rlimit(100)]
#[verifier::spinoff_prover]
pub fn read_block(src: &[u8], pos: usize) -> (r: Result<(Block, usize), Error>)
    requires
        pos <= src@.len(),
    ensures
        match r {
            Ok((b, n)) => {
                &&& pos < n <= src@.len()
                &&& parse_block(src@.skip(pos as int)) == Ok::<_, Error>((b@, n - pos))
            },
            Err(e) => parse_block(src@.skip(pos as int)) == Err::<(BlockView, int), _>(e),
        },
{
    let ghost s = src@.skip(pos as int);
    if src.len() - pos < 1 {
        return Err(Error::UnexpectedEof);
    }
    let tag = src[pos];
    proof {
        assert(s[0] == src@[pos as int]);
    }
    let content_type = match content_type_of_tag(tag) {
        Some(t) => t,
        None => {
            return Err(Error::CorruptBlock);
        },
    };
    proof {
        assert(s.skip(1) =~= src@.skip(pos + 1));
    }
    let (content_id, p1) = match decode_itf8(src, pos + 1) {
        Ok(v) => v,
        Err(e) => {
            return Err(e);
        },
    };
    proof {
        let cid = decode_itf8_spec(s.skip(1))->Some_0.0;
        crate::cram::num::lemma_i32_cast_id(content_id);
        assert(s.skip(p1 - pos) =~= src@.skip(p1 as int));
    }
    let (csize, p2) = match decode_itf8(src, p1) {
        Ok(v) => v,
        Err(e) => {
            return Err(e);
        },
    };
    proof {
        let cs = decode_itf8_spec(s.skip(p1 - pos))->Some_0.0;
        crate::cram::num::lemma_i32_cast_id(csize);
    }
    if csize < 0 {
        return Err(Error::InvalidSize);
    }
    proof {
        assert(s.skip(p2 - pos) =~= src@.skip(p2 as int));
    }
    let (raw_size, p3) = match decode_itf8(src, p2) {
        Ok(v) => v,
        Err(e) => {
            return Err(e);
        },
    };
    proof {
        let rs = decode_itf8_spec(s.skip(p2 - pos))->Some_0.0;
        crate::cram::num::lemma_i32_cast_id(raw_size);
    }
    if raw_size < 0 {
        return Err(Error::InvalidSize);
    }
    let csize_u = csize as usize;
    if src.len() - p3 < 1 || src.len() - p3 - 1 < csize_u || src.len() - p3 - 1 - csize_u < 4 {
        return Err(Error::UnexpectedEof);
    }
    let method = src[p3];
    proof {
        assert(s[p3 - pos] == src@[p3 as int]);
    }
    let payload = vstd::slice::slice_to_vec(
        vstd::slice::slice_subrange(src, p3 + 1, p3 + 1 + csize_u),
    );
    let ghost body_len = (p3 + 1 + csize_u - pos) as int;
    proof {
        assert(payload@ =~= s.subrange(p3 + 1 - pos, body_len));
        assert(s.take(body_len) =~= src@.subrange(pos as int, pos + body_len));
    }
    let actual = crc32(vstd::slice::slice_subrange(src, pos, p3 + 1 + csize_u));
    let (expected, p4) = match read_u32_le(src, p3 + 1 + csize_u) {
        Ok(v) => v,
        Err(e) => {
            return Err(e);
        },
    };
    proof {
        assert(s.skip(body_len) =~= src@.skip((p3 + 1 + csize_u) as int));
    }
    if expected != actual {
        return Err(Error::ChecksumMismatch { expected, actual });
    }
    let b = Block { content_type, content_id, raw_size, method, payload };
    Ok((b, p4))
}

impl Block {
    /// Decodes the payload by the declared method and demands exactly the
    /// declared raw size out. Anything else is an error: a decode is
    /// never silently truncated or padded.
    pub fn decompress(&self) -> (r: Result<Vec<u8>, Error>)
        ensures
            match r {
                Ok(v) => {
                    &&& self@.raw_size >= 0
                    &&& spec_decompress(self@.method, self@.payload) == Some(v@)
                    &&& v@.len() == self@.raw_size
                },
                Err(Error::UnsupportedCompressionMethod(t)) => {
                    &&& t == self@.method
                    &&& !(self@.method == crate::cram::codecs::METHOD_NONE || self@.method
                        == crate::cram::codecs::METHOD_GZIP)
                },
                Err(Error::InvalidSize) => self@.raw_size < 0,
                Err(Error::CorruptBlock) => {
                    &&& (self@.method == crate::cram::codecs::METHOD_NONE || self@.method
                        == crate::cram::codecs::METHOD_GZIP)
                    &&& self@.raw_size >= 0
                    &&& match spec_decompress(self@.method, self@.payload) {
                        None => true,
                        Some(v) => v.len() != self@.raw_size,
                    }
                },
                Err(_) => false,
            },
    {
        if self.raw_size < 0 {
            return Err(Error::InvalidSize);
        }
        decompress_data(self.method, self.payload.as_slice(), self.raw_size as usize)
    }
}

/// Round-trip law for a block's checksummed region.
#[verifier::rlimit(100)]
#[verifier::spinoff_prover]
pub proof fn lemma_block_fields_round_trip(b: BlockView, rest: Seq<u8>)
    requires
        b.wf(),
    ensures
        parse_block_fields(block_body_bytes(b) + rest) == Ok::<_, Error>(
            (b, block_body_bytes(b).len() as int),
        ),
{
    let a0: Seq<u8> = seq![content_type_tag(b.content_type)];
    let a1 = itf8_bytes(b.content_id as u32);
    let a2 = itf8_bytes((b.payload.len() as i32) as u32);
    let a3 = itf8_bytes(b.raw_size as u32);
    let a4: Seq<u8> = seq![b.method];
    let body = block_body_bytes(b);
    let s = body + rest;
    let r1 = a1 + (a2 + (a3 + (a4 + (b.payload + rest))));
    assert(s =~= a0 + r1);
    assert(s[0] == content_type_tag(b.content_type));
    assert(s.skip(1) =~= r1);
    lemma_itf8_round_trip(b.content_id, a2 + (a3 + (a4 + (b.payload + rest))));
    let k1 = a1.len() as int;
    assert(s.skip(1 + k1) =~= a2 + (a3 + (a4 + (b.payload + rest))));
    let csize = b.payload.len() as i32;
    lemma_itf8_round_trip(csize, a3 + (a4 + (b.payload + rest)));
    let k2 = a2.len() as int;
    assert(s.skip(1 + k1 + k2) =~= a3 + (a4 + (b.payload + rest)));
    lemma_itf8_round_trip(b.raw_size, a4 + (b.payload + rest));
    let k3 = a3.len() as int;
    let x_cid = b.content_id;
    crate::cram::num::lemma_i32_cast_id(x_cid);
    let x_csize = csize;
    crate::cram::num::lemma_i32_cast_id(x_csize);
    let x_rsize = b.raw_size;
    crate::cram::num::lemma_i32_cast_id(x_rsize);
    let body_len = 1 + k1 + k2 + k3 + 1 + csize as int;
    assert(body.len() == body_len);
    assert(s[1 + k1 + k2 + k3] == b.method);
    assert(s.subrange(1 + k1 + k2 + k3 + 1, body_len) =~= b.payload);
    assert(parse_block_fields(s) == Ok::<_, Error>((b, body_len)));
}

/// Round-trip law for a block: its wire form, whatever follows it in the
/// stream, reads back as the block itself, checksum accepted.
pub proof fn lemma_block_round_trip(b: BlockView, rest: Seq<u8>)
    requires
        b.wf(),
    ensures
        parse_block(block_bytes(b) + rest) == Ok::<_, Error>((b, block_bytes(b).len() as int)),
{
    let body = block_body_bytes(b);
    let cksum = le32_bytes(crc32_of(body));
    let s = block_bytes(b) + rest;
    assert(s =~= body + (cksum + rest));
    lemma_block_fields_round_trip(b, cksum + rest);
    let k = body.len() as int;
    assert(s.skip(k) =~= cksum + rest);
    assert(s.take(k) =~= body);
    lemma_le32_round_trip(crc32_of(body), rest);
}

} // verus!
