//! The top-level framing unit's header: a checksummed record of the
//! container's byte length, alignment span, counters, and the landmark
//! offsets that mark where each slice begins.
//!
//! The header's fields are covered by a trailing CRC-32; a stored checksum
//! that differs from the one recomputed over the bytes read is reported as
//! [`Error::ChecksumMismatch`], never ignored.

use vstd::prelude::*;

use crate::cram::block::{parse_block, read_block, write_block, Block, BlockView, ContentType, block_bytes, lemma_block_round_trip};
use crate::cram::crc::{crc32, crc32_of};
use crate::cram::error::Error;
use crate::cram::slice::{
    lemma_slice_round_trip, parse_slice, read_slice, slice_bytes, write_slice, Slice, SliceView,
};
use crate::cram::num::{
    decode_itf8, decode_itf8_spec, decode_ltf8, decode_ltf8_spec, encode_itf8, encode_ltf8,
    itf8_bytes, le32_bytes, le32_val, lemma_itf8_round_trip, lemma_le32_round_trip,
    lemma_ltf8_round_trip, ltf8_bytes, read_u32_le, u32_to_i32, write_u32_le,
};

verus! {

/// The header of a container: everything that precedes the container's
/// blocks on the wire, checksum excluded.
pub struct ContainerHeader {
    /// Byte length of everything that follows the header.
    pub length: i32,
    /// The reference sequence the records align to; -1 for unmapped
    /// records, -2 when the container spans multiple references.
    pub reference_sequence_id: i32,
    /// 1-based alignment start position.
    pub alignment_start: i32,
    /// Number of reference bases the container covers.
    pub alignment_span: i32,
    /// Number of records in the container.
    pub record_count: i32,
    /// Global record counter at the container's first record.
    pub record_counter: i64,
    /// Number of read bases in the container.
    pub base_count: i64,
    /// Number of blocks that follow the header.
    pub block_count: i32,
    /// Byte offset of each slice, relative to the first byte after the
    /// header. Advisory: a sequential reader goes by the block framing.
    pub landmarks: Vec<i32>,
}

/// The mathematical value of a container header.
pub ghost struct ContainerHeaderView {
    pub length: i32,
    pub reference_sequence_id: i32,
    pub alignment_start: i32,
    pub alignment_span: i32,
    pub record_count: i32,
    pub record_counter: i64,
    pub base_count: i64,
    pub block_count: i32,
    pub landmarks: Seq<i32>,
}

impl View for ContainerHeader {
    type V = ContainerHeaderView;

    open spec fn view(&self) -> ContainerHeaderView {
        ContainerHeaderView {
            length: self.length,
            reference_sequence_id: self.reference_sequence_id,
            alignment_start: self.alignment_start,
            alignment_span: self.alignment_span,
            record_count: self.record_count,
            record_counter: self.record_counter,
            base_count: self.base_count,
            block_count: self.block_count,
            landmarks: self.landmarks@,
        }
    }
}

impl ContainerHeaderView {
    /// What every header that can stand on the wire satisfies: the size
    /// and count fields are non-negative, and the landmark list's length
    /// is itself representable as one of its integers.
    pub open spec fn wf(self) -> bool {
        &&& self.length >= 0
        &&& self.block_count >= 0
        &&& self.landmarks.len() <= 0x7fffffff
    }
}

/// The concatenated encodings of a list of 32-bit values.
pub open spec fn itf8_array_bytes(ls: Seq<i32>) -> Seq<u8>
    decreases ls.len(),
{
    if ls.len() == 0 {
        seq![]
    } else {
        itf8_bytes(ls[0] as u32) + itf8_array_bytes(ls.skip(1))
    }
}

/// The bytes of a header's scalar fields: the byte length as a 32-bit
/// little-endian value, then the alignment and count fields in the
/// variable-length forms.
pub open spec fn fixed_bytes(h: ContainerHeaderView) -> Seq<u8> {
    le32_bytes(h.length as u32) + itf8_bytes(h.reference_sequence_id as u32) + itf8_bytes(
        h.alignment_start as u32,
    ) + itf8_bytes(h.alignment_span as u32) + itf8_bytes(h.record_count as u32) + ltf8_bytes(
        h.record_counter as u64,
    ) + ltf8_bytes(h.base_count as u64) + itf8_bytes(h.block_count as u32)
}

/// The bytes of a header's fields, checksum excluded: the scalar fields,
/// then the landmark list prefixed by its count.
pub open spec fn header_field_bytes(h: ContainerHeaderView) -> Seq<u8> {
    fixed_bytes(h) + itf8_bytes((h.landmarks.len() as i32) as u32) + itf8_array_bytes(h.landmarks)
}

/// The full wire form of a header: its fields followed by their CRC-32,
/// little-endian.
pub open spec fn header_bytes(h: ContainerHeaderView) -> Seq<u8> {
    header_field_bytes(h) + le32_bytes(crc32_of(header_field_bytes(h)))
}

/// What reading a header, checksum included, at the head of `s` yields:
/// the header and the bytes consumed, checksum field included. The
/// stored checksum must equal the CRC-32 of the field bytes read.
pub open spec fn parse_header_checked(s: Seq<u8>) -> Result<(ContainerHeaderView, int), Error> {
    match parse_header(s) {
        Err(e) => Err(e),
        Ok((h, k)) => if s.len() < k + 4 {
            Err(Error::UnexpectedEof)
        } else {
            let expected = le32_val(s.skip(k));
            let actual = crc32_of(s.take(k));
            if expected != actual {
                Err(Error::ChecksumMismatch { expected, actual })
            } else {
                Ok((h, k + 4))
            }
        },
    }
}

/// What reading `n` 32-bit values at the head of `s` yields: the values
/// and the bytes consumed.
pub open spec fn parse_itf8_array(s: Seq<u8>, n: nat) -> Result<(Seq<i32>, int), Error>
    decreases n,
{
    if n == 0 {
        Ok((seq![], 0))
    } else {
        match decode_itf8_spec(s) {
            None => Err(Error::UnexpectedEof),
            Some((u, k)) => match parse_itf8_array(s.skip(k), (n - 1) as nat) {
                Err(e) => Err(e),
                Ok((ls, m)) => Ok((seq![(u as i32)] + ls, k + m)),
            },
        }
    }
}

/// What reading a count-prefixed list of 32-bit values at the head of
/// `s` yields. A negative count cannot be used as a length.
pub open spec fn parse_itf8_array_counted(s: Seq<u8>) -> Result<(Seq<i32>, int), Error> {
    match decode_itf8_spec(s) {
        None => Err(Error::UnexpectedEof),
        Some((c, k)) => if (c as i32) < 0 {
            Err(Error::InvalidSize)
        } else {
            match parse_itf8_array(s.skip(k), ((c as i32) as nat)) {
                Err(e) => Err(e),
                Ok((ls, m)) => Ok((ls, k + m)),
            }
        },
    }
}

/// What reading a header's scalar fields (byte length through block
/// count) at the head of `s` yields: a header whose landmark list is
/// still empty, and the bytes consumed.
pub open spec fn parse_fixed(s: Seq<u8>) -> Result<(ContainerHeaderView, int), Error> {
    if s.len() < 4 {
        Err(Error::UnexpectedEof)
    } else {
        let length = le32_val(s) as i32;
        if length < 0 {
            Err(Error::InvalidSize)
        } else {
            match decode_itf8_spec(s.skip(4)) {
                None => Err(Error::UnexpectedEof),
                Some((rid, k1)) => match decode_itf8_spec(s.skip(4 + k1)) {
                    None => Err(Error::UnexpectedEof),
                    Some((astart, k2)) => match decode_itf8_spec(s.skip(4 + k1 + k2)) {
                        None => Err(Error::UnexpectedEof),
                        Some((aspan, k3)) => match decode_itf8_spec(s.skip(4 + k1 + k2 + k3)) {
                            None => Err(Error::UnexpectedEof),
                            Some((nrec, k4)) => match decode_ltf8_spec(
                                s.skip(4 + k1 + k2 + k3 + k4),
                            ) {
                                None => Err(Error::UnexpectedEof),
                                Some((rcounter, k5)) => match decode_ltf8_spec(
                                    s.skip(4 + k1 + k2 + k3 + k4 + k5),
                                ) {
                                    None => Err(Error::UnexpectedEof),
                                    Some((nbase, k6)) => match decode_itf8_spec(
                                        s.skip(4 + k1 + k2 + k3 + k4 + k5 + k6),
                                    ) {
                                        None => Err(Error::UnexpectedEof),
                                        Some((nblk, k7)) => if (nblk as i32) < 0 {
                                            Err(Error::InvalidSize)
                                        } else {
                                            Ok(
                                                (
                                                    ContainerHeaderView {
                                                        length,
                                                        reference_sequence_id: rid as i32,
                                                        alignment_start: astart as i32,
                                                        alignment_span: aspan as i32,
                                                        record_count: nrec as i32,
                                                        record_counter: rcounter as i64,
                                                        base_count: nbase as i64,
                                                        block_count: nblk as i32,
                                                        landmarks: seq![],
                                                    },
                                                    4 + k1 + k2 + k3 + k4 + k5 + k6 + k7,
                                                ),
                                            )
                                        },
                                    },
                                },
                            },
                        },
                    },
                },
            }
        }
    }
}

/// What reading a header's fields (checksum excluded) at the head of `s`
/// yields: the header and the bytes consumed.
pub open spec fn parse_header(s: Seq<u8>) -> Result<(ContainerHeaderView, int), Error> {
    match parse_fixed(s) {
        Err(e) => Err(e),
        Ok((h0, k)) => match parse_itf8_array_counted(s.skip(k)) {
            Err(e) => Err(e),
            Ok((ls, m)) => Ok(
                (
                    ContainerHeaderView {
                        length: h0.length,
                        reference_sequence_id: h0.reference_sequence_id,
                        alignment_start: h0.alignment_start,
                        alignment_span: h0.alignment_span,
                        record_count: h0.record_count,
                        record_counter: h0.record_counter,
                        base_count: h0.base_count,
                        block_count: h0.block_count,
                        landmarks: ls,
                    },
                    k + m,
                ),
            ),
        },
    }
}

/// Appending one more value extends the concatenated encodings by its
/// encoding.
pub proof fn lemma_itf8_array_bytes_snoc(ls: Seq<i32>, i: int)
    requires
        0 <= i < ls.len(),
    ensures
        itf8_array_bytes(ls.take(i + 1)) == itf8_array_bytes(ls.take(i)) + itf8_bytes(ls[i] as u32),
    decreases i,
{
    if i == 0 {
        assert(ls.take(1) =~= seq![ls[0]]);
        assert(ls.take(0) =~= Seq::<i32>::empty());
        assert(seq![ls[0]].skip(1) =~= Seq::<i32>::empty());
        assert(itf8_array_bytes(Seq::<i32>::empty()) == Seq::<u8>::empty());
        assert(itf8_array_bytes(ls.take(1)) == itf8_bytes(ls[0] as u32) + itf8_array_bytes(
            Seq::<i32>::empty(),
        ));
        assert(itf8_array_bytes(ls.take(1)) =~= itf8_bytes(ls[0] as u32));
        assert(itf8_array_bytes(ls.take(i + 1)) == itf8_array_bytes(ls.take(i)) + itf8_bytes(
            ls[i] as u32,
        ));
    } else {
        let t = ls.skip(1);
        lemma_itf8_array_bytes_snoc(t, i - 1);
        assert(ls.take(i + 1).skip(1) =~= t.take(i));
        assert(ls.take(i).skip(1) =~= t.take(i - 1));
        assert(ls.take(i + 1)[0] == ls[0]);
        assert(ls.take(i)[0] == ls[0]);
        assert(itf8_array_bytes(ls.take(i + 1)) == itf8_bytes(ls[0] as u32) + itf8_array_bytes(
            t.take(i),
        ));
        assert(itf8_array_bytes(ls.take(i)) == itf8_bytes(ls[0] as u32) + itf8_array_bytes(
            t.take(i - 1),
        ));
        assert(itf8_array_bytes(ls.take(i + 1)) =~= itf8_array_bytes(ls.take(i)) + itf8_bytes(
            ls[i] as u32,
        ));
    }
}

/// Appends the wire form of `h` to `buf`: its fields, then their CRC-32.
pub fn write_header(buf: &mut Vec<u8>, h: &ContainerHeader)
    requires
        h@.wf(),
    ensures
        final(buf)@ == old(buf)@ + header_bytes(h@),
{
    let start = buf.len();
    write_u32_le(buf, #[verifier::truncate] (h.length as u32));
    encode_itf8(buf, h.reference_sequence_id);
    encode_itf8(buf, h.alignment_start);
    encode_itf8(buf, h.alignment_span);
    encode_itf8(buf, h.record_count);
    encode_ltf8(buf, h.record_counter);
    encode_ltf8(buf, h.base_count);
    encode_itf8(buf, h.block_count);
    encode_itf8(buf, h.landmarks.len() as i32);
    let ghost prefix = buf@;
    let mut i: usize = 0;
    while i < h.landmarks.len()
        invariant
            i <= h.landmarks@.len(),
            buf@ == prefix + itf8_array_bytes(h@.landmarks.take(i as int)),
        decreases h.landmarks@.len() - i,
    {
        proof {
            lemma_itf8_array_bytes_snoc(h@.landmarks, i as int);
        }
        encode_itf8(buf, h.landmarks[i]);
        i += 1;
    }
    proof {
        assert(h@.landmarks.take(h.landmarks@.len() as int) =~= h@.landmarks);
        assert(buf@ =~= old(buf)@ + header_field_bytes(h@));
        assert(buf@.subrange(start as int, buf@.len() as int) =~= header_field_bytes(h@));
    }
    let actual = crc32(vstd::slice::slice_subrange(buf.as_slice(), start, buf.len()));
    write_u32_le(buf, actual);
    proof {
        assert(buf@ =~= old(buf)@ + header_bytes(h@));
    }
}

/// Reads the count-prefixed landmark list from `src` at `pos`. Returns
/// the offsets and the position of the first byte after them.
pub fn read_landmarks(src: &[u8], pos: usize) -> (r: Result<(Vec<i32>, usize), Error>)
    requires
        pos <= src@.len(),
    ensures
        match r {
            Ok((ls, n)) => {
                &&& pos <= n <= src@.len()
                &&& parse_itf8_array_counted(src@.skip(pos as int)) == Ok::<_, Error>(
                    (ls@, n - pos),
                )
            },
            Err(e) => {
                &&& (e == Error::UnexpectedEof || e == Error::InvalidSize)
                &&& parse_itf8_array_counted(src@.skip(pos as int)) == Err::<(Seq<i32>, int), _>(e)
            },
        },
{
    let ghost s = src@.skip(pos as int);
    let (count, mut p) = match decode_itf8(src, pos) {
        Ok(v) => v,
        Err(e) => {
            return Err(e);
        },
    };
    if count < 0 {
        proof {
            let (c, k) = decode_itf8_spec(s)->Some_0;
            crate::cram::num::lemma_i32_cast_id(count);
        }
        return Err(Error::InvalidSize);
    }
    let ghost c = decode_itf8_spec(s)->Some_0.0;
    let ghost k0 = decode_itf8_spec(s)->Some_0.1;
    proof {
        crate::cram::num::lemma_i32_cast_id(count);
    }
    let n = count as usize;
    let mut ls: Vec<i32> = Vec::new();
    let mut i: usize = 0;
    proof {
        assert(s.skip(k0) =~= src@.skip(p as int));
        let cont = parse_itf8_array(src@.skip(p as int), n as nat);
        if cont is Ok {
            let (tail, m) = cont->Ok_0;
            assert(ls@ + tail =~= tail);
            assert(parse_itf8_array_counted(s) == Ok::<_, Error>((ls@ + tail, p - pos + m)));
        }
    }
    while i < n
        invariant
            pos <= p <= src@.len(),
            i <= n,
            n <= 0x7fffffff,
            ls@.len() == i,
            s == src@.skip(pos as int),
            ({
                let cont = parse_itf8_array(src@.skip(p as int), (n - i) as nat);
                match cont {
                    Err(e) => parse_itf8_array_counted(s) == Err::<(Seq<i32>, int), Error>(e),
                    Ok((tail, m)) => parse_itf8_array_counted(s) == Ok::<_, Error>(
                        (ls@ + tail, p - pos + m),
                    ),
                }
            }),
        decreases n - i,
    {
        let ghost ls0 = ls@;
        let (v, p2) = match decode_itf8(src, p) {
            Ok(v) => v,
            Err(e) => {
                return Err(e);
            },
        };
        proof {
            let (u, k) = decode_itf8_spec(src@.skip(p as int))->Some_0;
            crate::cram::num::lemma_i32_cast_id(v);
            assert(src@.skip(p as int).skip(k) =~= src@.skip(p2 as int));
        }
        ls.push(v);
        proof {
            let (u, k) = decode_itf8_spec(src@.skip(p as int))->Some_0;
            let cont = parse_itf8_array(src@.skip(p as int), (n - i) as nat);
            let cont2 = parse_itf8_array(src@.skip(p2 as int), (n - i - 1) as nat);
            assert(cont2 == parse_itf8_array(src@.skip(p as int).skip(k), (n - i - 1) as nat));
            match cont2 {
                Err(e) => {
                    assert(cont == Err::<(Seq<i32>, int), Error>(e));
                },
                Ok((tail2, m2)) => {
                    assert(seq![(u as i32)] =~= seq![v]);
                    assert(cont == Ok::<_, Error>((seq![v] + tail2, k + m2)));
                    assert(ls0 + (seq![v] + tail2) =~= ls@ + tail2);
                    assert(parse_itf8_array_counted(s) == Ok::<_, Error>(
                        (ls@ + tail2, p2 - pos + m2),
                    ));
                },
            }
        }
        p = p2;
        i += 1;
    }
    proof {
        assert(parse_itf8_array(src@.skip(p as int), 0) == Ok::<_, Error>(
            (Seq::<i32>::empty(), 0int),
        ));
        assert(ls@ + Seq::<i32>::empty() =~= ls@);
    }
    Ok((ls, p))
}

/// Reads the scalar header fields from `src` at `pos`, into a header
/// whose landmark list is still empty.
#[verifier::rlimit(100)]
#[verifier::spinoff_prover]
fn read_fixed(src: &[u8], pos: usize) -> (r: Result<(ContainerHeader, usize), Error>)
    requires
        pos <= src@.len(),
    ensures
        match r {
            Ok((h, n)) => {
                &&& pos <= n <= src@.len()
                &&& parse_fixed(src@.skip(pos as int)) == Ok::<_, Error>((h@, n - pos))
            },
            Err(e) => {
                &&& (e == Error::UnexpectedEof || e == Error::InvalidSize)
                &&& parse_fixed(src@.skip(pos as int)) == Err::<(ContainerHeaderView, int), _>(e)
            },
        },
{
    let ghost s = src@.skip(pos as int);
    let (lu, p1) = match read_u32_le(src, pos) {
        Ok(v) => v,
        Err(e) => {
            return Err(e);
        },
    };
    let length = u32_to_i32(lu);
    proof {
        crate::cram::num::lemma_i32_cast_id(length);
    }
    if length < 0 {
        return Err(Error::InvalidSize);
    }
    proof {
        assert(s.skip(4) =~= src@.skip(p1 as int));
    }
    let (reference_sequence_id, p2) = match decode_itf8(src, p1) {
        Ok(v) => v,
        Err(e) => {
            return Err(e);
        },
    };
    proof {
        assert(s.skip(p2 - pos) =~= src@.skip(p2 as int));
    }
    let (alignment_start, p3) = match decode_itf8(src, p2) {
        Ok(v) => v,
        Err(e) => {
            return Err(e);
        },
    };
    proof {
        assert(s.skip(p3 - pos) =~= src@.skip(p3 as int));
    }
    let (alignment_span, p4) = match decode_itf8(src, p3) {
        Ok(v) => v,
        Err(e) => {
            return Err(e);
        },
    };
    proof {
        assert(s.skip(p4 - pos) =~= src@.skip(p4 as int));
    }
    let (record_count, p5) = match decode_itf8(src, p4) {
        Ok(v) => v,
        Err(e) => {
            return Err(e);
        },
    };
    proof {
        assert(s.skip(p5 - pos) =~= src@.skip(p5 as int));
    }
    let (record_counter, p6) = match decode_ltf8(src, p5) {
        Ok(v) => v,
        Err(e) => {
            return Err(e);
        },
    };
    proof {
        assert(s.skip(p6 - pos) =~= src@.skip(p6 as int));
    }
    let (base_count, p7) = match decode_ltf8(src, p6) {
        Ok(v) => v,
        Err(e) => {
            return Err(e);
        },
    };
    proof {
        assert(s.skip(p7 - pos) =~= src@.skip(p7 as int));
    }
    let (block_count, p8) = match decode_itf8(src, p7) {
        Ok(v) => v,
        Err(e) => {
            return Err(e);
        },
    };
    proof {
        let nblk = decode_itf8_spec(src@.skip(p7 as int))->Some_0.0;
        crate::cram::num::lemma_i32_cast_id(block_count);
    }
    if block_count < 0 {
        return Err(Error::InvalidSize);
    }
    let h = ContainerHeader {
        length,
        reference_sequence_id,
        alignment_start,
        alignment_span,
        record_count,
        record_counter,
        base_count,
        block_count,
        landmarks: Vec::new(),
    };
    proof {
        let rid = decode_itf8_spec(s.skip(4))->Some_0.0;
        crate::cram::num::lemma_i32_cast_id(reference_sequence_id);
        let astart = decode_itf8_spec(s.skip(p2 - pos))->Some_0.0;
        crate::cram::num::lemma_i32_cast_id(alignment_start);
        let aspan = decode_itf8_spec(s.skip(p3 - pos))->Some_0.0;
        crate::cram::num::lemma_i32_cast_id(alignment_span);
        let nrec = decode_itf8_spec(s.skip(p4 - pos))->Some_0.0;
        crate::cram::num::lemma_i32_cast_id(record_count);
        let rcounter = decode_ltf8_spec(s.skip(p5 - pos))->Some_0.0;
        crate::cram::num::lemma_i64_cast_id(record_counter);
        let nbase = decode_ltf8_spec(s.skip(p6 - pos))->Some_0.0;
        crate::cram::num::lemma_i64_cast_id(base_count);
        assert(h@.landmarks =~= Seq::<i32>::empty());
        assert(parse_fixed(s) == Ok::<_, Error>((h@, (p8 - pos) as int)));
    }
    Ok((h, p8))
}

/// Reads a container header from `src` at `pos` and validates its
/// checksum. Returns the header and the position of the first byte after
/// the checksum field.
pub fn read_header(src: &[u8], pos: usize) -> (r: Result<(ContainerHeader, usize), Error>)
    requires
        pos <= src@.len(),
    ensures
        match r {
            Ok((h, n)) => {
                &&& pos < n <= src@.len()
                &&& parse_header_checked(src@.skip(pos as int)) == Ok::<_, Error>((h@, n - pos))
            },
            Err(e) => parse_header_checked(src@.skip(pos as int)) == Err::<
                (ContainerHeaderView, int),
                _,
            >(e),
        },
{
    let ghost s = src@.skip(pos as int);
    let (mut h, p8) = match read_fixed(src, pos) {
        Ok(v) => v,
        Err(e) => {
            return Err(e);
        },
    };
    proof {
        assert(s.skip(p8 - pos) =~= src@.skip(p8 as int));
    }
    let (landmarks, p9) = match read_landmarks(src, p8) {
        Ok(v) => v,
        Err(e) => {
            return Err(e);
        },
    };
    h.landmarks = landmarks;
    proof {
        assert(parse_header(s) == Ok::<_, Error>((h@, (p9 - pos) as int)));
    }
    let actual = crc32(vstd::slice::slice_subrange(src, pos, p9));
    let (expected, p10) = match read_u32_le(src, p9) {
        Ok(v) => v,
        Err(_) => {
            return Err(Error::UnexpectedEof);
        },
    };
    proof {
        assert(s.skip(p9 - pos) =~= src@.skip(p9 as int));
        assert(s.take(p9 - pos) =~= src@.subrange(pos as int, p9 as int));
    }
    if expected != actual {
        return Err(Error::ChecksumMismatch { expected, actual });
    }
    Ok((h, p10))
}

/// Round-trip law for a value list of known length: the concatenated
/// encodings decode back to the values themselves.
pub proof fn lemma_itf8_array_round_trip(ls: Seq<i32>, rest: Seq<u8>)
    ensures
        parse_itf8_array(itf8_array_bytes(ls) + rest, ls.len()) == Ok::<_, Error>(
            (ls, itf8_array_bytes(ls).len() as int),
        ),
    decreases ls.len(),
{
    if ls.len() == 0 {
        assert(itf8_array_bytes(ls) + rest =~= rest);
        assert(ls =~= Seq::<i32>::empty());
        assert(itf8_array_bytes(ls).len() == 0);
    } else {
        let v = ls[0];
        let enc0 = itf8_bytes(v as u32);
        let tail = itf8_array_bytes(ls.skip(1)) + rest;
        lemma_itf8_round_trip(v, tail);
        assert(itf8_array_bytes(ls) + rest =~= enc0 + tail);
        assert((enc0 + tail).skip(enc0.len() as int) =~= tail);
        lemma_itf8_array_round_trip(ls.skip(1), rest);
        crate::cram::num::lemma_i32_cast_id(v);
        assert(seq![v] + ls.skip(1) =~= ls);
        assert(parse_itf8_array(itf8_array_bytes(ls) + rest, ls.len()) == Ok::<_, Error>(
            (ls, itf8_array_bytes(ls).len() as int),
        ));
    }
}

/// Round-trip law for a count-prefixed value list.
pub proof fn lemma_itf8_array_counted_round_trip(ls: Seq<i32>, rest: Seq<u8>)
    requires
        ls.len() <= 0x7fffffff,
    ensures
        ({
            let body = itf8_bytes((ls.len() as i32) as u32) + itf8_array_bytes(ls);
            parse_itf8_array_counted(body + rest) == Ok::<_, Error>((ls, body.len() as int))
        }),
{
    let cnt = ls.len() as i32;
    let enc = itf8_bytes(cnt as u32);
    let tail = itf8_array_bytes(ls) + rest;
    lemma_itf8_round_trip(cnt, tail);
    assert((enc + itf8_array_bytes(ls)) + rest =~= enc + tail);
    assert((enc + tail).skip(enc.len() as int) =~= tail);
    crate::cram::num::lemma_i32_cast_id(cnt);
    lemma_itf8_array_round_trip(ls, rest);
}

/// Round-trip law for the scalar header fields.
#[verifier::rlimit(100)]
#[verifier::spinoff_prover]
pub proof fn lemma_fixed_round_trip(h: ContainerHeaderView, rest: Seq<u8>)
    requires
        h.length >= 0,
        h.block_count >= 0,
    ensures
        parse_fixed(fixed_bytes(h) + rest) == Ok::<_, Error>(
            (
                ContainerHeaderView { landmarks: seq![], ..h },
                fixed_bytes(h).len() as int,
            ),
        ),
{
    let a0 = le32_bytes(h.length as u32);
    let a1 = itf8_bytes(h.reference_sequence_id as u32);
    let a2 = itf8_bytes(h.alignment_start as u32);
    let a3 = itf8_bytes(h.alignment_span as u32);
    let a4 = itf8_bytes(h.record_count as u32);
    let a5 = ltf8_bytes(h.record_counter as u64);
    let a6 = ltf8_bytes(h.base_count as u64);
    let a7 = itf8_bytes(h.block_count as u32);
    let r7 = rest;
    let r6 = a7 + r7;
    let r5 = a6 + r6;
    let r4 = a5 + r5;
    let r3 = a4 + r4;
    let r2 = a3 + r3;
    let r1 = a2 + r2;
    let r0 = a1 + r1;
    let s = fixed_bytes(h) + rest;
    assert(s =~= a0 + r0);
    lemma_le32_round_trip(h.length as u32, r0);
    let x_length = h.length;
    crate::cram::num::lemma_i32_cast_id(x_length);
    assert(s.skip(4) =~= r0);
    lemma_itf8_round_trip(h.reference_sequence_id, r1);
    let k1 = a1.len() as int;
    assert(s.skip(4 + k1) =~= r1);
    lemma_itf8_round_trip(h.alignment_start, r2);
    let k2 = a2.len() as int;
    assert(s.skip(4 + k1 + k2) =~= r2);
    lemma_itf8_round_trip(h.alignment_span, r3);
    let k3 = a3.len() as int;
    assert(s.skip(4 + k1 + k2 + k3) =~= r3);
    lemma_itf8_round_trip(h.record_count, r4);
    let k4 = a4.len() as int;
    assert(s.skip(4 + k1 + k2 + k3 + k4) =~= r4);
    lemma_ltf8_round_trip(h.record_counter, r5);
    let k5 = a5.len() as int;
    assert(s.skip(4 + k1 + k2 + k3 + k4 + k5) =~= r5);
    lemma_ltf8_round_trip(h.base_count, r6);
    let k6 = a6.len() as int;
    assert(s.skip(4 + k1 + k2 + k3 + k4 + k5 + k6) =~= r6);
    lemma_itf8_round_trip(h.block_count, r7);
    let k7 = a7.len() as int;
    let x_reference_sequence_id = h.reference_sequence_id;
    crate::cram::num::lemma_i32_cast_id(x_reference_sequence_id);
    let x_alignment_start = h.alignment_start;
    crate::cram::num::lemma_i32_cast_id(x_alignment_start);
    let x_alignment_span = h.alignment_span;
    crate::cram::num::lemma_i32_cast_id(x_alignment_span);
    let x_record_count = h.record_count;
    crate::cram::num::lemma_i32_cast_id(x_record_count);
    let x_record_counter = h.record_counter;
    crate::cram::num::lemma_i64_cast_id(x_record_counter);
    let x_base_count = h.base_count;
    crate::cram::num::lemma_i64_cast_id(x_base_count);
    let x_block_count = h.block_count;
    crate::cram::num::lemma_i32_cast_id(x_block_count);
    assert(fixed_bytes(h).len() == 4 + k1 + k2 + k3 + k4 + k5 + k6 + k7);
}

/// Round-trip law for a whole header's fields: whatever follows them in
/// the stream, they parse back to the header itself.
pub proof fn lemma_header_round_trip(h: ContainerHeaderView, rest: Seq<u8>)
    requires
        h.wf(),
    ensures
        parse_header(header_field_bytes(h) + rest) == Ok::<_, Error>(
            (h, header_field_bytes(h).len() as int),
        ),
{
    let counted = itf8_bytes((h.landmarks.len() as i32) as u32) + itf8_array_bytes(h.landmarks);
    let s = header_field_bytes(h) + rest;
    assert(s =~= fixed_bytes(h) + (counted + rest));
    lemma_fixed_round_trip(h, counted + rest);
    let flen = fixed_bytes(h).len() as int;
    assert(s.skip(flen) =~= counted + rest);
    lemma_itf8_array_counted_round_trip(h.landmarks, rest);
    assert(parse_header(s) == Ok::<_, Error>((h, header_field_bytes(h).len() as int)));
}

/// Round-trip law for a whole header, checksum included.
pub proof fn lemma_header_checked_round_trip(h: ContainerHeaderView, rest: Seq<u8>)
    requires
        h.wf(),
    ensures
        parse_header_checked(header_bytes(h) + rest) == Ok::<_, Error>(
            (h, header_bytes(h).len() as int),
        ),
{
    let fields = header_field_bytes(h);
    let cksum = le32_bytes(crc32_of(fields));
    let s = header_bytes(h) + rest;
    assert(s =~= fields + (cksum + rest));
    lemma_header_round_trip(h, cksum + rest);
    let k = fields.len() as int;
    assert(s.skip(k) =~= cksum + rest);
    assert(s.take(k) =~= fields);
    lemma_le32_round_trip(crc32_of(fields), rest);
}

/// The checksum guards the header: bytes whose stored checksum field
/// differs from the CRC-32 of the field bytes before it are rejected with
/// both values, never accepted.
pub proof fn lemma_checksum_rejects_header(h: ContainerHeaderView, stored: u32, rest: Seq<u8>)
    requires
        h.wf(),
        stored != crc32_of(header_field_bytes(h)),
    ensures
        parse_header_checked(header_field_bytes(h) + le32_bytes(stored) + rest) == Err::<
            (ContainerHeaderView, int),
            _,
        >(
            Error::ChecksumMismatch {
                expected: stored,
                actual: crc32_of(header_field_bytes(h)),
            },
        ),
{
    let fields = header_field_bytes(h);
    let s = fields + le32_bytes(stored) + rest;
    assert(s =~= fields + (le32_bytes(stored) + rest));
    lemma_header_round_trip(h, le32_bytes(stored) + rest);
    let k = fields.len() as int;
    assert(s.skip(k) =~= le32_bytes(stored) + rest);
    assert(s.take(k) =~= fields);
    lemma_le32_round_trip(stored, rest);
}

/// The declared body length that marks the end of the stream: a header
/// carrying it is the format's terminator record, not a container.
pub const EOF_LENGTH: i32 = 15;

/// The top-level framing unit: a checksummed header, the compression
/// header block, and the slices.
pub struct Container {
    /// The checksummed header.
    pub header: ContainerHeader,
    /// The block whose decompressed payload describes the container's
    /// encodings.
    pub compression_header: Block,
    /// The container's slices, in wire order.
    pub slices: Vec<Slice>,
}

/// The mathematical value of a container.
pub ghost struct ContainerView {
    pub header: ContainerHeaderView,
    pub compression_header: BlockView,
    pub slices: Seq<SliceView>,
}

impl View for Container {
    type V = ContainerView;

    open spec fn view(&self) -> ContainerView {
        ContainerView {
            header: self.header@,
            compression_header: self.compression_header@,
            slices: self.slices@.map_values(|s: Slice| s@),
        }
    }
}

/// The concatenated wire forms of a run of slices.
pub open spec fn slices_bytes(ss: Seq<SliceView>) -> Seq<u8>
    decreases ss.len(),
{
    if ss.len() == 0 {
        seq![]
    } else {
        slice_bytes(ss[0]) + slices_bytes(ss.skip(1))
    }
}

/// Appending one more slice extends the concatenated wire forms by its
/// own.
pub proof fn lemma_slices_bytes_snoc(ss: Seq<SliceView>, i: int)
    requires
        0 <= i < ss.len(),
    ensures
        slices_bytes(ss.take(i + 1)) == slices_bytes(ss.take(i)) + slice_bytes(ss[i]),
    decreases i,
{
    if i == 0 {
        assert(ss.take(1) =~= seq![ss[0]]);
        assert(ss.take(0) =~= Seq::<SliceView>::empty());
        assert(seq![ss[0]].skip(1) =~= Seq::<SliceView>::empty());
        assert(slices_bytes(Seq::<SliceView>::empty()) == Seq::<u8>::empty());
        assert(slices_bytes(ss.take(1)) == slice_bytes(ss[0]) + slices_bytes(
            Seq::<SliceView>::empty(),
        ));
        assert(slices_bytes(ss.take(i + 1)) =~= slices_bytes(ss.take(i)) + slice_bytes(ss[i]));
    } else {
        let t = ss.skip(1);
        lemma_slices_bytes_snoc(t, i - 1);
        assert(ss.take(i + 1).skip(1) =~= t.take(i));
        assert(ss.take(i).skip(1) =~= t.take(i - 1));
        assert(ss.take(i + 1)[0] == ss[0]);
        assert(ss.take(i)[0] == ss[0]);
        assert(slices_bytes(ss.take(i + 1)) =~= slices_bytes(ss.take(i)) + slice_bytes(ss[i]));
    }
}

/// How many blocks a run of slices carries, each slice's header block
/// included.
pub open spec fn total_block_count(ss: Seq<SliceView>) -> int
    decreases ss.len(),
{
    if ss.len() == 0 {
        0
    } else {
        1 + ss[0].blocks.len() + total_block_count(ss.skip(1))
    }
}

/// Appending one more slice grows the block count by the slice's own.
pub proof fn lemma_total_block_count_snoc(ss: Seq<SliceView>, i: int)
    requires
        0 <= i < ss.len(),
    ensures
        total_block_count(ss.take(i + 1)) == total_block_count(ss.take(i)) + 1
            + ss[i].blocks.len(),
    decreases i,
{
    if i == 0 {
        assert(ss.take(1) =~= seq![ss[0]]);
        assert(ss.take(0) =~= Seq::<SliceView>::empty());
        assert(seq![ss[0]].skip(1) =~= Seq::<SliceView>::empty());
    } else {
        let t = ss.skip(1);
        lemma_total_block_count_snoc(t, i - 1);
        assert(ss.take(i + 1).skip(1) =~= t.take(i));
        assert(ss.take(i).skip(1) =~= t.take(i - 1));
        assert(ss.take(i + 1)[0] == ss[0]);
        assert(ss.take(i)[0] == ss[0]);
    }
}

impl ContainerView {
    /// What every container that can stand on the wire satisfies: a
    /// well-formed header whose declared body length is the body's actual
    /// byte length and is not the terminator value, a well-formed
    /// compression header block of the right content type, and
    /// well-formed slices.
    pub open spec fn wf(self) -> bool {
        &&& self.header.wf()
        &&& self.header.length != EOF_LENGTH
        &&& self.header.length == block_bytes(self.compression_header).len() + slices_bytes(
            self.slices,
        ).len()
        &&& self.compression_header.wf()
        &&& self.compression_header.content_type == ContentType::CompressionHeader
        &&& forall|i: int| 0 <= i < self.slices.len() ==> (#[trigger] self.slices[i]).wf()
    }
}

/// The wire form of a container: its header, its compression header
/// block, then its slices.
pub open spec fn container_bytes(c: ContainerView) -> Seq<u8> {
    header_bytes(c.header) + block_bytes(c.compression_header) + slices_bytes(c.slices)
}

/// What reading slices from the head of `s` until `budget` bytes are
/// consumed yields. A run of slices that does not come out at the budget
/// exactly does not stand.
pub open spec fn parse_slices(s: Seq<u8>, budget: int) -> Result<(Seq<SliceView>, int), Error>
    decreases budget,
{
    if budget <= 0 {
        if budget == 0 {
            Ok((seq![], 0))
        } else {
            Err(Error::CorruptBlock)
        }
    } else {
        match parse_slice(s) {
            Err(e) => Err(e),
            Ok((sl, k)) => if k < 1 || k > budget {
                Err(Error::CorruptBlock)
            } else {
                match parse_slices(s.skip(k), budget - k) {
                    Err(e) => Err(e),
                    Ok((ss, m)) => Ok((seq![sl] + ss, k + m)),
                }
            },
        }
    }
}

/// What reading a container at the head of `s` yields: nothing but the
/// header's bytes when the header declares the terminator length, the
/// container and the bytes consumed otherwise.
pub open spec fn parse_container(s: Seq<u8>) -> Result<(Option<ContainerView>, int), Error> {
    match parse_header_checked(s) {
        Err(e) => Err(e),
        Ok((h, hk)) => if h.length == EOF_LENGTH {
            Ok((None, hk))
        } else {
            match parse_block(s.skip(hk)) {
                Err(e) => Err(e),
                Ok((cb, k0)) => if cb.content_type != ContentType::CompressionHeader {
                    Err(Error::CorruptBlock)
                } else if k0 > h.length {
                    Err(Error::CorruptBlock)
                } else {
                    match parse_slices(s.skip(hk + k0), h.length - k0) {
                        Err(e) => Err(e),
                        Ok((ss, k1)) => Ok(
                            (
                                Some(
                                    ContainerView {
                                        header: h,
                                        compression_header: cb,
                                        slices: ss,
                                    },
                                ),
                                hk + k0 + k1,
                            ),
                        ),
                    }
                },
            }
        },
    }
}

/// Reads a container from `src` at `pos`. Returns `None` in place of a
/// container when the header declares the terminator length — the
/// graceful end of the stream — without attempting to read a compression
/// header; otherwise the container and the position of the first byte
/// after it.
#[verifier::rlimit(100)]
#[verifier::spinoff_prover]
pub fn read_container(src: &[u8], pos: usize) -> (r: Result<(Option<Container>, usize), Error>)
    requires
        pos <= src@.len(),
    ensures
        match r {
            Ok((oc, n)) => {
                &&& pos < n <= src@.len()
                &&& match oc {
                    Some(c) => parse_container(src@.skip(pos as int)) == Ok::<_, Error>(
                        (Some(c@), n - pos),
                    ),
                    None => parse_container(src@.skip(pos as int)) == Ok::<
                        (Option<ContainerView>, int),
                        Error,
                    >((None, n - pos)),
                }
            },
            Err(e) => parse_container(src@.skip(pos as int)) == Err::<
                (Option<ContainerView>, int),
                _,
            >(e),
        },
{
    let ghost s = src@.skip(pos as int);
    let (header, p0) = match read_header(src, pos) {
        Ok(v) => v,
        Err(e) => {
            return Err(e);
        },
    };
    if header.length == EOF_LENGTH {
        return Ok((None, p0));
    }
    proof {
        assert(s.skip(p0 - pos) =~= src@.skip(p0 as int));
    }
    let (compression_header, p1) = match read_block(src, p0) {
        Ok(v) => v,
        Err(e) => {
            return Err(e);
        },
    };
    if !matches!(compression_header.content_type, ContentType::CompressionHeader) {
        return Err(Error::CorruptBlock);
    }
    let length = header.length as usize;
    if p1 - p0 > length {
        return Err(Error::CorruptBlock);
    }
    let mut budget = length - (p1 - p0);
    let mut p = p1;
    let mut slices: Vec<Slice> = Vec::new();
    proof {
        assert(s.skip(p1 - pos) =~= src@.skip(p1 as int));
        let cont = parse_slices(src@.skip(p as int), budget as int);
        if cont is Ok {
            let (tail, m) = cont->Ok_0;
            assert(slices@.map_values(|x: Slice| x@) + tail =~= tail);
        }
    }
    while budget > 0
        invariant
            pos < p <= src@.len(),
            s == src@.skip(pos as int),
            ({
                let cont = parse_slices(src@.skip(p as int), budget as int);
                match cont {
                    Err(e) => parse_container(s) == Err::<(Option<ContainerView>, int), Error>(e),
                    Ok((tail, m)) => parse_container(s) == Ok::<_, Error>(
                        (
                            Some(
                                ContainerView {
                                    header: header@,
                                    compression_header: compression_header@,
                                    slices: slices@.map_values(|x: Slice| x@) + tail,
                                },
                            ),
                            p - pos + m,
                        ),
                    ),
                }
            }),
        decreases budget,
    {
        let ghost ss0 = slices@.map_values(|x: Slice| x@);
        let (sl, p2) = match read_slice(src, p) {
            Ok(v) => v,
            Err(e) => {
                return Err(e);
            },
        };
        let k = p2 - p;
        if k > budget {
            return Err(Error::CorruptBlock);
        }
        proof {
            let (sv, kk) = parse_slice(src@.skip(p as int))->Ok_0;
            assert(src@.skip(p as int).skip(kk) =~= src@.skip(p2 as int));
        }
        slices.push(sl);
        proof {
            let (sv, kk) = parse_slice(src@.skip(p as int))->Ok_0;
            let cont = parse_slices(src@.skip(p as int), budget as int);
            let cont2 = parse_slices(src@.skip(p2 as int), budget - k);
            assert(cont2 == parse_slices(src@.skip(p as int).skip(kk), budget - kk));
            match cont2 {
                Err(e) => {
                    assert(cont == Err::<(Seq<SliceView>, int), Error>(e));
                },
                Ok((tail2, m2)) => {
                    assert(cont == Ok::<_, Error>((seq![sv] + tail2, kk + m2)));
                    assert(ss0 + (seq![sv] + tail2) =~= slices@.map_values(|x: Slice| x@)
                        + tail2);
                },
            }
        }
        budget = budget - k;
        p = p2;
    }
    proof {
        assert(parse_slices(src@.skip(p as int), 0) == Ok::<_, Error>(
            (Seq::<SliceView>::empty(), 0int),
        ));
        assert(slices@.map_values(|x: Slice| x@) + Seq::<SliceView>::empty() =~= slices@.map_values(
            |x: Slice| x@,
        ));
    }
    Ok((Some(Container { header, compression_header, slices }), p))
}

/// Appends the wire form of `c` to `buf`: its header, its compression
/// header block, then its slices.
pub fn write_container(buf: &mut Vec<u8>, c: &Container)
    requires
        c@.wf(),
    ensures
        final(buf)@ == old(buf)@ + container_bytes(c@),
{
    write_header(buf, &c.header);
    write_block(buf, &c.compression_header);
    let ghost prefix = buf@;
    let mut i: usize = 0;
    while i < c.slices.len()
        invariant
            i <= c.slices@.len(),
            buf@ == prefix + slices_bytes(c@.slices.take(i as int)),
            c@.wf(),
        decreases c.slices@.len() - i,
    {
        proof {
            lemma_slices_bytes_snoc(c@.slices, i as int);
            assert(c@.slices[i as int] == c.slices@[i as int]@);
        }
        write_slice(buf, &c.slices[i]);
        i += 1;
    }
    proof {
        assert(c@.slices.take(c.slices@.len() as int) =~= c@.slices);
        assert(buf@ =~= old(buf)@ + container_bytes(c@));
    }
}

/// Round-trip law for a run of slices: their concatenated wire forms,
/// read against a budget of exactly their length, come back as the
/// slices themselves.
pub proof fn lemma_slices_round_trip(ss: Seq<SliceView>, rest: Seq<u8>)
    requires
        forall|i: int| 0 <= i < ss.len() ==> (#[trigger] ss[i]).wf(),
    ensures
        parse_slices(slices_bytes(ss) + rest, slices_bytes(ss).len() as int) == Ok::<_, Error>(
            (ss, slices_bytes(ss).len() as int),
        ),
    decreases ss.len(),
{
    if ss.len() == 0 {
        assert(slices_bytes(ss) + rest =~= rest);
        assert(ss =~= Seq::<SliceView>::empty());
        assert(slices_bytes(ss).len() == 0);
    } else {
        let sl = ss[0];
        let enc0 = slice_bytes(sl);
        let tailb = slices_bytes(ss.skip(1));
        let tail = tailb + rest;
        lemma_slice_round_trip(sl, tail);
        assert(slices_bytes(ss) + rest =~= enc0 + tail);
        assert((enc0 + tail).skip(enc0.len() as int) =~= tail);
        lemma_slices_round_trip(ss.skip(1), rest);
        assert(block_bytes(sl.header_block).len() >= 1) by {
            assert(crate::cram::block::block_body_bytes(sl.header_block).len() >= 1);
        }
        assert(enc0.len() >= 1);
        assert(seq![sl] + ss.skip(1) =~= ss);
        assert(parse_slices(slices_bytes(ss) + rest, slices_bytes(ss).len() as int) == Ok::<
            _,
            Error,
        >((ss, slices_bytes(ss).len() as int)));
    }
}

/// Round-trip law for a container: writing it and reading the bytes back
/// reproduces the container itself — header fields, compression header
/// block, and every slice's blocks, byte for byte.
#[verifier::rlimit(100)]
#[verifier::spinoff_prover]
pub proof fn lemma_container_round_trip(c: ContainerView, rest: Seq<u8>)
    requires
        c.wf(),
    ensures
        parse_container(container_bytes(c) + rest) == Ok::<_, Error>(
            (Some(c), container_bytes(c).len() as int),
        ),
{
    let hb = header_bytes(c.header);
    let cbb = block_bytes(c.compression_header);
    let slb = slices_bytes(c.slices);
    let s = container_bytes(c) + rest;
    assert(s =~= hb + (cbb + (slb + rest)));
    lemma_header_checked_round_trip(c.header, cbb + (slb + rest));
    let hk = hb.len() as int;
    assert(s.skip(hk) =~= cbb + (slb + rest));
    lemma_block_round_trip(c.compression_header, slb + rest);
    let k0 = cbb.len() as int;
    assert(s.skip(hk + k0) =~= slb + rest);
    lemma_slices_round_trip(c.slices, rest);
    assert(parse_container(s) == Ok::<_, Error>((Some(c), container_bytes(c).len() as int)));
}

/// End-of-stream law: a header declaring the terminator length, whatever
/// follows it, reads back as "no more containers" — no compression
/// header is touched.
pub proof fn lemma_eof_sentinel(h: ContainerHeaderView, rest: Seq<u8>)
    requires
        h.wf(),
        h.length == EOF_LENGTH,
    ensures
        parse_container(header_bytes(h) + rest) == Ok::<(Option<ContainerView>, int), Error>(
            (None, header_bytes(h).len() as int),
        ),
{
    lemma_header_checked_round_trip(h, rest);
}


/// Every slice a successful run parse hands back has a readable header
/// block.
pub proof fn lemma_parse_slices_readable(s: Seq<u8>, budget: int)
    requires
        parse_slices(s, budget) is Ok,
    ensures
        forall|j: int|
            0 <= j < parse_slices(s, budget)->Ok_0.0.len()
                ==> crate::cram::slice::slice_header_readable(
                #[trigger] parse_slices(s, budget)->Ok_0.0[j],
            ),
    decreases budget,
{
    if budget <= 0 {
    } else {
        let (sl, k) = parse_slice(s)->Ok_0;
        crate::cram::slice::lemma_parse_slice_readable(s);
        lemma_parse_slices_readable(s.skip(k), budget - k);
        let tail = parse_slices(s.skip(k), budget - k)->Ok_0.0;
        assert(parse_slices(s, budget)->Ok_0.0 == seq![sl] + tail);
        assert forall|j: int| 0 <= j < parse_slices(s, budget)->Ok_0.0.len()
            implies crate::cram::slice::slice_header_readable(
            #[trigger] parse_slices(s, budget)->Ok_0.0[j],
        ) by {
            if j == 0 {
                assert((seq![sl] + tail)[0] == sl);
            } else {
                assert((seq![sl] + tail)[j] == tail[j - 1]);
            }
        }
    }
}

/// Every slice of a successfully parsed container has a readable header
/// block.
pub proof fn lemma_parse_container_slices_readable(s: Seq<u8>, c: ContainerView, n: int)
    requires
        parse_container(s) == Ok::<(Option<ContainerView>, int), Error>((Some(c), n)),
    ensures
        forall|j: int|
            0 <= j < c.slices.len() ==> crate::cram::slice::slice_header_readable(
                #[trigger] c.slices[j],
            ),
{
    let (h, hk) = parse_header_checked(s)->Ok_0;
    let (cb, k0) = parse_block(s.skip(hk))->Ok_0;
    lemma_parse_slices_readable(s.skip(hk + k0), h.length - k0);
}


/// The fields of a container's header that its caller chooses; the rest
/// — byte length, block count, landmarks — are derived from the body.
#[derive(Clone, Copy, Debug, PartialEq, Eq, Structural)]
pub struct ContainerMeta {
    /// The reference sequence the records align to.
    pub reference_sequence_id: i32,
    /// 1-based alignment start position.
    pub alignment_start: i32,
    /// Number of reference bases covered.
    pub alignment_span: i32,
    /// Number of records.
    pub record_count: i32,
    /// Global record counter at the first record.
    pub record_counter: i64,
    /// Number of read bases.
    pub base_count: i64,
}

/// A run of slices never carries a negative block count.
proof fn lemma_total_block_count_nonneg(ss: Seq<SliceView>)
    ensures
        total_block_count(ss) >= 0,
    decreases ss.len(),
{
    if ss.len() > 0 {
        lemma_total_block_count_nonneg(ss.skip(1));
    }
}

/// A prefix of a run of slices carries at most the whole run's blocks.
proof fn lemma_total_block_count_take_le(ss: Seq<SliceView>, i: int)
    requires
        0 <= i <= ss.len(),
    ensures
        total_block_count(ss.take(i)) <= total_block_count(ss),
    decreases ss.len() - i,
{
    if i == ss.len() {
        assert(ss.take(i) =~= ss);
    } else {
        lemma_total_block_count_snoc(ss, i);
        lemma_total_block_count_take_le(ss, i + 1);
    }
}

/// A prefix of a run of slices occupies at most the whole run's bytes.
proof fn lemma_slices_bytes_take_le(ss: Seq<SliceView>, i: int)
    requires
        0 <= i <= ss.len(),
    ensures
        slices_bytes(ss.take(i)).len() <= slices_bytes(ss).len(),
    decreases ss.len() - i,
{
    if i == ss.len() {
        assert(ss.take(i) =~= ss);
    } else {
        lemma_slices_bytes_snoc(ss, i);
        lemma_slices_bytes_take_le(ss, i + 1);
    }
}

/// Whether a compression header block and a run of slices can stand as a
/// container's body: the body's byte length fits the header's 32-bit
/// length field without colliding with the terminator value, and the
/// block count fits its field.
pub open spec fn container_fits(cb: BlockView, ss: Seq<SliceView>) -> bool {
    let body_len = block_bytes(cb).len() + slices_bytes(ss).len();
    &&& body_len <= 0x7fffffff
    &&& body_len != EOF_LENGTH
    &&& 1 + total_block_count(ss) <= 0x7fffffff
}

/// Assembles a container: serializes the body once to measure it, then
/// fills the header's byte length, block count, and landmarks in from
/// what was actually produced — none of them is supplied by the caller.
/// A body too large for the header's fields, or whose length collides
/// with the terminator value, is refused.
#[verifier::rlimit(100)]
#[verifier::spinoff_prover]
pub fn build_container(meta: &ContainerMeta, compression_header: Block, slices: Vec<Slice>) -> (r:
    Result<Container, Error>)
    requires
        compression_header@.wf(),
        compression_header@.content_type == ContentType::CompressionHeader,
        forall|i: int| 0 <= i < slices@.len() ==> (#[trigger] slices@[i]@).wf(),
    ensures
        r is Ok <==> container_fits(compression_header@, slices@.map_values(|x: Slice| x@)),
        r matches Err(e) ==> e == Error::InvalidSize,
        r matches Ok(c) ==> {
            &&& c@.wf()
            &&& c@.compression_header == compression_header@
            &&& c@.slices == slices@.map_values(|x: Slice| x@)
            &&& c@.header.reference_sequence_id == meta.reference_sequence_id
            &&& c@.header.alignment_start == meta.alignment_start
            &&& c@.header.alignment_span == meta.alignment_span
            &&& c@.header.record_count == meta.record_count
            &&& c@.header.record_counter == meta.record_counter
            &&& c@.header.base_count == meta.base_count
            &&& c@.header.block_count == 1 + total_block_count(c@.slices)
            &&& c@.header.landmarks.len() == c@.slices.len()
            &&& forall|j: int|
                0 <= j < c@.slices.len() ==> (#[trigger] c@.header.landmarks[j]) as int
                    == block_bytes(c@.compression_header).len() + slices_bytes(
                    c@.slices.take(j),
                ).len()
        },
{
    let ghost ss = slices@.map_values(|x: Slice| x@);
    let mut body: Vec<u8> = Vec::new();
    write_block(&mut body, &compression_header);
    let ghost k0 = block_bytes(compression_header@).len() as int;
    let mut landmark_offsets: Vec<usize> = Vec::new();
    let mut total_blocks: usize = 1;
    let mut i: usize = 0;
    proof {
        assert(ss.take(0) =~= Seq::<SliceView>::empty());
        assert(body@ =~= block_bytes(compression_header@) + slices_bytes(ss.take(0)));
    }
    while i < slices.len()
        invariant
            i <= slices@.len(),
            ss == slices@.map_values(|x: Slice| x@),
            forall|j: int| 0 <= j < slices@.len() ==> (#[trigger] slices@[j]@).wf(),
            compression_header@.wf(),
            body@ == block_bytes(compression_header@) + slices_bytes(ss.take(i as int)),
            k0 == block_bytes(compression_header@).len() as int,
            landmark_offsets@.len() == i,
            forall|j: int|
                0 <= j < i ==> (#[trigger] landmark_offsets@[j]) as int == k0 + slices_bytes(
                    ss.take(j),
                ).len(),
            forall|j: int| 0 <= j < i ==> (#[trigger] landmark_offsets@[j]) <= body@.len(),
            total_blocks as int == 1 + total_block_count(ss.take(i as int)),
        decreases slices@.len() - i,
    {
        landmark_offsets.push(body.len());
        proof {
            lemma_slices_bytes_snoc(ss, i as int);
            lemma_total_block_count_snoc(ss, i as int);
            assert(ss[i as int] == slices@[i as int]@);
        }
        write_slice(&mut body, &slices[i]);
        let more = match slices[i].blocks.len().checked_add(1) {
            Some(m) => m,
            None => {
                proof {
                    lemma_total_block_count_take_le(ss, i + 1);
                }
                return Err(Error::InvalidSize);
            },
        };
        total_blocks = match total_blocks.checked_add(more) {
            Some(t) => t,
            None => {
                proof {
                    lemma_total_block_count_take_le(ss, i + 1);
                }
                return Err(Error::InvalidSize);
            },
        };
        i += 1;
    }
    proof {
        assert(ss.take(ss.len() as int) =~= ss);
    }
    if body.len() > 0x7fffffff {
        return Err(Error::InvalidSize);
    }
    let length = body.len() as i32;
    if length == EOF_LENGTH {
        return Err(Error::InvalidSize);
    }
    if total_blocks > 0x7fffffff {
        return Err(Error::InvalidSize);
    }
    let mut landmarks: Vec<i32> = Vec::new();
    let mut j: usize = 0;
    while j < landmark_offsets.len()
        invariant
            j <= landmark_offsets@.len(),
            landmarks@.len() == j,
            forall|k: int|
                0 <= k < landmark_offsets@.len() ==> (#[trigger] landmark_offsets@[k])
                    <= 0x7fffffff,
            forall|k: int|
                0 <= k < j ==> (#[trigger] landmarks@[k]) as int == landmark_offsets@[k] as int,
        decreases landmark_offsets@.len() - j,
    {
        landmarks.push(landmark_offsets[j] as i32);
        j += 1;
    }
    let header = ContainerHeader {
        length,
        reference_sequence_id: meta.reference_sequence_id,
        alignment_start: meta.alignment_start,
        alignment_span: meta.alignment_span,
        record_count: meta.record_count,
        record_counter: meta.record_counter,
        base_count: meta.base_count,
        block_count: total_blocks as i32,
        landmarks,
    };
    let c = Container { header, compression_header, slices };
    proof {
        assert(c@.slices == ss);
        assert(c@.header.landmarks.len() == ss.len());
        assert(total_block_count(ss) >= ss.len()) by {
            lemma_total_block_count_at_least_len(ss);
        }
        assert(c@.header.wf());
        assert(c@.wf());
    }
    Ok(c)
}

/// A run of slices has at least one block per slice.
proof fn lemma_total_block_count_at_least_len(ss: Seq<SliceView>)
    ensures
        total_block_count(ss) >= ss.len(),
    decreases ss.len(),
{
    if ss.len() > 0 {
        lemma_total_block_count_at_least_len(ss.skip(1));
    }
}


/// Whether a container's advisory landmarks agree with its actual block
/// framing: one offset per slice, each naming the byte at which its
/// slice begins, relative to the first byte after the header.
pub open spec fn landmarks_consistent_spec(c: ContainerView) -> bool {
    &&& c.header.landmarks.len() == c.slices.len()
    &&& forall|j: int|
        0 <= j < c.slices.len() ==> (#[trigger] c.header.landmarks[j]) as int == block_bytes(
            c.compression_header,
        ).len() + slices_bytes(c.slices.take(j)).len()
}

impl Container {
    /// Checks the header's advisory landmarks against the actual block
    /// framing. A sequential reader goes by the framing either way and
    /// must not trust the landmarks over it; a strict caller refuses a
    /// container whose landmarks disagree, a lenient one goes on.
    pub fn landmarks_consistent(&self) -> (r: bool)
        requires
            self@.wf(),
        ensures
            r == landmarks_consistent_spec(self@),
    {
        if self.header.landmarks.len() != self.slices.len() {
            return false;
        }
        let ghost ss = self@.slices;
        let mut scratch: Vec<u8> = Vec::new();
        write_block(&mut scratch, &self.compression_header);
        let mut j: usize = 0;
        proof {
            assert(ss.take(0) =~= Seq::<SliceView>::empty());
            assert(scratch@ =~= block_bytes(self@.compression_header) + slices_bytes(ss.take(0)));
        }
        while j < self.slices.len()
            invariant
                j <= self.slices@.len(),
                self@.wf(),
                ss == self@.slices,
                self.header.landmarks@.len() == self.slices@.len(),
                scratch@ == block_bytes(self@.compression_header) + slices_bytes(
                    ss.take(j as int),
                ),
                forall|k: int|
                    0 <= k < j ==> (#[trigger] self@.header.landmarks[k]) as int == block_bytes(
                        self@.compression_header,
                    ).len() + slices_bytes(ss.take(k)).len(),
            decreases self.slices@.len() - j,
        {
            let expected = scratch.len();
            let lm = self.header.landmarks[j];
            if lm < 0 || (lm as usize) != expected {
                proof {
                    crate::cram::num::lemma_i32_cast_id(lm);
                }
                return false;
            }
            proof {
                lemma_slices_bytes_snoc(ss, j as int);
                assert(ss[j as int] == self.slices@[j as int]@);
            }
            write_slice(&mut scratch, &self.slices[j]);
            j += 1;
        }
        true
    }
}

} // verus!
