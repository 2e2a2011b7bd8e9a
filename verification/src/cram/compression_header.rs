//! The structured record inside a container's compression header block:
//! a preservation map, a per-data-series encoding map, and a per-tag
//! encoding map. Without it, a slice's data-series bytes are opaque.
//!
//! An encoding descriptor is a closed union, one variant per codec,
//! selected by a leading codec-id byte. A codec id outside the registry
//! is fatal as [`Error::UnsupportedEncoding`]: record decoding cannot
//! proceed without knowing how to read the bytes. That stands apart from
//! an unsupported block-level compression method.

use vstd::prelude::*;

use crate::cram::container::{itf8_array_bytes, parse_itf8_array_counted};
use crate::cram::error::Error;
use crate::cram::num::{decode_itf8, decode_itf8_spec, encode_itf8, itf8_bytes, lemma_i32_cast_id};

verus! {

/// How one data series or tag is encoded: a codec and its parameters.
#[derive(Debug, PartialEq)]
pub enum Encoding {
    /// The values stand in the external block with this content id.
    External(i32),
    /// Golomb coding: an offset and the modulus.
    Golomb(i32, i32),
    /// Huffman coding: the alphabet and each symbol's code length.
    Huffman(Vec<i32>, Vec<i32>),
    /// A length encoding, then that many value bytes, each nested.
    ByteArrayLen(Box<Encoding>, Box<Encoding>),
    /// Value bytes until a stop byte, in the block with this content id.
    ByteArrayStop(u8, i32),
    /// Beta coding: an offset and the bit length.
    Beta(i32, i32),
    /// Subexponential coding: an offset and the order.
    Subexponential(i32, i32),
    /// Gamma coding: an offset.
    Gamma(i32),
}

/// The wire codec id of an encoding.
pub open spec fn codec_id(e: Encoding) -> u8 {
    match e {
        Encoding::External(_) => 1,
        Encoding::Golomb(..) => 2,
        Encoding::Huffman(..) => 3,
        Encoding::ByteArrayLen(..) => 4,
        Encoding::ByteArrayStop(..) => 5,
        Encoding::Beta(..) => 6,
        Encoding::Subexponential(..) => 7,
        Encoding::Gamma(_) => 9,
    }
}

/// A count-prefixed value table, as an alphabet or code-length table
/// stands on the wire.
pub open spec fn counted_itf8_bytes(vs: Seq<i32>) -> Seq<u8> {
    itf8_bytes((vs.len() as i32) as u32) + itf8_array_bytes(vs)
}

/// The wire form of an encoding descriptor: its codec id, then its
/// parameters.
pub open spec fn encoding_bytes(e: Encoding) -> Seq<u8>
    decreases e,
{
    seq![codec_id(e)] + match e {
        Encoding::External(id) => itf8_bytes(id as u32),
        Encoding::Golomb(offset, m) => itf8_bytes(offset as u32) + itf8_bytes(m as u32),
        Encoding::Huffman(alphabet, lens) => counted_itf8_bytes(alphabet@) + counted_itf8_bytes(
            lens@,
        ),
        Encoding::ByteArrayLen(len_enc, val_enc) => encoding_bytes(*len_enc) + encoding_bytes(
            *val_enc,
        ),
        Encoding::ByteArrayStop(stop, id) => seq![stop] + itf8_bytes(id as u32),
        Encoding::Beta(offset, len) => itf8_bytes(offset as u32) + itf8_bytes(len as u32),
        Encoding::Subexponential(offset, k) => itf8_bytes(offset as u32) + itf8_bytes(k as u32),
        Encoding::Gamma(offset) => itf8_bytes(offset as u32),
    }
}

/// Whether an encoding can stand on the wire: every embedded table's
/// length is representable as its count field.
pub open spec fn encoding_wf(e: Encoding) -> bool
    decreases e,
{
    match e {
        Encoding::Huffman(alphabet, lens) => alphabet@.len() <= 0x7fffffff && lens@.len()
            <= 0x7fffffff,
        Encoding::ByteArrayLen(len_enc, val_enc) => encoding_wf(*len_enc) && encoding_wf(*val_enc),
        _ => true,
    }
}

/// How many bytes an encoding descriptor at the head of `s` occupies, or
/// the error that stops its read: the codec id decides the shape, and a
/// codec id outside the registry is refused with the id itself.
pub open spec fn parse_encoding_len(s: Seq<u8>) -> Result<int, Error>
    decreases s.len(),
{
    if s.len() < 1 {
        Err(Error::UnexpectedEof)
    } else {
        let id = s[0];
        let body = s.skip(1);
        if id == 1 || id == 9 {
            match decode_itf8_spec(body) {
                None => Err(Error::UnexpectedEof),
                Some((_, k)) => Ok(1 + k),
            }
        } else if id == 2 || id == 6 || id == 7 {
            match parse_two_itf8(body) {
                Err(e) => Err(e),
                Ok((_, _, k)) => Ok(1 + k),
            }
        } else if id == 3 {
            match parse_itf8_array_counted(body) {
                Err(e) => Err(e),
                Ok((_, k1)) => match parse_itf8_array_counted(body.skip(k1)) {
                    Err(e) => Err(e),
                    Ok((_, k2)) => Ok(1 + k1 + k2),
                },
            }
        } else if id == 4 {
            match parse_encoding_len(body) {
                Err(e) => Err(e),
                Ok(k1) => if k1 < 1 || k1 >= body.len() {
                    Err(Error::UnexpectedEof)
                } else {
                    match parse_encoding_len(body.skip(k1)) {
                        Err(e) => Err(e),
                        Ok(k2) => Ok(1 + k1 + k2),
                    }
                },
            }
        } else if id == 5 {
            if body.len() < 1 {
                Err(Error::UnexpectedEof)
            } else {
                match decode_itf8_spec(body.skip(1)) {
                    None => Err(Error::UnexpectedEof),
                    Some((_, k)) => Ok(2 + k),
                }
            }
        } else {
            Err(Error::UnsupportedEncoding(id))
        }
    }
}

/// What reading two consecutive 32-bit values at the head of `s` yields.
pub open spec fn parse_two_itf8(s: Seq<u8>) -> Result<(i32, i32, int), Error> {
    match decode_itf8_spec(s) {
        None => Err(Error::UnexpectedEof),
        Some((a, k1)) => match decode_itf8_spec(s.skip(k1)) {
            None => Err(Error::UnexpectedEof),
            Some((b, k2)) => Ok((a as i32, b as i32, k1 + k2)),
        },
    }
}

/// Whether `e` is the encoding a descriptor at the head of `s` denotes,
/// occupying `k` bytes.
pub open spec fn encoding_matches(s: Seq<u8>, e: Encoding, k: int) -> bool
    decreases e,
{
    &&& s.len() >= 1
    &&& s[0] == codec_id(e)
    &&& {
        let body = s.skip(1);
        match e {
            Encoding::External(id) => decode_itf8_spec(body) matches Some((v, k1)) && (id == (
            v as i32) && k == 1 + k1),
            Encoding::Golomb(a, b) => parse_two_itf8(body) == Ok::<_, Error>((a, b, k - 1)),
            Encoding::Huffman(alphabet, lens) => {
                &&& parse_itf8_array_counted(body) matches Ok((al, k1)) && (al == alphabet@ && (
                parse_itf8_array_counted(body.skip(k1)) matches Ok((ls, k2)) && (ls == lens@ && k
                    == 1 + k1 + k2)))
            },
            Encoding::ByteArrayLen(len_enc, val_enc) => {
                &&& parse_encoding_len(body) matches Ok(k1) && (encoding_matches(
                    body,
                    *len_enc,
                    k1,
                ) && encoding_matches(body.skip(k1), *val_enc, k - 1 - k1))
            },
            Encoding::ByteArrayStop(stop, id) => body.len() >= 1 && body[0] == stop && (
            decode_itf8_spec(body.skip(1)) matches Some((v, k1)) && (id == (v as i32) && k == 2
                + k1)),
            Encoding::Beta(a, b) => parse_two_itf8(body) == Ok::<_, Error>((a, b, k - 1)),
            Encoding::Subexponential(a, b) => parse_two_itf8(body) == Ok::<_, Error>(
                (a, b, k - 1),
            ),
            Encoding::Gamma(a) => decode_itf8_spec(body) matches Some((v, k1)) && (a == (v as i32)
                && k == 1 + k1),
        }
    }
}

/// Reads two consecutive 32-bit values from `src` at `pos`.
fn read_two_itf8(src: &[u8], pos: usize) -> (r: Result<(i32, i32, usize), Error>)
    requires
        pos <= src@.len(),
    ensures
        match r {
            Ok((a, b, n)) => {
                &&& pos < n <= src@.len()
                &&& parse_two_itf8(src@.skip(pos as int)) == Ok::<_, Error>((a, b, n - pos))
            },
            Err(e) => {
                &&& e == Error::UnexpectedEof
                &&& parse_two_itf8(src@.skip(pos as int)) == Err::<(i32, i32, int), _>(e)
            },
        },
{
    let (a, p1) = match decode_itf8(src, pos) {
        Ok(v) => v,
        Err(e) => {
            return Err(e);
        },
    };
    proof {
        assert(src@.skip(pos as int).skip(p1 - pos) =~= src@.skip(p1 as int));
        let av = decode_itf8_spec(src@.skip(pos as int))->Some_0.0;
        lemma_i32_cast_id(a);
    }
    let (b, p2) = match decode_itf8(src, p1) {
        Ok(v) => v,
        Err(e) => {
            return Err(e);
        },
    };
    proof {
        lemma_i32_cast_id(b);
    }
    Ok((a, b, p2))
}

/// Reads an encoding descriptor from `src` at `pos`. Returns the
/// encoding and the position of the first byte after it.
#[verifier::rlimit(100)]
#[verifier::spinoff_prover]
pub fn read_encoding(src: &[u8], pos: usize) -> (r: Result<(Encoding, usize), Error>)
    requires
        pos <= src@.len(),
    ensures
        match r {
            Ok((e, n)) => {
                &&& pos < n <= src@.len()
                &&& parse_encoding_len(src@.skip(pos as int)) == Ok::<_, Error>((n - pos) as int)
                &&& encoding_matches(src@.skip(pos as int), e, n - pos)
            },
            Err(err) => parse_encoding_len(src@.skip(pos as int)) == Err::<int, _>(err),
        },
    decreases src@.len() - pos,
{
    let ghost s = src@.skip(pos as int);
    if src.len() - pos < 1 {
        return Err(Error::UnexpectedEof);
    }
    let id = src[pos];
    proof {
        assert(s[0] == src@[pos as int]);
        assert(s.skip(1) =~= src@.skip(pos + 1));
    }
    if id == 1 || id == 9 {
        let (v, n) = match decode_itf8(src, pos + 1) {
            Ok(v) => v,
            Err(e) => {
                return Err(e);
            },
        };
        proof {
            lemma_i32_cast_id(v);
        }
        if id == 1 {
            Ok((Encoding::External(v), n))
        } else {
            Ok((Encoding::Gamma(v), n))
        }
    } else if id == 2 || id == 6 || id == 7 {
        let (a, b, n) = match read_two_itf8(src, pos + 1) {
            Ok(v) => v,
            Err(e) => {
                return Err(e);
            },
        };
        if id == 2 {
            Ok((Encoding::Golomb(a, b), n))
        } else if id == 6 {
            Ok((Encoding::Beta(a, b), n))
        } else {
            Ok((Encoding::Subexponential(a, b), n))
        }
    } else if id == 3 {
        let (alphabet, p1) = match crate::cram::container::read_landmarks(src, pos + 1) {
            Ok(v) => v,
            Err(e) => {
                return Err(e);
            },
        };
        proof {
            assert(s.skip(1).skip(p1 - pos - 1) =~= src@.skip(p1 as int));
        }
        let (lens, p2) = match crate::cram::container::read_landmarks(src, p1) {
            Ok(v) => v,
            Err(e) => {
                return Err(e);
            },
        };
        Ok((Encoding::Huffman(alphabet, lens), p2))
    } else if id == 4 {
        let (len_enc, p1) = match read_encoding(src, pos + 1) {
            Ok(v) => v,
            Err(e) => {
                return Err(e);
            },
        };
        proof {
            assert(s.skip(1).skip(p1 - pos - 1) =~= src@.skip(p1 as int));
        }
        if p1 >= src.len() {
            return Err(Error::UnexpectedEof);
        }
        let (val_enc, p2) = match read_encoding(src, p1) {
            Ok(v) => v,
            Err(e) => {
                return Err(e);
            },
        };
        Ok(
            (
                Encoding::ByteArrayLen(
                    std::boxed::Box::new(len_enc),
                    std::boxed::Box::new(val_enc),
                ),
                p2,
            ),
        )
    } else if id == 5 {
        if src.len() - pos < 2 {
            return Err(Error::UnexpectedEof);
        }
        let stop = src[pos + 1];
        proof {
            assert(s.skip(1)[0] == src@[pos + 1]);
            assert(s.skip(1).skip(1) =~= src@.skip(pos + 2));
        }
        let (v, n) = match decode_itf8(src, pos + 2) {
            Ok(v) => v,
            Err(e) => {
                return Err(e);
            },
        };
        proof {
            lemma_i32_cast_id(v);
        }
        Ok((Encoding::ByteArrayStop(stop, v), n))
    } else {
        Err(Error::UnsupportedEncoding(id))
    }
}

/// Appends the wire form of an encoding descriptor to `buf`.
pub fn write_encoding(buf: &mut Vec<u8>, e: &Encoding)
    requires
        encoding_wf(*e),
    ensures
        final(buf)@ == old(buf)@ + encoding_bytes(*e),
    decreases *e,
{
    match e {
        Encoding::External(id) => {
            buf.push(1);
            encode_itf8(buf, *id);
        },
        Encoding::Golomb(offset, m) => {
            buf.push(2);
            encode_itf8(buf, *offset);
            encode_itf8(buf, *m);
        },
        Encoding::Huffman(alphabet, lens) => {
            buf.push(3);
            write_counted_itf8(buf, alphabet);
            write_counted_itf8(buf, lens);
        },
        Encoding::ByteArrayLen(len_enc, val_enc) => {
            buf.push(4);
            write_encoding(buf, len_enc);
            write_encoding(buf, val_enc);
        },
        Encoding::ByteArrayStop(stop, id) => {
            buf.push(5);
            buf.push(*stop);
            encode_itf8(buf, *id);
        },
        Encoding::Beta(offset, len) => {
            buf.push(6);
            encode_itf8(buf, *offset);
            encode_itf8(buf, *len);
        },
        Encoding::Subexponential(offset, k) => {
            buf.push(7);
            encode_itf8(buf, *offset);
            encode_itf8(buf, *k);
        },
        Encoding::Gamma(offset) => {
            buf.push(9);
            encode_itf8(buf, *offset);
        },
    }
    proof {
        assert(buf@ =~= old(buf)@ + encoding_bytes(*e));
    }
}

/// Appends a count-prefixed value table to `buf`.
fn write_counted_itf8(buf: &mut Vec<u8>, vs: &Vec<i32>)
    requires
        vs@.len() <= 0x7fffffff,
    ensures
        final(buf)@ == old(buf)@ + counted_itf8_bytes(vs@),
{
    encode_itf8(buf, vs.len() as i32);
    let ghost prefix = buf@;
    let mut i: usize = 0;
    while i < vs.len()
        invariant
            i <= vs@.len(),
            buf@ == prefix + itf8_array_bytes(vs@.take(i as int)),
        decreases vs@.len() - i,
    {
        proof {
            crate::cram::container::lemma_itf8_array_bytes_snoc(vs@, i as int);
        }
        encode_itf8(buf, vs[i]);
        i += 1;
    }
    proof {
        assert(vs@.take(vs@.len() as int) =~= vs@);
        assert(buf@ =~= old(buf)@ + counted_itf8_bytes(vs@));
    }
}

/// One preservation map entry: a two-byte key and its value. Unknown
/// keys are preserved opaquely rather than rejected.
#[derive(Clone, Copy, Debug, Eq, PartialEq, Structural)]
pub struct PreservationEntry {
    /// First key byte.
    pub k0: u8,
    /// Second key byte.
    pub k1: u8,
    /// The entry's value.
    pub value: i32,
}

/// One data-series entry: the two-byte series id and its encoding.
#[derive(Debug, PartialEq)]
pub struct DataSeriesEncoding {
    /// First series id byte.
    pub s0: u8,
    /// Second series id byte.
    pub s1: u8,
    /// How the series is encoded.
    pub encoding: Encoding,
}

/// One tag entry: the packed three-byte tag key and its encoding.
#[derive(Debug, PartialEq)]
pub struct TagEncoding {
    /// The packed tag key.
    pub key: i32,
    /// How the tag's values are encoded.
    pub encoding: Encoding,
}

/// The decoded compression header record.
#[derive(Debug, PartialEq)]
pub struct CompressionHeaderRecord {
    /// The preservation map, in wire order.
    pub preservation: Vec<PreservationEntry>,
    /// The data-series encoding map, in wire order.
    pub data_series: Vec<DataSeriesEncoding>,
    /// The tag encoding map, in wire order.
    pub tag_encodings: Vec<TagEncoding>,
}

/// The wire form of one preservation entry.
pub open spec fn preservation_entry_bytes(e: PreservationEntry) -> Seq<u8> {
    seq![e.k0, e.k1] + itf8_bytes(e.value as u32)
}

/// The wire form of a preservation map: its entries, then the two-byte
/// end marker.
pub open spec fn preservation_bytes(es: Seq<PreservationEntry>) -> Seq<u8>
    decreases es.len(),
{
    if es.len() == 0 {
        seq![0u8, 0u8]
    } else {
        preservation_entry_bytes(es[0]) + preservation_bytes(es.skip(1))
    }
}

/// What reading a preservation map at the head of `s` yields: ordered
/// entries up to the end marker, and the bytes consumed, marker
/// included.
pub open spec fn parse_preservation(s: Seq<u8>) -> Result<(Seq<PreservationEntry>, int), Error>
    decreases s.len(),
    via parse_preservation_decreases
{
    if s.len() < 2 {
        Err(Error::UnexpectedEof)
    } else if s[0] == 0 && s[1] == 0 {
        Ok((seq![], 2))
    } else {
        match decode_itf8_spec(s.skip(2)) {
            None => Err(Error::UnexpectedEof),
            Some((v, k)) => if k < 1 || 2 + k > s.len() {
                Err(Error::UnexpectedEof)
            } else {
                match parse_preservation(s.skip(2 + k)) {
                    Err(e) => Err(e),
                    Ok((es, m)) => Ok(
                        (
                            seq![
                                PreservationEntry { k0: s[0], k1: s[1], value: (v as i32) },
                            ] + es,
                            2 + k + m,
                        ),
                    ),
                }
            },
        }
    }
}

#[via_fn]
proof fn parse_preservation_decreases(s: Seq<u8>) {
}

/// Reads a preservation map from `src` at `pos`.
pub fn read_preservation(src: &[u8], pos: usize) -> (r: Result<
    (Vec<PreservationEntry>, usize),
    Error,
>)
    requires
        pos <= src@.len(),
    ensures
        match r {
            Ok((es, n)) => {
                &&& pos < n <= src@.len()
                &&& parse_preservation(src@.skip(pos as int)) == Ok::<_, Error>((es@, n - pos))
            },
            Err(e) => parse_preservation(src@.skip(pos as int)) == Err::<
                (Seq<PreservationEntry>, int),
                _,
            >(e),
        },
{
    let ghost s = src@.skip(pos as int);
    let mut es: Vec<PreservationEntry> = Vec::new();
    let mut p = pos;
    proof {
        let cont = parse_preservation(src@.skip(p as int));
        if cont is Ok {
            let (tail, m) = cont->Ok_0;
            assert(es@ + tail =~= tail);
        }
    }
    loop
        invariant
            pos <= p <= src@.len(),
            s == src@.skip(pos as int),
            ({
                let cont = parse_preservation(src@.skip(p as int));
                match cont {
                    Err(e) => parse_preservation(s) == Err::<(Seq<PreservationEntry>, int), Error>(
                        e,
                    ),
                    Ok((tail, m)) => parse_preservation(s) == Ok::<_, Error>(
                        (es@ + tail, p - pos + m),
                    ),
                }
            }),
        decreases src@.len() - p,
    {
        if src.len() - p < 2 {
            return Err(Error::UnexpectedEof);
        }
        let k0 = src[p];
        let k1 = src[p + 1];
        proof {
            assert(src@.skip(p as int)[0] == src@[p as int]);
            assert(src@.skip(p as int)[1] == src@[p + 1]);
        }
        if k0 == 0 && k1 == 0 {
            proof {
                assert(es@ + Seq::<PreservationEntry>::empty() =~= es@);
            }
            return Ok((es, p + 2));
        }
        proof {
            assert(src@.skip(p as int).skip(2) =~= src@.skip(p + 2));
        }
        let (value, p2) = match decode_itf8(src, p + 2) {
            Ok(v) => v,
            Err(e) => {
                return Err(e);
            },
        };
        let ghost es0 = es@;
        es.push(PreservationEntry { k0, k1, value });
        proof {
            lemma_i32_cast_id(value);
            let k = decode_itf8_spec(src@.skip(p + 2))->Some_0.1;
            assert(src@.skip(p as int).skip(2 + k) =~= src@.skip(p2 as int));
            let cont2 = parse_preservation(src@.skip(p2 as int));
            match cont2 {
                Err(_) => {},
                Ok((tail2, m2)) => {
                    assert(es0 + (seq![
                        PreservationEntry { k0, k1, value },
                    ] + tail2) =~= es@ + tail2);
                },
            }
        }
        p = p2;
    }
}

/// Appends the wire form of a preservation map to `buf`. An entry whose
/// key is the end marker cannot stand.
pub fn write_preservation(buf: &mut Vec<u8>, es: &Vec<PreservationEntry>)
    requires
        forall|i: int|
            0 <= i < es@.len() ==> !((#[trigger] es@[i]).k0 == 0 && es@[i].k1 == 0),
    ensures
        final(buf)@ == old(buf)@ + preservation_bytes(es@),
{
    let ghost prefix = buf@;
    let mut i: usize = 0;
    while i < es.len()
        invariant
            i <= es@.len(),
            buf@ == prefix + entries_prefix_bytes(es@, i as int),
        decreases es@.len() - i,
    {
        buf.push(es[i].k0);
        buf.push(es[i].k1);
        encode_itf8(buf, es[i].value);
        proof {
            assert(entries_prefix_bytes(es@, i + 1) =~= entries_prefix_bytes(es@, i as int)
                + preservation_entry_bytes(es@[i as int]));
            assert(buf@ =~= prefix + entries_prefix_bytes(es@, i + 1));
        }
        i += 1;
    }
    buf.push(0);
    buf.push(0);
    proof {
        lemma_preservation_bytes_split(es@, es@.len() as int);
        assert(buf@ =~= old(buf)@ + preservation_bytes(es@));
    }
}

/// The concatenated wire forms of the first `n` preservation entries.
pub open spec fn entries_prefix_bytes(es: Seq<PreservationEntry>, n: int) -> Seq<u8>
    decreases n,
{
    if n <= 0 {
        seq![]
    } else {
        entries_prefix_bytes(es, n - 1) + preservation_entry_bytes(es[n - 1])
    }
}

/// A preservation map's wire form is its entries' forms, then the end
/// marker.
pub proof fn lemma_preservation_bytes_split(es: Seq<PreservationEntry>, n: int)
    requires
        n == es.len(),
    ensures
        preservation_bytes(es) == entries_prefix_bytes(es, n) + seq![0u8, 0u8],
    decreases n,
{
    if n == 0 {
        assert(preservation_bytes(es) =~= entries_prefix_bytes(es, 0) + seq![0u8, 0u8]);
    } else {
        lemma_preservation_prefix(es, n);
    }
}

/// The entries' forms split at the front as the recursion does.
proof fn lemma_preservation_prefix(es: Seq<PreservationEntry>, n: int)
    requires
        n == es.len(),
        n >= 1,
    ensures
        preservation_bytes(es) == entries_prefix_bytes(es, n) + seq![0u8, 0u8],
    decreases n,
{
    let t = es.skip(1);
    assert(entries_prefix_bytes(es, 0) == Seq::<u8>::empty());
    if n == 1 {
        assert(preservation_bytes(t) == seq![0u8, 0u8]);
        assert(entries_prefix_bytes(es, 1) =~= preservation_entry_bytes(es[0]));
        assert(preservation_bytes(es) =~= entries_prefix_bytes(es, 1) + seq![0u8, 0u8]);
    } else {
        lemma_preservation_prefix(t, n - 1);
        assert forall|j: int| 0 <= j <= n - 1 implies entries_prefix_bytes(t, j)
            == entries_prefix_bytes(es, j + 1).skip(
            preservation_entry_bytes(es[0]).len() as int,
        ) by {
            lemma_entries_prefix_shift(es, j);
        }
        lemma_entries_prefix_shift(es, n - 1);
        assert(preservation_bytes(es) =~= entries_prefix_bytes(es, n) + seq![0u8, 0u8]);
    }
}

/// Dropping the first entry shifts the prefix forms by its bytes.
proof fn lemma_entries_prefix_shift(es: Seq<PreservationEntry>, j: int)
    requires
        es.len() >= 1,
        0 <= j <= es.len() - 1,
    ensures
        entries_prefix_bytes(es, j + 1) == preservation_entry_bytes(es[0])
            + entries_prefix_bytes(es.skip(1), j),
    decreases j,
{
    let t = es.skip(1);
    assert(entries_prefix_bytes(es, 0) == Seq::<u8>::empty());
    assert(entries_prefix_bytes(t, 0) == Seq::<u8>::empty());
    if j == 0 {
        assert(entries_prefix_bytes(es, 1) =~= preservation_entry_bytes(es[0])
            + entries_prefix_bytes(t, 0));
    } else {
        lemma_entries_prefix_shift(es, j - 1);
        assert(t[j - 1] == es[j]);
        assert(entries_prefix_bytes(es, j + 1) =~= preservation_entry_bytes(es[0])
            + entries_prefix_bytes(t, j));
    }
}

/// Whether one data-series entry stands at the head of `s`, occupying
/// `k` bytes.
pub open spec fn series_entry_matches(s: Seq<u8>, e: DataSeriesEncoding, k: int) -> bool {
    &&& s.len() >= 2
    &&& s[0] == e.s0
    &&& s[1] == e.s1
    &&& parse_encoding_len(s.skip(2)) matches Ok(ke) && (encoding_matches(s.skip(2), e.encoding, ke)
        && k == 2 + ke)
}

/// Whether `n` data-series entries stand at the head of `s`, occupying
/// `k` bytes, denoting `es` in order.
pub open spec fn series_entries_match(s: Seq<u8>, es: Seq<DataSeriesEncoding>, k: int) -> bool
    decreases es.len(),
{
    if es.len() == 0 {
        k == 0
    } else {
        exists|k0: int|
            #![trigger series_entry_matches(s, es[0], k0)]
            series_entry_matches(s, es[0], k0) && 0 < k0 <= s.len() && k0 <= k
                && series_entries_match(s.skip(k0), es.skip(1), k - k0)
    }
}

/// One more matching entry extends a matching run.
pub proof fn lemma_series_entries_snoc(
    s: Seq<u8>,
    es: Seq<DataSeriesEncoding>,
    k: int,
    e: &DataSeriesEncoding,
    ke: int,
)
    requires
        0 <= k <= s.len(),
        series_entries_match(s, es, k),
        series_entry_matches(s.skip(k), *e, ke),
        0 < ke <= s.len() - k,
    ensures
        series_entries_match(s, es.push(*e), k + ke),
    decreases es.len(),
{
    if es.len() == 0 {
        assert(s.skip(0) =~= s);
        let ps = es.push(*e);
        assert(ps[0] == *e);
        assert(ps.skip(1) =~= Seq::<DataSeriesEncoding>::empty());
        assert(series_entries_match(s.skip(ke), ps.skip(1), 0));
        assert(series_entry_matches(s, ps[0], ke));
    } else {
        let k0 = choose|k0: int|
            #![trigger series_entry_matches(s, es[0], k0)]
            series_entry_matches(s, es[0], k0) && 0 < k0 <= s.len() && k0 <= k
                && series_entries_match(s.skip(k0), es.skip(1), k - k0);
        assert(s.skip(k0).skip(k - k0) =~= s.skip(k));
        lemma_series_entries_snoc(s.skip(k0), es.skip(1), k - k0, e, ke);
        let ps = es.push(*e);
        assert(ps[0] == es[0]);
        assert(ps.skip(1) =~= es.skip(1).push(*e));
        assert(series_entry_matches(s, ps[0], k0));
    }
}

/// Whether one tag entry stands at the head of `s`, occupying `k` bytes.
pub open spec fn tag_entry_matches(s: Seq<u8>, e: TagEncoding, k: int) -> bool {
    decode_itf8_spec(s) matches Some((v, kk)) && (e.key == (v as i32) && (parse_encoding_len(
        s.skip(kk),
    ) matches Ok(ke) && (encoding_matches(s.skip(kk), e.encoding, ke) && k == kk + ke)))
}

/// Whether `n` tag entries stand at the head of `s`, occupying `k`
/// bytes, denoting `es` in order.
pub open spec fn tag_entries_match(s: Seq<u8>, es: Seq<TagEncoding>, k: int) -> bool
    decreases es.len(),
{
    if es.len() == 0 {
        k == 0
    } else {
        exists|k0: int|
            #![trigger tag_entry_matches(s, es[0], k0)]
            tag_entry_matches(s, es[0], k0) && 0 < k0 <= s.len() && k0 <= k && tag_entries_match(
                s.skip(k0),
                es.skip(1),
                k - k0,
            )
    }
}

/// One more matching tag entry extends a matching run.
pub proof fn lemma_tag_entries_snoc(
    s: Seq<u8>,
    es: Seq<TagEncoding>,
    k: int,
    e: &TagEncoding,
    ke: int,
)
    requires
        0 <= k <= s.len(),
        tag_entries_match(s, es, k),
        tag_entry_matches(s.skip(k), *e, ke),
        0 < ke <= s.len() - k,
    ensures
        tag_entries_match(s, es.push(*e), k + ke),
    decreases es.len(),
{
    if es.len() == 0 {
        assert(s.skip(0) =~= s);
        let ps = es.push(*e);
        assert(ps[0] == *e);
        assert(ps.skip(1) =~= Seq::<TagEncoding>::empty());
        assert(tag_entries_match(s.skip(ke), ps.skip(1), 0));
        assert(tag_entry_matches(s, ps[0], ke));
    } else {
        let k0 = choose|k0: int|
            #![trigger tag_entry_matches(s, es[0], k0)]
            tag_entry_matches(s, es[0], k0) && 0 < k0 <= s.len() && k0 <= k && tag_entries_match(
                s.skip(k0),
                es.skip(1),
                k - k0,
            );
        assert(s.skip(k0).skip(k - k0) =~= s.skip(k));
        lemma_tag_entries_snoc(s.skip(k0), es.skip(1), k - k0, e, ke);
        let ps = es.push(*e);
        assert(ps[0] == es[0]);
        assert(ps.skip(1) =~= es.skip(1).push(*e));
        assert(tag_entry_matches(s, ps[0], k0));
    }
}

/// The byte length of `n` data-series entries at the head of `s`, or the
/// error that stops their read.
pub open spec fn series_entries_len(s: Seq<u8>, n: nat) -> Result<int, Error>
    decreases n,
{
    if n == 0 {
        Ok(0)
    } else if s.len() < 2 {
        Err(Error::UnexpectedEof)
    } else {
        match parse_encoding_len(s.skip(2)) {
            Err(e) => Err(e),
            Ok(k) => if k < 1 || 2 + k > s.len() {
                Err(Error::UnexpectedEof)
            } else {
                match series_entries_len(s.skip(2 + k), (n - 1) as nat) {
                    Err(e) => Err(e),
                    Ok(m) => Ok(2 + k + m),
                }
            },
        }
    }
}

/// The byte length of `n` tag entries at the head of `s`, or the error
/// that stops their read.
pub open spec fn tag_entries_len(s: Seq<u8>, n: nat) -> Result<int, Error>
    decreases n,
{
    if n == 0 {
        Ok(0)
    } else {
        match decode_itf8_spec(s) {
            None => Err(Error::UnexpectedEof),
            Some((_, kk)) => match parse_encoding_len(s.skip(kk)) {
                Err(e) => Err(e),
                Ok(k) => if k < 1 || kk + k > s.len() {
                    Err(Error::UnexpectedEof)
                } else {
                    match tag_entries_len(s.skip(kk + k), (n - 1) as nat) {
                        Err(e) => Err(e),
                        Ok(m) => Ok(kk + k + m),
                    }
                },
            },
        }
    }
}

/// The byte length of a count-prefixed data-series encoding map at the
/// head of `s`, or the error that stops its read. A negative count
/// cannot be used.
pub open spec fn series_map_len(s: Seq<u8>) -> Result<int, Error> {
    match decode_itf8_spec(s) {
        None => Err(Error::UnexpectedEof),
        Some((c, k)) => if (c as i32) < 0 {
            Err(Error::InvalidSize)
        } else {
            match series_entries_len(s.skip(k), ((c as i32) as nat)) {
                Err(e) => Err(e),
                Ok(m) => Ok(k + m),
            }
        },
    }
}

/// The byte length of a count-prefixed tag encoding map at the head of
/// `s`, or the error that stops its read.
pub open spec fn tag_map_len(s: Seq<u8>) -> Result<int, Error> {
    match decode_itf8_spec(s) {
        None => Err(Error::UnexpectedEof),
        Some((c, k)) => if (c as i32) < 0 {
            Err(Error::InvalidSize)
        } else {
            match tag_entries_len(s.skip(k), ((c as i32) as nat)) {
                Err(e) => Err(e),
                Ok(m) => Ok(k + m),
            }
        },
    }
}

/// The byte length of a whole compression header record at the head of
/// `s` — preservation map, data-series map, tag map — or the error that
/// stops its read.
pub open spec fn record_parse_len(s: Seq<u8>) -> Result<int, Error> {
    match parse_preservation(s) {
        Err(e) => Err(e),
        Ok((_, kp)) => match series_map_len(s.skip(kp)) {
            Err(e) => Err(e),
            Ok(k1) => match tag_map_len(s.skip(kp + k1)) {
                Err(e) => Err(e),
                Ok(k2) => Ok(kp + k1 + k2),
            },
        },
    }
}

/// Whether the count-prefixed tag encoding map of `ch` stands at the
/// head of `s`, occupying `m` bytes.
pub open spec fn tag_map_matches(s: Seq<u8>, ch: CompressionHeaderRecord, m: int) -> bool {
    decode_itf8_spec(s) matches Some((ntv, kt)) && (((ntv as i32) == ch.tag_encodings@.len() && (
    ntv as i32) >= 0) && tag_entries_match(s.skip(kt), ch.tag_encodings@, m - kt))
}

/// Whether the count-prefixed data-series encoding map of `ch`, then its
/// tag encoding map, stand at the head of `s`, occupying `m` bytes.
pub open spec fn series_map_matches(s: Seq<u8>, ch: CompressionHeaderRecord, m: int) -> bool {
    decode_itf8_spec(s) matches Some((nsv, ks)) && (((nsv as i32) == ch.data_series@.len() && (
    nsv as i32) >= 0) && (exists|kser: int|
        {
            &&& 0 <= kser
            &&& #[trigger] series_entries_match(s.skip(ks), ch.data_series@, kser)
            &&& tag_map_matches(s.skip(ks + kser), ch, m - ks - kser)
        }))
}

/// Whether `ch` is the record that stands at the head of `s`, occupying
/// `n` bytes: the preservation map, then the count-prefixed data-series
/// encoding map, then the count-prefixed tag encoding map.
#[verifier::opaque]
pub open spec fn record_matches(s: Seq<u8>, ch: CompressionHeaderRecord, n: int) -> bool {
    parse_preservation(s) matches Ok((pres, kp)) && (ch.preservation@ == pres
        && series_map_matches(s.skip(kp), ch, n - kp))
}

/// Reads a compression header record from `src` at `pos`: the
/// preservation map, then the count-prefixed data-series encoding map,
/// then the count-prefixed tag encoding map. Returns the record and the
/// position of the first byte after it.
#[verifier::rlimit(100)]
#[verifier::spinoff_prover]
pub fn read_compression_header_record(src: &[u8], pos: usize) -> (r: Result<
    (CompressionHeaderRecord, usize),
    Error,
>)
    requires
        pos <= src@.len(),
    ensures
        match r {
            Ok((ch, n)) => {
                &&& pos < n <= src@.len()
                &&& record_parse_len(src@.skip(pos as int)) == Ok::<_, Error>((n - pos) as int)
                &&& record_matches(src@.skip(pos as int), ch, n - pos)
            },
            Err(e) => record_parse_len(src@.skip(pos as int)) == Err::<int, _>(e),
        },
{
    let ghost sp = src@.skip(pos as int);
    let (preservation, p1) = match read_preservation(src, pos) {
        Ok(v) => v,
        Err(e) => {
            return Err(e);
        },
    };
    proof {
        assert(sp.skip(p1 - pos) =~= src@.skip(p1 as int));
    }
    let ghost count_at = p1 as int;
    let (n_series, p2) = match decode_itf8(src, p1) {
        Ok(v) => v,
        Err(e) => {
            return Err(e);
        },
    };
    proof {
        lemma_i32_cast_id(n_series);
    }
    if n_series < 0 {
        return Err(Error::InvalidSize);
    }
    let ghost series_at = p2 as int;
    let mut data_series: Vec<DataSeriesEncoding> = Vec::new();
    let mut p = p2;
    let mut i: i32 = 0;
    proof {
        assert(src@.skip(series_at).skip(0) =~= src@.skip(series_at));
        assert(series_entries_match(src@.skip(series_at), data_series@, 0));
        assert(src@.skip(count_at).skip(p2 - p1) =~= src@.skip(series_at));
    }
    while i < n_series
        invariant
            0 <= i <= n_series,
            pos <= p1 <= p2 <= p <= src@.len(),
            count_at == p1 as int,
            series_at == p2 as int,
            data_series@.len() == i,
            series_entries_match(src@.skip(series_at), data_series@, p - p2),
            ({
                let cont = series_entries_len(src@.skip(p as int), (n_series - i) as nat);
                match cont {
                    Err(e) => series_map_len(src@.skip(count_at)) == Err::<int, Error>(e),
                    Ok(m) => series_map_len(src@.skip(count_at)) == Ok::<_, Error>(
                        (p - series_at) + (p2 - p1) + m,
                    ),
                }
            }),
            parse_preservation(src@.skip(pos as int)) is Ok,
            parse_preservation(src@.skip(pos as int))->Ok_0.1 == count_at - pos,
            src@.skip(pos as int).skip(count_at - pos) == src@.skip(count_at),
        decreases n_series - i,
    {
        if src.len() - p < 2 {
            proof {
                assert(record_parse_len(src@.skip(pos as int)) == Err::<int, Error>(
                    Error::UnexpectedEof,
                ));
            }
            return Err(Error::UnexpectedEof);
        }
        let s0b = src[p];
        let s1b = src[p + 1];
        proof {
            assert(src@.skip(p as int)[0] == src@[p as int]);
            assert(src@.skip(p as int)[1] == src@[p + 1]);
            assert(src@.skip(p as int).skip(2) =~= src@.skip(p + 2));
        }
        let (encoding, p3) = match read_encoding(src, p + 2) {
            Ok(v) => v,
            Err(e) => {
                proof {
                    assert(record_parse_len(src@.skip(pos as int)) == Err::<int, Error>(e));
                }
                return Err(e);
            },
        };
        let entry = DataSeriesEncoding { s0: s0b, s1: s1b, encoding };
        proof {
            assert(series_entry_matches(src@.skip(p as int), entry, p3 - p));
            assert(src@.skip(series_at).skip(p - p2) =~= src@.skip(p as int));
            lemma_series_entries_snoc(
                src@.skip(series_at),
                data_series@,
                p - p2,
                &entry,
                p3 - p,
            );
            assert(src@.skip(p as int).skip(p3 - p) =~= src@.skip(p3 as int));
        }
        data_series.push(entry);
        p = p3;
        i = i + 1;
    }
    let ghost kser_witness = p as int - series_at;
    proof {
        assert(series_entries_len(src@.skip(p as int), 0) == Ok::<_, Error>(0int));
        assert(series_map_len(src@.skip(count_at)) == Ok::<_, Error>((p - count_at) as int));
        assert(sp.skip(p - pos) =~= src@.skip(p as int));
    }
    let (n_tags, p4) = match decode_itf8(src, p) {
        Ok(v) => v,
        Err(e) => {
            proof {
                assert(record_parse_len(sp) == Err::<int, Error>(e));
            }
            return Err(e);
        },
    };
    proof {
        lemma_i32_cast_id(n_tags);
    }
    if n_tags < 0 {
        proof {
            assert(record_parse_len(sp) == Err::<int, Error>(Error::InvalidSize));
        }
        return Err(Error::InvalidSize);
    }
    let ghost tagc_at = p as int;
    let ghost tags_at = p4 as int;
    let mut tag_encodings: Vec<TagEncoding> = Vec::new();
    let mut q = p4;
    let mut j: i32 = 0;
    proof {
        assert(src@.skip(tags_at).skip(0) =~= src@.skip(tags_at));
        assert(tag_entries_match(src@.skip(tags_at), tag_encodings@, 0));
        assert(src@.skip(tagc_at).skip(p4 - p) =~= src@.skip(tags_at));
        assert(src@.skip(pos as int).skip(tagc_at - pos) =~= src@.skip(tagc_at));
    }
    while j < n_tags
        invariant
            0 <= j <= n_tags,
            pos < p4 <= q <= src@.len(),
            tagc_at < p4 as int,
            tags_at == p4 as int,
            tag_encodings@.len() == j,
            tag_entries_match(src@.skip(tags_at), tag_encodings@, q - p4),
            ({
                let cont = tag_entries_len(src@.skip(q as int), (n_tags - j) as nat);
                match cont {
                    Err(e) => tag_map_len(src@.skip(tagc_at)) == Err::<int, Error>(e),
                    Ok(m) => tag_map_len(src@.skip(tagc_at)) == Ok::<_, Error>(
                        (q - tagc_at) + m,
                    ),
                }
            }),
            parse_preservation(src@.skip(pos as int)) is Ok,
            parse_preservation(src@.skip(pos as int))->Ok_0.1 == count_at - pos,
            src@.skip(pos as int).skip(count_at - pos) == src@.skip(count_at),
            count_at <= tagc_at,
            series_map_len(src@.skip(count_at)) == Ok::<_, Error>((tagc_at - count_at) as int),
            src@.skip(pos as int).skip(tagc_at - pos) == src@.skip(tagc_at),
        decreases n_tags - j,
    {
        let (key, q1) = match decode_itf8(src, q) {
            Ok(v) => v,
            Err(e) => {
                proof {
                    assert(record_parse_len(src@.skip(pos as int)) == Err::<int, Error>(e));
                }
                return Err(e);
            },
        };
        proof {
            lemma_i32_cast_id(key);
            assert(src@.skip(q as int).skip(q1 - q) =~= src@.skip(q1 as int));
        }
        let (encoding, q2) = match read_encoding(src, q1) {
            Ok(v) => v,
            Err(e) => {
                proof {
                    assert(record_parse_len(src@.skip(pos as int)) == Err::<int, Error>(e));
                }
                return Err(e);
            },
        };
        let entry = TagEncoding { key, encoding };
        proof {
            assert(tag_entry_matches(src@.skip(q as int), entry, q2 - q));
            assert(src@.skip(tags_at).skip(q - p4) =~= src@.skip(q as int));
            lemma_tag_entries_snoc(src@.skip(tags_at), tag_encodings@, q - p4, &entry, q2 - q);
            assert(src@.skip(q as int).skip(q2 - q) =~= src@.skip(q2 as int));
        }
        tag_encodings.push(entry);
        q = q2;
        j = j + 1;
    }
    let record = CompressionHeaderRecord { preservation, data_series, tag_encodings };
    proof {
        assert(tag_entries_len(src@.skip(q as int), 0) == Ok::<_, Error>(0int));
        assert(record_matches(sp, record, q - pos)) by {
            reveal(record_matches);
            let kp = parse_preservation(sp)->Ok_0.1;
            let sm = sp.skip(kp);
            assert(sm =~= src@.skip(p1 as int));
            let ks = decode_itf8_spec(sm)->Some_0.1;
            assert(sm.skip(ks) =~= src@.skip(p2 as int));
            assert(series_entries_match(sm.skip(ks), record.data_series@, kser_witness));
            let tm = sm.skip(ks + kser_witness);
            assert(tm =~= src@.skip(p as int));
            let kt = decode_itf8_spec(tm)->Some_0.1;
            assert(tm.skip(kt) =~= src@.skip(p4 as int));
            assert(tag_entries_match(
                tm.skip(kt),
                record.tag_encodings@,
                ((q - pos) - kp - ks - kser_witness) - kt,
            ));
            assert(tag_map_matches(tm, record, (q - pos) - kp - ks - kser_witness));
            assert(series_map_matches(sm, record, (q - pos) - kp));
        }
        assert(tag_map_len(src@.skip(tagc_at)) == Ok::<_, Error>((q - tagc_at) as int));
        assert(record_parse_len(sp) == Ok::<_, Error>((q - pos) as int));
    }
    Ok((record, q))
}

/// Round-trip law for an encoding descriptor: its wire form, whatever
/// follows it in the stream, reads back as the encoding itself and
/// occupies exactly its bytes.
#[verifier::rlimit(100)]
#[verifier::spinoff_prover]
pub proof fn lemma_encoding_round_trip(e: Encoding, rest: Seq<u8>)
    requires
        encoding_wf(e),
    ensures
        parse_encoding_len(encoding_bytes(e) + rest) == Ok::<_, Error>(
            encoding_bytes(e).len() as int,
        ),
        encoding_matches(encoding_bytes(e) + rest, e, encoding_bytes(e).len() as int),
    decreases e,
{
    let enc = encoding_bytes(e);
    let s = enc + rest;
    assert(s[0] == codec_id(e));
    match e {
        Encoding::External(id) => {
            crate::cram::num::lemma_itf8_round_trip(id, rest);
            assert(s.skip(1) =~= itf8_bytes(id as u32) + rest);
            lemma_i32_cast_id(id);
        },
        Encoding::Golomb(a, b) => {
            lemma_two_itf8_round_trip(a, b, rest);
            assert(s.skip(1) =~= (itf8_bytes(a as u32) + itf8_bytes(b as u32)) + rest);
            assert(itf8_bytes(a as u32) + itf8_bytes(b as u32) + rest =~= (itf8_bytes(a as u32)
                + itf8_bytes(b as u32)) + rest);
        },
        Encoding::Huffman(alphabet, lens) => {
            let ab = counted_itf8_bytes(alphabet@);
            let lb = counted_itf8_bytes(lens@);
            crate::cram::container::lemma_itf8_array_counted_round_trip(alphabet@, lb + rest);
            assert(s.skip(1) =~= ab + (lb + rest));
            assert((itf8_bytes((alphabet@.len() as i32) as u32) + crate::cram::container::itf8_array_bytes(
                alphabet@,
            )) + (lb + rest) =~= ab + (lb + rest));
            crate::cram::container::lemma_itf8_array_counted_round_trip(lens@, rest);
            assert(s.skip(1).skip(ab.len() as int) =~= lb + rest);
            assert((itf8_bytes((lens@.len() as i32) as u32) + crate::cram::container::itf8_array_bytes(
                lens@,
            )) + rest =~= lb + rest);
        },
        Encoding::ByteArrayLen(len_enc, val_enc) => {
            let le = encoding_bytes(*len_enc);
            let ve = encoding_bytes(*val_enc);
            lemma_encoding_round_trip(*len_enc, ve + rest);
            assert(s.skip(1) =~= le + (ve + rest));
            lemma_encoding_round_trip(*val_enc, rest);
            assert(s.skip(1).skip(le.len() as int) =~= ve + rest);
            lemma_encoding_bytes_len(*len_enc);
            lemma_encoding_bytes_len(*val_enc);
        },
        Encoding::ByteArrayStop(stop, id) => {
            crate::cram::num::lemma_itf8_round_trip(id, rest);
            assert(s.skip(1)[0] == stop);
            assert(s.skip(1).skip(1) =~= itf8_bytes(id as u32) + rest);
            lemma_i32_cast_id(id);
        },
        Encoding::Beta(a, b) => {
            lemma_two_itf8_round_trip(a, b, rest);
            assert(s.skip(1) =~= (itf8_bytes(a as u32) + itf8_bytes(b as u32)) + rest);
        },
        Encoding::Subexponential(a, b) => {
            lemma_two_itf8_round_trip(a, b, rest);
            assert(s.skip(1) =~= (itf8_bytes(a as u32) + itf8_bytes(b as u32)) + rest);
        },
        Encoding::Gamma(a) => {
            crate::cram::num::lemma_itf8_round_trip(a, rest);
            assert(s.skip(1) =~= itf8_bytes(a as u32) + rest);
            lemma_i32_cast_id(a);
        },
    }
}

/// An encoding descriptor occupies at least its codec id byte.
pub proof fn lemma_encoding_bytes_len(e: Encoding)
    ensures
        encoding_bytes(e).len() >= 1,
{
}

/// Round-trip law for two consecutive 32-bit values.
proof fn lemma_two_itf8_round_trip(a: i32, b: i32, rest: Seq<u8>)
    ensures
        parse_two_itf8((itf8_bytes(a as u32) + itf8_bytes(b as u32)) + rest) == Ok::<_, Error>(
            (a, b, (itf8_bytes(a as u32) + itf8_bytes(b as u32)).len() as int),
        ),
{
    let ab = itf8_bytes(a as u32);
    let bb = itf8_bytes(b as u32);
    let s = (ab + bb) + rest;
    crate::cram::num::lemma_itf8_round_trip(a, bb + rest);
    assert(s =~= ab + (bb + rest));
    crate::cram::num::lemma_itf8_round_trip(b, rest);
    assert(s.skip(ab.len() as int) =~= bb + rest);
    lemma_i32_cast_id(a);
    lemma_i32_cast_id(b);
}

} // verus!