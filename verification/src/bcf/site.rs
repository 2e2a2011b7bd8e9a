//! Writing one site record in the binary variant-call form: fixed
//! little-endian fields, then length-tagged typed values.
//!
//! Strings and filter names are written as indices into the header's
//! string maps; a name absent from its map is refused, never guessed.

use vstd::prelude::*;

use crate::cram::num::{le16_bytes, le32_bytes, write_u16_le, write_u32_le};
use crate::text::str_eq;
use crate::vcf::info::Info;
use crate::vcf::record::{Chromosome, Filters, Record};
use crate::vcf::sample_value::Value;

verus! {

/// The bit pattern of the missing quality score: a quiet not-a-number
/// the format reserves.
pub const MISSING_FLOAT_BITS: u32 = 0x7f800001;

/// An error when a site record cannot be written.
#[derive(Clone, Debug, PartialEq)]
pub enum WriteError {
    /// The chromosome's name is not in the contig string map.
    ChromosomeNotInMap,
    /// The chromosome is symbolic, which this writer does not carry.
    SymbolicChromosome,
    /// A filter name is not in the string map.
    FilterNotInMap,
    /// A count field does not fit its wire width.
    CountTooLarge,
    /// A string holds a character outside the ASCII range.
    NonAsciiString,
    /// The record's span does not fit a 32-bit length.
    InvalidSpan,
    /// An info key is not in the string map.
    InfoKeyNotInMap,
    /// An info value is not a flag, an integer, or a string.
    UnsupportedInfoValue,
}

/// An ordered list of unique names, looked up by position.
#[derive(Clone, Debug, PartialEq)]
pub struct StringMap {
    entries: Vec<String>,
}

/// The position of the first occurrence of `name`, if any.
pub open spec fn find_name(s: Seq<Seq<char>>, name: Seq<char>) -> Option<int>
    decreases s.len(),
{
    if s.len() == 0 {
        None
    } else if s[0] == name {
        Some(0)
    } else {
        match find_name(s.skip(1), name) {
            None => None,
            Some(i) => Some(i + 1),
        }
    }
}

impl View for StringMap {
    type V = Seq<Seq<char>>;

    closed spec fn view(&self) -> Seq<Seq<char>> {
        self.entries@.map_values(|e: String| e@)
    }
}

impl StringMap {
    /// An empty map.
    pub fn new() -> (r: StringMap)
        ensures
            r@.len() == 0,
    {
        let r = StringMap { entries: Vec::new() };
        proof {
            assert(r@ =~= Seq::<Seq<char>>::empty());
        }
        r
    }

    /// Appends a name.
    pub fn push(&mut self, name: String)
        ensures
            final(self)@ == old(self)@.push(name@),
    {
        self.entries.push(name);
        proof {
            assert(self@ =~= old(self)@.push(self.entries@.last()@));
        }
    }

    /// The number of names.
    pub fn len(&self) -> (r: usize)
        ensures
            r == self@.len(),
    {
        self.entries.len()
    }

    /// The position of `name`, if it is in the map.
    pub fn get_index_of(&self, name: &str) -> (r: Option<usize>)
        ensures
            match r {
                Some(i) => find_name(self@, name@) == Some(i as int),
                None => find_name(self@, name@) is None,
            },
    {
        proof {
            lemma_find_name(self@, name@);
        }
        let mut i: usize = 0;
        while i < self.entries.len()
            invariant
                i <= self@.len(),
                self@.len() == self.entries@.len(),
                self@ == self.entries@.map_values(|e: String| e@),
                forall|j: int| 0 <= j < i ==> #[trigger] self@[j] != name@,
                match find_name(self@, name@) {
                    None => forall|j: int| 0 <= j < self@.len() ==> #[trigger] self@[j] != name@,
                    Some(k) => 0 <= k < self@.len() && self@[k] == name@ && forall|j: int|
                        0 <= j < k ==> #[trigger] self@[j] != name@,
                },
            decreases self@.len() - i,
        {
            proof {
                assert(self@[i as int] == self.entries@[i as int]@);
            }
            if str_eq(self.entries[i].as_str(), name) {
                proof {
                    if find_name(self@, name@) is Some {
                        let k = find_name(self@, name@)->Some_0;
                        if k < i {
                            assert(self@[k] == name@);
                        } else if k > i {
                            assert(self@[i as int] != name@);
                        }
                    }
                }
                return Some(i);
            }
            i += 1;
        }
        proof {
            if find_name(self@, name@) is Some {
                let k = find_name(self@, name@)->Some_0;
                assert(self@[k] != name@);
            }
        }
        None
    }
}

/// What found positions mean: the name stands there and nowhere earlier.
pub proof fn lemma_find_name(s: Seq<Seq<char>>, name: Seq<char>)
    ensures
        match find_name(s, name) {
            None => forall|i: int| 0 <= i < s.len() ==> #[trigger] s[i] != name,
            Some(i) => {
                &&& 0 <= i < s.len()
                &&& s[i] == name
                &&& forall|j: int| 0 <= j < i ==> #[trigger] s[j] != name
            },
        },
    decreases s.len(),
{
    if s.len() == 0 {
    } else if s[0] == name {
    } else {
        lemma_find_name(s.skip(1), name);
        match find_name(s.skip(1), name) {
            None => {
                assert forall|i: int| 0 <= i < s.len() implies #[trigger] s[i] != name by {
                    if i > 0 {
                        assert(s.skip(1)[i - 1] == s[i]);
                    }
                }
            },
            Some(j) => {
                assert(s.skip(1)[j] == s[j + 1]);
                assert forall|k: int| 0 <= k < j + 1 implies #[trigger] s[k] != name by {
                    if k > 0 {
                        assert(s.skip(1)[k - 1] == s[k]);
                    }
                }
            },
        }
    }
}

/// The bytes of an ASCII string's characters.
pub open spec fn ascii_bytes(s: Seq<char>) -> Seq<u8> {
    s.map_values(|c: char| (c as u8))
}

/// Whether a character is in the ASCII range.
pub open spec fn is_ascii_char(c: char) -> bool {
    (c as int) < 128
}

/// Whether every character of `s` is in the ASCII range.
pub open spec fn all_ascii(s: Seq<char>) -> bool {
    forall|i: int| 0 <= i < s.len() ==> is_ascii_char(#[trigger] s[i])
}

/// The wire form of a typed 32-bit integer value: the narrowest of the
/// 8-, 16- and 32-bit forms that carries the value outside its reserved
/// range, little-endian.
pub open spec fn typed_int_bytes(n: i32) -> Seq<u8> {
    if -120 <= n <= 127 {
        seq![0x11u8, (n as u8)]
    } else if -32000 <= n <= 32767 {
        seq![0x12u8] + le16_bytes(n as u16)
    } else {
        seq![0x13u8] + le32_bytes(n as u32)
    }
}

/// Appends a typed integer value.
pub fn write_typed_int(buf: &mut Vec<u8>, n: i32)
    ensures
        final(buf)@ == old(buf)@ + typed_int_bytes(n),
{
    if n >= -120 && n <= 127 {
        buf.push(0x11);
        buf.push(#[verifier::truncate] (n as u8));
        proof {
            assert(buf@ =~= old(buf)@ + typed_int_bytes(n));
        }
    } else if n >= -32000 && n <= 32767 {
        buf.push(0x12);
        write_u16_le(buf, #[verifier::truncate] (n as u16));
        proof {
            assert(buf@ =~= old(buf)@ + typed_int_bytes(n));
        }
    } else {
        buf.push(0x13);
        write_u32_le(buf, #[verifier::truncate] (n as u32));
        proof {
            assert(buf@ =~= old(buf)@ + typed_int_bytes(n));
        }
    }
}

/// The wire form of a typed string value: a type byte carrying the
/// length, then the characters; a length of fifteen or more goes to the
/// extended form, the escape type byte followed by the length as a typed
/// integer.
pub open spec fn typed_string_bytes(s: Seq<char>) -> Seq<u8> {
    if s.len() < 15 {
        seq![(((s.len() as u8) << 4) | 0x07) as u8] + ascii_bytes(s)
    } else {
        seq![0xf7u8] + typed_int_bytes(s.len() as i32) + ascii_bytes(s)
    }
}

/// The wire form of the missing string value.
pub open spec fn missing_string_bytes() -> Seq<u8> {
    seq![0x07u8]
}

/// Whether a text can stand as a typed string value: every character in
/// the ASCII range, and a length that fits the 32-bit count.
pub open spec fn string_writable(s: Seq<char>) -> bool {
    &&& all_ascii(s)
    &&& s.len() <= 0x7fffffff
}

/// The characters of `s` as bytes, where they are all in the ASCII range.
fn ascii_bytes_of(s: &str) -> (r: Option<Vec<u8>>)
    ensures
        r is Some <==> all_ascii(s@),
        r matches Some(v) ==> v@ == ascii_bytes(s@),
{
    let len = s.unicode_len();
    let mut bytes: Vec<u8> = Vec::new();
    let mut i: usize = 0;
    while i < len
        invariant
            i <= len,
            len == s@.len(),
            bytes@.len() == i,
            forall|j: int| 0 <= j < i ==> is_ascii_char(#[trigger] s@[j]),
            forall|j: int| 0 <= j < i ==> #[trigger] bytes@[j] == s@[j] as u8,
        decreases len - i,
    {
        let c = s.get_char(i);
        let cu = c as u32;
        if cu >= 128 {
            proof {
                assert(!is_ascii_char(s@[i as int]));
            }
            return None;
        }
        bytes.push(cu as u8);
        proof {
            let cj = s@[i as int];
            assert((cu as u8) == (cj as u8)) by {
                assert(cu == cj as u32);
            }
        }
        i += 1;
    }
    proof {
        assert(bytes@ =~= ascii_bytes(s@));
    }
    Some(bytes)
}

/// Appends a typed string value. A string outside the ASCII range, or
/// longer than the 32-bit count carries, is refused with the buffer left
/// as it was.
pub fn write_typed_string(buf: &mut Vec<u8>, s: &str) -> (r: Result<(), WriteError>)
    ensures
        r is Ok <==> string_writable(s@),
        match r {
            Ok(()) => final(buf)@ == old(buf)@ + typed_string_bytes(s@),
            Err(e) => {
                &&& (e == WriteError::CountTooLarge || e == WriteError::NonAsciiString)
                &&& final(buf)@ == old(buf)@
            },
        },
{
    let len = s.unicode_len();
    if len > 0x7fffffff {
        return Err(WriteError::CountTooLarge);
    }
    let bytes = match ascii_bytes_of(s) {
        Some(v) => v,
        None => {
            return Err(WriteError::NonAsciiString);
        },
    };
    if len < 15 {
        buf.push(((len as u8) << 4) | 0x07);
    } else {
        buf.push(0xf7);
        write_typed_int(buf, len as i32);
    }
    crate::cram::num::append_bytes(buf, bytes.as_slice());
    proof {
        assert(buf@ =~= old(buf)@ + typed_string_bytes(s@));
    }
    Ok(())
}

/// The wire form of a list of string map indices: empty lists as the
/// missing byte, others as a type byte carrying the count, then the
/// indices as single bytes. This writer carries up to fourteen indices,
/// each under 128.
pub open spec fn indices_bytes(idxs: Seq<u8>) -> Seq<u8> {
    if idxs.len() == 0 {
        seq![0x00u8]
    } else {
        seq![(((idxs.len() as u8) << 4) | 0x01) as u8] + idxs
    }
}

/// Whether a list of string map indices can stand in this writer's
/// single-byte form: fewer than fifteen of them, each under 128.
pub open spec fn indices_writable(idxs: Seq<usize>) -> bool {
    &&& idxs.len() < 15
    &&& forall|j: int| 0 <= j < idxs.len() ==> #[trigger] idxs[j] < 128
}

/// Appends string map indices. More than fourteen indices, or one of 128
/// or more, is refused with the buffer left as it was: the format's
/// wider index forms are not carried here.
pub fn write_string_map_indices(buf: &mut Vec<u8>, indices: &Vec<usize>) -> (r: Result<
    (),
    WriteError,
>)
    ensures
        r is Ok <==> indices_writable(indices@),
        match r {
            Ok(()) => final(buf)@ == old(buf)@ + indices_bytes(
                indices@.map_values(|x: usize| x as u8),
            ),
            Err(e) => {
                &&& e == WriteError::CountTooLarge
                &&& final(buf)@ == old(buf)@
            },
        },
{
    let n = indices.len();
    if n >= 15 {
        return Err(WriteError::CountTooLarge);
    }
    let mut i: usize = 0;
    while i < n
        invariant
            i <= n,
            n == indices@.len(),
            forall|j: int| 0 <= j < i ==> #[trigger] indices@[j] < 128,
        decreases n - i,
    {
        if indices[i] >= 128 {
            proof {
                assert(!(indices@[i as int] < 128));
            }
            return Err(WriteError::CountTooLarge);
        }
        i += 1;
    }
    if n == 0 {
        buf.push(0x00);
        proof {
            assert(indices@.map_values(|x: usize| x as u8) =~= Seq::<u8>::empty());
            assert(buf@ =~= old(buf)@ + indices_bytes(Seq::<u8>::empty()));
        }
        return Ok(());
    }
    buf.push(((n as u8) << 4) | 0x01);
    let ghost prefix = buf@;
    let mut i: usize = 0;
    while i < n
        invariant
            i <= n,
            n == indices@.len(),
            n < 15,
            forall|j: int| 0 <= j < n ==> #[trigger] indices@[j] < 128,
            buf@ == prefix + indices@.map_values(|x: usize| x as u8).take(i as int),
        decreases n - i,
    {
        buf.push(indices[i] as u8);
        proof {
            let m = indices@.map_values(|x: usize| x as u8);
            assert(m.take(i + 1) =~= m.take(i as int).push(m[i as int]));
        }
        i += 1;
    }
    proof {
        let m = indices@.map_values(|x: usize| x as u8);
        assert(m.take(n as int) =~= m);
        assert(buf@ =~= old(buf)@ + indices_bytes(m));
    }
    Ok(())
}

/// Appends the chromosome field: the chromosome's position in the contig
/// string map, little-endian. A name absent from the map, one too far
/// into it for the field, or a symbolic chromosome, is refused with the
/// buffer left as it was.
pub fn write_chrom(buf: &mut Vec<u8>, contig_string_map: &StringMap, chromosome: &Chromosome) -> (r:
    Result<(), WriteError>)
    ensures
        r is Ok <==> (chromosome matches Chromosome::Name(nm) && (find_name(
            contig_string_map@,
            nm@,
        ) matches Some(idx) && idx <= 0xffffffff)),
        match r {
            Ok(()) => match *chromosome {
                Chromosome::Name(n) => final(buf)@ == old(buf)@ + le32_bytes(
                    find_name(contig_string_map@, n@)->Some_0 as u32,
                ),
                Chromosome::Symbol(_) => false,
            },
            Err(e) => {
                &&& final(buf)@ == old(buf)@
                &&& (e == WriteError::ChromosomeNotInMap || e == WriteError::CountTooLarge || e
                    == WriteError::SymbolicChromosome)
            },
        },
{
    match chromosome {
        Chromosome::Name(name) => {
            let i = match contig_string_map.get_index_of(name.as_str()) {
                Some(i) => i,
                None => {
                    return Err(WriteError::ChromosomeNotInMap);
                },
            };
            proof {
                lemma_find_name(contig_string_map@, name@);
            }
            if i > 0xffffffff {
                return Err(WriteError::CountTooLarge);
            }
            write_u32_le(buf, i as u32);
            Ok(())
        },
        Chromosome::Symbol(_) => Err(WriteError::SymbolicChromosome),
    }
}

/// Appends the position field: the 1-based position less one,
/// little-endian.
pub fn write_pos(buf: &mut Vec<u8>, position: i32)
    requires
        position >= 0,
    ensures
        final(buf)@ == old(buf)@ + le32_bytes((position - 1) as u32),
{
    let p = position.wrapping_sub(1);
    proof {
        let x = position;
        assert(x >= 0 ==> x.wrapping_sub(1) as u32 == ((x - 1) as u32)) by (bit_vector);
        assert(p as u32 == (position - 1) as u32);
    }
    write_u32_le(buf, #[verifier::truncate] (p as u32));
    proof {
        assert((p as u32) == ((position - 1) as u32));
    }
}

/// Whether a record length is representable from its start and end
/// positions: the difference and the length both fit 32 bits.
pub open spec fn rlen_writable(start: i32, end: i32) -> bool {
    &&& -0x80000000 <= start - end <= 0x7fffffff
    &&& -0x80000000 <= start - end + 1 <= 0x7fffffff
}

/// Appends the record length field, little-endian, from the record's
/// start and end positions.
pub fn write_rlen(buf: &mut Vec<u8>, start: i32, end: i32) -> (r: Result<(), WriteError>)
    ensures
        r is Ok <==> rlen_writable(start, end),
        match r {
            Ok(()) => final(buf)@ == old(buf)@ + le32_bytes(((start - end + 1) as i32) as u32),
            Err(e) => {
                &&& e == WriteError::InvalidSpan
                &&& final(buf)@ == old(buf)@
            },
        },
{
    let d = match start.checked_sub(end) {
        Some(d) => d,
        None => {
            return Err(WriteError::InvalidSpan);
        },
    };
    let rlen = match d.checked_add(1) {
        Some(r) => r,
        None => {
            return Err(WriteError::InvalidSpan);
        },
    };
    write_u32_le(buf, #[verifier::truncate] (rlen as u32));
    Ok(())
}

/// Appends the quality score field: the score's bit pattern, or the
/// reserved missing pattern, little-endian.
pub fn write_qual(buf: &mut Vec<u8>, quality_score_bits: Option<u32>)
    ensures
        final(buf)@ == old(buf)@ + le32_bytes(
            match quality_score_bits {
                Some(bits) => bits,
                None => MISSING_FLOAT_BITS,
            },
        ),
{
    match quality_score_bits {
        Some(bits) => write_u32_le(buf, bits),
        None => write_u32_le(buf, MISSING_FLOAT_BITS),
    }
}

/// Appends the allele count field: one for the reference plus the
/// alternate count, little-endian. A count that does not fit sixteen
/// bits is refused.
pub fn write_n_allele(buf: &mut Vec<u8>, alternate_base_count: usize) -> (r: Result<
    (),
    WriteError,
>)
    ensures
        r is Ok <==> 1 + alternate_base_count <= 0xffff,
        match r {
            Ok(()) => final(buf)@ == old(buf)@ + le16_bytes((1 + alternate_base_count) as u16),
            Err(e) => {
                &&& e == WriteError::CountTooLarge
                &&& final(buf)@ == old(buf)@
            },
        },
{
    if alternate_base_count > 0xffff - 1 {
        return Err(WriteError::CountTooLarge);
    }
    let n = 1 + alternate_base_count;
    write_u16_le(buf, n as u16);
    Ok(())
}

/// Appends the combined format-and-sample count field: the format count
/// in the high byte, the sample count in the low three, little-endian.
/// A sample count over the three-byte range, or a format count over one
/// byte, is refused.
pub fn write_n_fmt_sample(buf: &mut Vec<u8>, sample_count: usize, format_count: usize) -> (r:
    Result<(), WriteError>)
    ensures
        r is Ok <==> sample_count <= 0xffffff && format_count <= 0xff,
        match r {
            Ok(()) => final(buf)@ == old(buf)@ + le32_bytes(
                (((format_count as u32) << 24) | (sample_count as u32)) as u32,
            ),
            Err(e) => {
                &&& e == WriteError::CountTooLarge
                &&& final(buf)@ == old(buf)@
            },
        },
{
    if sample_count > 0xffffff {
        return Err(WriteError::CountTooLarge);
    }
    if format_count > 0xff {
        return Err(WriteError::CountTooLarge);
    }
    let n_fmt_sample: u32 = ((format_count as u32) << 24) | (sample_count as u32);
    write_u32_le(buf, n_fmt_sample);
    Ok(())
}

/// The record identifiers joined with semicolons.
pub open spec fn ids_text(ids: Seq<String>) -> Seq<char>
    decreases ids.len(),
{
    if ids.len() == 0 {
        seq![]
    } else if ids.len() == 1 {
        ids[0]@
    } else {
        ids_text(ids.drop_last()) + seq![';'] + ids.last()@
    }
}

/// Appends the identifiers field: the identifiers joined with
/// semicolons as one typed string, or the missing string value where
/// there are none.
pub fn write_id(buf: &mut Vec<u8>, ids: &Vec<String>) -> (r: Result<(), WriteError>)
    ensures
        r is Ok <==> ids@.len() == 0 || string_writable(ids_text(ids@)),
        match r {
            Ok(()) => (ids@.len() == 0 ==> final(buf)@ == old(buf)@ + missing_string_bytes()) && (
            ids@.len() > 0 ==> final(buf)@ == old(buf)@ + typed_string_bytes(ids_text(ids@))),
            Err(e) => {
                &&& (e == WriteError::CountTooLarge || e == WriteError::NonAsciiString)
                &&& final(buf)@ == old(buf)@
            },
        },
{
    if ids.is_empty() {
        buf.push(0x07);
        proof {
            assert(buf@ =~= old(buf)@ + missing_string_bytes());
        }
        return Ok(());
    }
    let mut text = String::new();
    let mut i: usize = 0;
    proof {
        assert(text@ =~= ids_text(ids@.take(0)));
    }
    while i < ids.len()
        invariant
            i <= ids@.len(),
            text@ == ids_text(ids@.take(i as int)),
        decreases ids@.len() - i,
    {
        if i > 0 {
            text.push(';');
        }
        text.append(ids[i].as_str());
        proof {
            assert(ids@.take(i + 1).drop_last() =~= ids@.take(i as int));
            assert(ids@.take(i + 1).last() == ids@[i as int]);
            assert(text@ =~= ids_text(ids@.take(i + 1)));
        }
        i += 1;
    }
    proof {
        assert(ids@.take(ids@.len() as int) =~= ids@);
    }
    write_typed_string(buf, text.as_str())
}

/// Whether the reference and every alternate base string can stand as
/// typed string values.
pub open spec fn ref_alt_writable(reference_bases: Seq<char>, alts: Seq<String>) -> bool {
    &&& string_writable(reference_bases)
    &&& forall|j: int| 0 <= j < alts.len() ==> string_writable((#[trigger] alts[j])@)
}

/// Appends the reference and alternate bases: each as one typed string,
/// the reference first. A string that cannot stand is refused with the
/// buffer left as it was.
pub fn write_ref_alt(buf: &mut Vec<u8>, reference_bases: &str, alternate_bases: &Vec<String>) -> (r:
    Result<(), WriteError>)
    ensures
        r is Ok <==> ref_alt_writable(reference_bases@, alternate_bases@),
        match r {
            Ok(()) => final(buf)@ == old(buf)@ + typed_string_bytes(reference_bases@)
                + alts_bytes(alternate_bases@),
            Err(e) => {
                &&& (e == WriteError::CountTooLarge || e == WriteError::NonAsciiString)
                &&& final(buf)@ == old(buf)@
            },
        },
{
    let mut out: Vec<u8> = Vec::new();
    match write_typed_string(&mut out, reference_bases) {
        Ok(()) => (),
        Err(e) => {
            return Err(e);
        },
    }
    let ghost prefix = out@;
    let mut i: usize = 0;
    proof {
        assert(out@ =~= prefix + alts_bytes(alternate_bases@.take(0)));
    }
    while i < alternate_bases.len()
        invariant
            i <= alternate_bases@.len(),
            out@ == prefix + alts_bytes(alternate_bases@.take(i as int)),
            forall|j: int|
                0 <= j < i ==> string_writable((#[trigger] alternate_bases@[j])@),
        decreases alternate_bases@.len() - i,
    {
        match write_typed_string(&mut out, alternate_bases[i].as_str()) {
            Ok(()) => (),
            Err(e) => {
                proof {
                    assert(!string_writable(alternate_bases@[i as int]@));
                }
                return Err(e);
            },
        }
        proof {
            assert(alternate_bases@.take(i + 1).drop_last() =~= alternate_bases@.take(i as int));
            assert(alternate_bases@.take(i + 1).last() == alternate_bases@[i as int]);
            assert(out@ =~= prefix + alts_bytes(alternate_bases@.take(i + 1)));
        }
        i += 1;
    }
    crate::cram::num::append_bytes(buf, out.as_slice());
    proof {
        assert(alternate_bases@.take(alternate_bases@.len() as int) =~= alternate_bases@);
        assert(buf@ =~= old(buf)@ + typed_string_bytes(reference_bases@) + alts_bytes(
            alternate_bases@,
        ));
    }
    Ok(())
}

/// The concatenated typed strings of the alternate bases.
pub open spec fn alts_bytes(alts: Seq<String>) -> Seq<u8>
    decreases alts.len(),
{
    if alts.len() == 0 {
        seq![]
    } else {
        alts_bytes(alts.drop_last()) + typed_string_bytes(alts.last()@)
    }
}

/// Whether the filters can stand: each failed filter's name in the map,
/// few enough of them, each index small enough for the single-byte form.
pub open spec fn filters_writable(m: Seq<Seq<char>>, f: Option<Filters>) -> bool {
    match f {
        None => true,
        Some(Filters::Pass) => true,
        Some(Filters::Fail(ids)) => {
            &&& ids@.len() < 15
            &&& forall|j: int|
                0 <= j < ids@.len() ==> (find_name(m, (#[trigger] ids@[j])@) matches Some(idx)
                    && idx < 128)
        },
    }
}

/// Appends the filters field: no filters as an empty index list, a pass
/// as the index of the pass filter (the map's first name), and failures
/// as the indices of their names. A name absent from the map, or one the
/// single-byte index form cannot carry, is refused with the buffer left
/// as it was.
pub fn write_filter(buf: &mut Vec<u8>, string_string_map: &StringMap, filters: Option<&Filters>) -> (r: Result<(), WriteError>)
    ensures
        r is Ok <==> filters_writable(string_string_map@, match filters {
            None => None,
            Some(f) => Some(*f),
        }),
        r matches Err(e) ==> final(buf)@ == old(buf)@,
        match r {
            Ok(()) => match filters {
                None => final(buf)@ == old(buf)@ + indices_bytes(seq![]),
                Some(f) => match f {
                    Filters::Pass => final(buf)@ == old(buf)@ + indices_bytes(seq![0u8]),
                    Filters::Fail(ids) => {
                        &&& ids@.len() < 15
                        &&& (forall|j: int|
                            0 <= j < ids@.len() ==> find_name(
                                string_string_map@,
                                (#[trigger] ids@[j])@,
                            ) is Some)
                        &&& final(buf)@ == old(buf)@ + indices_bytes(
                            Seq::new(
                                ids@.len(),
                                |j: int|
                                    find_name(string_string_map@, ids@[j]@)->Some_0 as u8,
                            ),
                        )
                    },
                },
            },
            Err(e) => e == WriteError::FilterNotInMap || e == WriteError::CountTooLarge,
        },
{
    let indices: Vec<usize> = match filters {
        None => Vec::new(),
        Some(Filters::Pass) => {
            let mut v: Vec<usize> = Vec::new();
            v.push(0);
            v
        },
        Some(Filters::Fail(ids)) => {
            match collect_filter_indices(string_string_map, ids) {
                Ok(v) => v,
                Err(e) => {
                    return Err(e);
                },
            }
        },
    };
    let ghost gv = indices@;
    match write_string_map_indices(buf, &indices) {
        Ok(()) => {
            proof {
                match filters {
                    None => {
                        assert(gv.map_values(|x: usize| x as u8) =~= Seq::<u8>::empty());
                    },
                    Some(f) => match f {
                        Filters::Pass => {
                            assert(gv.map_values(|x: usize| x as u8) =~= seq![0u8]);
                        },
                        Filters::Fail(ids) => {
                            assert(gv.map_values(|x: usize| x as u8) =~= Seq::new(
                                ids@.len(),
                                |j: int|
                                    find_name(string_string_map@, ids@[j]@)->Some_0 as u8,
                            ));
                            assert forall|j: int|
                                0 <= j < ids@.len() implies (find_name(
                                string_string_map@,
                                (#[trigger] ids@[j])@,
                            ) matches Some(idx) && idx < 128) by {
                                assert(gv[j] == find_name(
                                    string_string_map@,
                                    ids@[j]@,
                                )->Some_0);
                                assert(gv[j] < 128);
                            }
                        },
                    },
                }
            }
            Ok(())
        },
        Err(e) => {
            proof {
                match filters {
                    None => {
                        assert(indices_writable(gv));
                    },
                    Some(f) => match f {
                        Filters::Pass => {
                            assert(gv[0] == 0);
                            assert(indices_writable(gv));
                        },
                        Filters::Fail(ids) => {
                            if gv.len() >= 15 {
                            } else {
                                let j = choose|j: int| 0 <= j < gv.len() && !(gv[j] < 128);
                                assert(gv[j] == find_name(
                                    string_string_map@,
                                    ids@[j]@,
                                )->Some_0);
                            }
                        },
                    },
                }
            }
            Err(e)
        },
    }
}

/// The positions of the failed filters' names in the string map; a name
/// absent from the map is refused.
fn collect_filter_indices(string_string_map: &StringMap, ids: &Vec<String>) -> (r: Result<
    Vec<usize>,
    WriteError,
>)
    ensures
        r is Ok <==> forall|j: int|
            0 <= j < ids@.len() ==> find_name(string_string_map@, (#[trigger] ids@[j])@) is Some,
        match r {
            Ok(v) => {
                &&& v@.len() == ids@.len()
                &&& forall|j: int|
                    0 <= j < ids@.len() ==> #[trigger] v@[j] == find_name(
                        string_string_map@,
                        ids@[j]@,
                    )->Some_0
            },
            Err(e) => e == WriteError::FilterNotInMap,
        },
{
    let mut v: Vec<usize> = Vec::new();
    let mut i: usize = 0;
    while i < ids.len()
        invariant
            i <= ids@.len(),
            v@.len() == i,
            forall|j: int|
                0 <= j < i ==> find_name(string_string_map@, (#[trigger] ids@[j])@) is Some,
            forall|j: int|
                0 <= j < i ==> #[trigger] v@[j] == find_name(
                    string_string_map@,
                    ids@[j]@,
                )->Some_0,
        decreases ids@.len() - i,
    {
        let idx = match string_string_map.get_index_of(ids[i].as_str()) {
            Some(idx) => idx,
            None => {
                return Err(WriteError::FilterNotInMap);
            },
        };
        v.push(idx);
        i += 1;
    }
    Ok(v)
}

/// The wire form of one info value: a flag as the missing value byte, an
/// integer as a typed integer, a string as a typed string.
pub open spec fn info_value_bytes(v: Option<Value>) -> Seq<u8> {
    match v {
        None => seq![0x00u8],
        Some(Value::Integer(n)) => typed_int_bytes(n),
        Some(Value::String(t)) => typed_string_bytes(t@),
        Some(_) => seq![],
    }
}

/// Whether an info value can stand on the wire: a flag, an integer, or a
/// string that a typed string value carries.
pub open spec fn info_value_writable(v: Option<Value>) -> bool {
    match v {
        None => true,
        Some(Value::Integer(_)) => true,
        Some(Value::String(t)) => string_writable(t@),
        Some(_) => false,
    }
}

/// The wire form of one info field: the key's position in the string map
/// as a typed integer, then the value.
pub open spec fn info_entry_bytes(m: Seq<Seq<char>>, e: (Seq<char>, Option<Value>)) -> Seq<u8> {
    typed_int_bytes(find_name(m, e.0)->Some_0 as i32) + info_value_bytes(e.1)
}

/// The concatenated wire forms of the info fields, in order.
pub open spec fn info_fields_bytes(
    m: Seq<Seq<char>>,
    es: Seq<(Seq<char>, Option<Value>)>,
) -> Seq<u8>
    decreases es.len(),
{
    if es.len() == 0 {
        seq![]
    } else {
        info_fields_bytes(m, es.drop_last()) + info_entry_bytes(m, es.last())
    }
}

/// Whether every info field can stand: its key in the string map at a
/// position a typed integer carries, its value a flag, an integer, or a
/// writable string.
pub open spec fn info_writable(m: Seq<Seq<char>>, es: Seq<(Seq<char>, Option<Value>)>) -> bool {
    forall|j: int|
        0 <= j < es.len() ==> ((find_name(m, (#[trigger] es[j]).0) matches Some(idx) && idx
            <= 0x7fffffff) && info_value_writable(es[j].1))
}

/// Appends the info fields: each key's string map position as a typed
/// integer, then its value. A key absent from the map, one too far into
/// it, or a value no typed form carries, is refused with the buffer left
/// as it was.
pub fn write_info(buf: &mut Vec<u8>, string_string_map: &StringMap, info: &Info) -> (r: Result<
    (),
    WriteError,
>)
    ensures
        r is Ok <==> info_writable(string_string_map@, info@),
        match r {
            Ok(()) => final(buf)@ == old(buf)@ + info_fields_bytes(string_string_map@, info@),
            Err(e) => {
                &&& (e == WriteError::InfoKeyNotInMap || e == WriteError::CountTooLarge || e
                    == WriteError::UnsupportedInfoValue || e == WriteError::NonAsciiString)
                &&& final(buf)@ == old(buf)@
            },
        },
{
    let mut out: Vec<u8> = Vec::new();
    let mut i: usize = 0;
    let n = info.len();
    proof {
        assert(info@.take(0) =~= Seq::<(Seq<char>, Option<Value>)>::empty());
        assert(out@ =~= info_fields_bytes(string_string_map@, info@.take(0)));
    }
    while i < n
        invariant
            i <= n,
            n == info@.len(),
            out@ == info_fields_bytes(string_string_map@, info@.take(i as int)),
            forall|j: int|
                0 <= j < i ==> ((find_name(string_string_map@, (#[trigger] info@[j]).0)
                    matches Some(idx) && idx <= 0x7fffffff) && info_value_writable(info@[j].1)),
        decreases n - i,
    {
        let idx = match string_string_map.get_index_of(info.key_at(i).as_str()) {
            Some(idx) => idx,
            None => {
                return Err(WriteError::InfoKeyNotInMap);
            },
        };
        if idx > 0x7fffffff {
            return Err(WriteError::CountTooLarge);
        }
        write_typed_int(&mut out, idx as i32);
        match info.value_at(i) {
            None => {
                out.push(0x00);
            },
            Some(val) => match val {
                Value::Integer(x) => {
                    write_typed_int(&mut out, *x);
                },
                Value::String(t) => {
                    match write_typed_string(&mut out, t.as_str()) {
                        Ok(()) => (),
                        Err(e) => {
                            proof {
                                assert(!info_value_writable(info@[i as int].1));
                            }
                            return Err(e);
                        },
                    }
                },
                _ => {
                    proof {
                        assert(!info_value_writable(info@[i as int].1));
                    }
                    return Err(WriteError::UnsupportedInfoValue);
                },
            },
        }
        proof {
            assert(info@.take(i + 1).drop_last() =~= info@.take(i as int));
            assert(info@.take(i + 1).last() == info@[i as int]);
            assert(out@ =~= info_fields_bytes(string_string_map@, info@.take(i + 1)));
        }
        i += 1;
    }
    crate::cram::num::append_bytes(buf, out.as_slice());
    proof {
        assert(info@.take(n as int) =~= info@);
        assert(buf@ =~= old(buf)@ + info_fields_bytes(string_string_map@, info@));
    }
    Ok(())
}

/// The wire form of the filters field.
pub open spec fn filters_bytes(m: Seq<Seq<char>>, f: Option<Filters>) -> Seq<u8> {
    match f {
        None => indices_bytes(seq![]),
        Some(Filters::Pass) => indices_bytes(seq![0u8]),
        Some(Filters::Fail(ids)) => indices_bytes(
            Seq::new(ids@.len(), |j: int| find_name(m, ids@[j]@)->Some_0 as u8),
        ),
    }
}

/// Whether one site record can stand on the wire: the chromosome named
/// in the contig map, a span that fits the length fields, counts within
/// their wire widths, every string writable, the filters and info keys in
/// the string map, and every info value in a typed form.
#[verifier::opaque]
pub open spec fn site_writable(
    cmap: Seq<Seq<char>>,
    smap: Seq<Seq<char>>,
    record: Record,
    sample_count: usize,
) -> bool {
    &&& record.chromosome matches Chromosome::Name(nm) && (find_name(cmap, nm@) is Some
        && find_name(cmap, nm@)->Some_0 <= 0xffffffff)
    &&& record.reference_bases@.len() > 0
    &&& record.position + record.reference_bases@.len() - 1 <= 0x7fffffff
    &&& record.info@.len() <= 0xffff
    &&& 1 + record.alternate_bases@.len() <= 0xffff
    &&& sample_count <= 0xffffff
    &&& record.genotypes.keys@.len() <= 0xff
    &&& (record.ids@.len() == 0 || string_writable(ids_text(record.ids@)))
    &&& ref_alt_writable(record.reference_bases@, record.alternate_bases@)
    &&& filters_writable(smap, record.filters)
    &&& info_writable(smap, record.info@)
}

/// The wire form of one site record: the fixed little-endian fields,
/// then the identifiers, the bases, the filters, and the info fields.
#[verifier::opaque]
pub open spec fn site_bytes(
    cmap: Seq<Seq<char>>,
    smap: Seq<Seq<char>>,
    record: Record,
    quality_score_bits: Option<u32>,
    sample_count: usize,
) -> Seq<u8> {
    let chrom = match record.chromosome {
        Chromosome::Name(nm) => le32_bytes(find_name(cmap, nm@)->Some_0 as u32),
        Chromosome::Symbol(_) => seq![],
    };
    let end = record.position + record.reference_bases@.len() - 1;
    let qual = match quality_score_bits {
        Some(bits) => bits,
        None => MISSING_FLOAT_BITS,
    };
    let idpart = if record.ids@.len() == 0 {
        missing_string_bytes()
    } else {
        typed_string_bytes(ids_text(record.ids@))
    };
    chrom + le32_bytes((record.position - 1) as u32) + le32_bytes(
        ((record.position - end + 1) as i32) as u32,
    ) + le32_bytes(qual) + le16_bytes(record.info@.len() as u16) + le16_bytes(
        (1 + record.alternate_bases@.len()) as u16,
    ) + le32_bytes((((record.genotypes.keys@.len() as u32) << 24) | (sample_count as u32)) as u32)
        + idpart + typed_string_bytes(record.reference_bases@) + alts_bytes(
        record.alternate_bases@,
    ) + filters_bytes(smap, record.filters) + info_fields_bytes(smap, record.info@)
}

/// Appends one site record: the fixed fields, then the identifiers, the
/// bases, the filters, and the info fields. The caller hands the quality
/// score's bit pattern and the header's sample count; a record any part
/// of which cannot stand is refused with the buffer left as it was.
#[verifier::rlimit(100)]
#[verifier::spinoff_prover]
pub fn write_site(
    buf: &mut Vec<u8>,
    contig_string_map: &StringMap,
    string_string_map: &StringMap,
    record: &Record,
    quality_score_bits: Option<u32>,
    sample_count: usize,
) -> (r: Result<(), WriteError>)
    requires
        record.position >= 0,
    ensures
        r is Ok <==> site_writable(contig_string_map@, string_string_map@, *record, sample_count),
        r matches Err(e) ==> final(buf)@ == old(buf)@,
        r is Ok ==> final(buf)@ == old(buf)@ + site_bytes(
            contig_string_map@,
            string_string_map@,
            *record,
            quality_score_bits,
            sample_count,
        ),
{
    let mut out: Vec<u8> = Vec::new();
    match write_chrom(&mut out, contig_string_map, &record.chromosome) {
        Ok(()) => (),
        Err(e) => {
            proof {
                assert(!site_writable(
                    contig_string_map@,
                    string_string_map@,
                    *record,
                    sample_count,
                )) by {
                    reveal(site_writable);
                }
            }
            return Err(e);
        },
    }
    write_pos(&mut out, record.position);
    let ref_len = record.reference_bases.as_str().unicode_len();
    if ref_len == 0 || ref_len - 1 > (i32::MAX as usize) - (record.position as usize) {
        proof {
            assert(!site_writable(
                contig_string_map@,
                string_string_map@,
                *record,
                sample_count,
            )) by {
                reveal(site_writable);
            }
        }
        return Err(WriteError::InvalidSpan);
    }
    let end: i32 = record.position + (ref_len - 1) as i32;
    match write_rlen(&mut out, record.position, end) {
        Ok(()) => (),
        Err(_) => {
            proof {
                assert(false) by {
                    reveal(site_writable);
                }
            }
            return Err(WriteError::InvalidSpan);
        },
    }
    write_qual(&mut out, quality_score_bits);
    let n_info = record.info.len();
    if n_info > 0xffff {
        proof {
            assert(!site_writable(
                contig_string_map@,
                string_string_map@,
                *record,
                sample_count,
            )) by {
                reveal(site_writable);
            }
        }
        return Err(WriteError::CountTooLarge);
    }
    write_u16_le(&mut out, n_info as u16);
    match write_n_allele(&mut out, record.alternate_bases.len()) {
        Ok(()) => (),
        Err(e) => {
            proof {
                assert(!site_writable(
                    contig_string_map@,
                    string_string_map@,
                    *record,
                    sample_count,
                )) by {
                    reveal(site_writable);
                }
            }
            return Err(e);
        },
    }
    match write_n_fmt_sample(&mut out, sample_count, record.genotypes.keys.len()) {
        Ok(()) => (),
        Err(e) => {
            proof {
                assert(!site_writable(
                    contig_string_map@,
                    string_string_map@,
                    *record,
                    sample_count,
                )) by {
                    reveal(site_writable);
                }
            }
            return Err(e);
        },
    }
    match write_id(&mut out, &record.ids) {
        Ok(()) => (),
        Err(e) => {
            proof {
                assert(!site_writable(
                    contig_string_map@,
                    string_string_map@,
                    *record,
                    sample_count,
                )) by {
                    reveal(site_writable);
                }
            }
            return Err(e);
        },
    }
    match write_ref_alt(&mut out, record.reference_bases.as_str(), &record.alternate_bases) {
        Ok(()) => (),
        Err(e) => {
            proof {
                assert(!site_writable(
                    contig_string_map@,
                    string_string_map@,
                    *record,
                    sample_count,
                )) by {
                    reveal(site_writable);
                }
            }
            return Err(e);
        },
    }
    match write_filter(&mut out, string_string_map, record.filters.as_ref()) {
        Ok(()) => (),
        Err(e) => {
            proof {
                assert(!site_writable(
                    contig_string_map@,
                    string_string_map@,
                    *record,
                    sample_count,
                )) by {
                    reveal(site_writable);
                }
            }
            return Err(e);
        },
    }
    match write_info(&mut out, string_string_map, &record.info) {
        Ok(()) => (),
        Err(e) => {
            proof {
                assert(!site_writable(
                    contig_string_map@,
                    string_string_map@,
                    *record,
                    sample_count,
                )) by {
                    reveal(site_writable);
                }
            }
            return Err(e);
        },
    }
    crate::cram::num::append_bytes(buf, out.as_slice());
    proof {
        assert(out@ =~= site_bytes(
            contig_string_map@,
            string_string_map@,
            *record,
            quality_score_bits,
            sample_count,
        )) by {
            reveal(site_bytes);
        }
        assert(buf@ =~= old(buf)@ + out@);
        assert(site_writable(
            contig_string_map@,
            string_string_map@,
            *record,
            sample_count,
        )) by {
            reveal(site_writable);
        }
    }
    Ok(())
}

} // verus!