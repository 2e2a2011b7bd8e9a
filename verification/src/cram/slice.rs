//! A bounded group of blocks covering a contiguous run of records.
//!
//! A slice is a header block followed by its own blocks: one core block
//! and zero or more external blocks, looked up by content id. The header
//! block's decompressed payload declares the slice's reference span, its
//! record counts, how many blocks follow, and which content ids they
//! carry.

use vstd::prelude::*;

use crate::cram::block::{
    parse_block, read_block, write_block, Block, BlockView, ContentType, block_bytes,
    lemma_block_round_trip,
};
use crate::cram::codecs::{spec_decompress, METHOD_NONE};
use crate::cram::container::{
    itf8_array_bytes, lemma_itf8_array_counted_round_trip, parse_itf8_array_counted,
    read_landmarks,
};
use crate::cram::error::Error;
use crate::cram::num::{
    append_bytes, decode_itf8, decode_itf8_spec, decode_ltf8, decode_ltf8_spec, encode_itf8,
    encode_ltf8, itf8_bytes, lemma_itf8_round_trip, lemma_ltf8_round_trip, ltf8_bytes,
};

verus! {

/// The decoded payload of a slice's header block.
pub struct SliceHeader {
    /// The reference sequence the slice's records align to; -1 for
    /// unmapped records, -2 when the slice spans multiple references.
    pub reference_sequence_id: i32,
    /// 1-based alignment start position.
    pub alignment_start: i32,
    /// Number of reference bases the slice covers.
    pub alignment_span: i32,
    /// Number of records in the slice.
    pub record_count: i32,
    /// Global record counter at the slice's first record.
    pub record_counter: i64,
    /// Number of blocks that belong to the slice.
    pub block_count: i32,
    /// The content id of each external block, in order.
    pub external_content_ids: Vec<i32>,
    /// Content id of the block holding embedded reference bases; -1 when
    /// no reference is embedded.
    pub embedded_reference_id: i32,
    /// MD5 digest of the reference span, sixteen bytes.
    pub reference_md5: Vec<u8>,
}

/// The mathematical value of a slice header.
pub ghost struct SliceHeaderView {
    pub reference_sequence_id: i32,
    pub alignment_start: i32,
    pub alignment_span: i32,
    pub record_count: i32,
    pub record_counter: i64,
    pub block_count: i32,
    pub external_content_ids: Seq<i32>,
    pub embedded_reference_id: i32,
    pub reference_md5: Seq<u8>,
}

impl View for SliceHeader {
    type V = SliceHeaderView;

    open spec fn view(&self) -> SliceHeaderView {
        SliceHeaderView {
            reference_sequence_id: self.reference_sequence_id,
            alignment_start: self.alignment_start,
            alignment_span: self.alignment_span,
            record_count: self.record_count,
            record_counter: self.record_counter,
            block_count: self.block_count,
            external_content_ids: self.external_content_ids@,
            embedded_reference_id: self.embedded_reference_id,
            reference_md5: self.reference_md5@,
        }
    }
}

impl SliceHeaderView {
    /// What every slice header that can stand on the wire satisfies.
    pub open spec fn wf(self) -> bool {
        &&& self.block_count >= 0
        &&& self.external_content_ids.len() <= 0x7fffffff
        &&& self.reference_md5.len() == 16
    }
}

/// The bytes of a slice header, as they stand in its header block's
/// decompressed payload.
pub open spec fn slice_header_bytes(sh: SliceHeaderView) -> Seq<u8> {
    itf8_bytes(sh.reference_sequence_id as u32) + itf8_bytes(sh.alignment_start as u32)
        + itf8_bytes(sh.alignment_span as u32) + itf8_bytes(sh.record_count as u32) + ltf8_bytes(
        sh.record_counter as u64,
    ) + itf8_bytes(sh.block_count as u32) + itf8_bytes(
        (sh.external_content_ids.len() as i32) as u32,
    ) + itf8_array_bytes(sh.external_content_ids) + itf8_bytes(sh.embedded_reference_id as u32)
        + sh.reference_md5
}

/// What reading a slice header at the head of `s` yields: the header and
/// the bytes consumed. Bytes past the digest are left alone: a payload
/// may carry extensions this reader does not interpret.
pub open spec fn parse_slice_header(s: Seq<u8>) -> Result<(SliceHeaderView, int), Error> {
    match decode_itf8_spec(s) {
        None => Err(Error::UnexpectedEof),
        Some((rid, k1)) => match decode_itf8_spec(s.skip(k1)) {
            None => Err(Error::UnexpectedEof),
            Some((astart, k2)) => match decode_itf8_spec(s.skip(k1 + k2)) {
                None => Err(Error::UnexpectedEof),
                Some((aspan, k3)) => match decode_itf8_spec(s.skip(k1 + k2 + k3)) {
                    None => Err(Error::UnexpectedEof),
                    Some((nrec, k4)) => match decode_ltf8_spec(s.skip(k1 + k2 + k3 + k4)) {
                        None => Err(Error::UnexpectedEof),
                        Some((rcounter, k5)) => match decode_itf8_spec(
                            s.skip(k1 + k2 + k3 + k4 + k5),
                        ) {
                            None => Err(Error::UnexpectedEof),
                            Some((nblk, k6)) => if (nblk as i32) < 0 {
                                Err(Error::InvalidSize)
                            } else {
                                match parse_itf8_array_counted(s.skip(k1 + k2 + k3 + k4 + k5 + k6)) {
                                    Err(e) => Err(e),
                                    Ok((ids, k7)) => match decode_itf8_spec(
                                        s.skip(k1 + k2 + k3 + k4 + k5 + k6 + k7),
                                    ) {
                                        None => Err(Error::UnexpectedEof),
                                        Some((embref, k8)) => {
                                            let md5_at = k1 + k2 + k3 + k4 + k5 + k6 + k7 + k8;
                                            if s.len() < md5_at + 16 {
                                                Err(Error::UnexpectedEof)
                                            } else {
                                                Ok(
                                                    (
                                                        SliceHeaderView {
                                                            reference_sequence_id: rid as i32,
                                                            alignment_start: astart as i32,
                                                            alignment_span: aspan as i32,
                                                            record_count: nrec as i32,
                                                            record_counter: rcounter as i64,
                                                            block_count: nblk as i32,
                                                            external_content_ids: ids,
                                                            embedded_reference_id: embref as i32,
                                                            reference_md5: s.subrange(
                                                                md5_at,
                                                                md5_at + 16,
                                                            ),
                                                        },
                                                        md5_at + 16,
                                                    ),
                                                )
                                            }
                                        },
                                    },
                                }
                            },
                        },
                    },
                },
            },
        },
    }
}

/// Appends the payload form of `sh` to `buf`.
pub fn write_slice_header(buf: &mut Vec<u8>, sh: &SliceHeader)
    requires
        sh@.wf(),
    ensures
        final(buf)@ == old(buf)@ + slice_header_bytes(sh@),
{
    encode_itf8(buf, sh.reference_sequence_id);
    encode_itf8(buf, sh.alignment_start);
    encode_itf8(buf, sh.alignment_span);
    encode_itf8(buf, sh.record_count);
    encode_ltf8(buf, sh.record_counter);
    encode_itf8(buf, sh.block_count);
    encode_itf8(buf, sh.external_content_ids.len() as i32);
    let ghost prefix = buf@;
    let mut i: usize = 0;
    while i < sh.external_content_ids.len()
        invariant
            i <= sh.external_content_ids@.len(),
            buf@ == prefix + itf8_array_bytes(sh@.external_content_ids.take(i as int)),
        decreases sh.external_content_ids@.len() - i,
    {
        proof {
            crate::cram::container::lemma_itf8_array_bytes_snoc(
                sh@.external_content_ids,
                i as int,
            );
        }
        encode_itf8(buf, sh.external_content_ids[i]);
        i += 1;
    }
    proof {
        assert(sh@.external_content_ids.take(sh.external_content_ids@.len() as int)
            =~= sh@.external_content_ids);
    }
    encode_itf8(buf, sh.embedded_reference_id);
    append_bytes(buf, sh.reference_md5.as_slice());
    proof {
        assert(buf@ =~= old(buf)@ + slice_header_bytes(sh@));
    }
}

/// Reads a slice header from `src` at `pos`. Returns the header and the
/// position of the first byte after its digest field.
#[verifier::rlimit(100)]
#[verifier::spinoff_prover]
pub fn read_slice_header(src: &[u8], pos: usize) -> (r: Result<(SliceHeader, usize), Error>)
    requires
        pos <= src@.len(),
    ensures
        match r {
            Ok((sh, n)) => {
                &&& pos < n <= src@.len()
                &&& parse_slice_header(src@.skip(pos as int)) == Ok::<_, Error>((sh@, n - pos))
            },
            Err(e) => {
                &&& (e == Error::UnexpectedEof || e == Error::InvalidSize)
                &&& parse_slice_header(src@.skip(pos as int)) == Err::<(SliceHeaderView, int), _>(
                    e,
                )
            },
        },
{
    let ghost s = src@.skip(pos as int);
    let (reference_sequence_id, p1) = match decode_itf8(src, pos) {
        Ok(v) => v,
        Err(e) => {
            return Err(e);
        },
    };
    proof {
        assert(s.skip(p1 - pos) =~= src@.skip(p1 as int));
    }
    let (alignment_start, p2) = match decode_itf8(src, p1) {
        Ok(v) => v,
        Err(e) => {
            return Err(e);
        },
    };
    proof {
        assert(s.skip(p2 - pos) =~= src@.skip(p2 as int));
    }
    let (alignment_span, p3) = match decode_itf8(src, p2) {
        Ok(v) => v,
        Err(e) => {
            return Err(e);
        },
    };
    proof {
        assert(s.skip(p3 - pos) =~= src@.skip(p3 as int));
    }
    let (record_count, p4) = match decode_itf8(src, p3) {
        Ok(v) => v,
        Err(e) => {
            return Err(e);
        },
    };
    proof {
        assert(s.skip(p4 - pos) =~= src@.skip(p4 as int));
    }
    let (record_counter, p5) = match decode_ltf8(src, p4) {
        Ok(v) => v,
        Err(e) => {
            return Err(e);
        },
    };
    proof {
        assert(s.skip(p5 - pos) =~= src@.skip(p5 as int));
    }
    let (block_count, p6) = match decode_itf8(src, p5) {
        Ok(v) => v,
        Err(e) => {
            return Err(e);
        },
    };
    proof {
        let nblk = decode_itf8_spec(s.skip(p5 - pos))->Some_0.0;
        crate::cram::num::lemma_i32_cast_id(block_count);
    }
    if block_count < 0 {
        return Err(Error::InvalidSize);
    }
    proof {
        assert(s.skip(p6 - pos) =~= src@.skip(p6 as int));
    }
    let (external_content_ids, p7) = match read_landmarks(src, p6) {
        Ok(v) => v,
        Err(e) => {
            return Err(e);
        },
    };
    proof {
        assert(s.skip(p7 - pos) =~= src@.skip(p7 as int));
    }
    let (embedded_reference_id, p8) = match decode_itf8(src, p7) {
        Ok(v) => v,
        Err(e) => {
            return Err(e);
        },
    };
    if src.len() - p8 < 16 {
        return Err(Error::UnexpectedEof);
    }
    let reference_md5 = vstd::slice::slice_to_vec(
        vstd::slice::slice_subrange(src, p8, p8 + 16),
    );
    let sh = SliceHeader {
        reference_sequence_id,
        alignment_start,
        alignment_span,
        record_count,
        record_counter,
        block_count,
        external_content_ids,
        embedded_reference_id,
        reference_md5,
    };
    proof {
        let rid = decode_itf8_spec(s)->Some_0.0;
        crate::cram::num::lemma_i32_cast_id(reference_sequence_id);
        let astart = decode_itf8_spec(s.skip(p1 - pos))->Some_0.0;
        crate::cram::num::lemma_i32_cast_id(alignment_start);
        let aspan = decode_itf8_spec(s.skip(p2 - pos))->Some_0.0;
        crate::cram::num::lemma_i32_cast_id(alignment_span);
        let nrec = decode_itf8_spec(s.skip(p3 - pos))->Some_0.0;
        crate::cram::num::lemma_i32_cast_id(record_count);
        let rcounter = decode_ltf8_spec(s.skip(p4 - pos))->Some_0.0;
        crate::cram::num::lemma_i64_cast_id(record_counter);
        let embref = decode_itf8_spec(s.skip(p7 - pos))->Some_0.0;
        crate::cram::num::lemma_i32_cast_id(embedded_reference_id);
        assert(sh.reference_md5@ =~= s.subrange(p8 - pos, p8 - pos + 16));
        assert(parse_slice_header(s) == Ok::<_, Error>((sh@, (p8 + 16 - pos) as int)));
    }
    Ok((sh, p8 + 16))
}

/// Round-trip law for a slice header: its payload form, whatever follows
/// it, parses back to the header itself.
#[verifier::rlimit(100)]
#[verifier::spinoff_prover]
pub proof fn lemma_slice_header_round_trip(sh: SliceHeaderView, rest: Seq<u8>)
    requires
        sh.wf(),
    ensures
        parse_slice_header(slice_header_bytes(sh) + rest) == Ok::<_, Error>(
            (sh, slice_header_bytes(sh).len() as int),
        ),
{
    let a1 = itf8_bytes(sh.reference_sequence_id as u32);
    let a2 = itf8_bytes(sh.alignment_start as u32);
    let a3 = itf8_bytes(sh.alignment_span as u32);
    let a4 = itf8_bytes(sh.record_count as u32);
    let a5 = ltf8_bytes(sh.record_counter as u64);
    let a6 = itf8_bytes(sh.block_count as u32);
    let a7 = itf8_bytes((sh.external_content_ids.len() as i32) as u32) + itf8_array_bytes(
        sh.external_content_ids,
    );
    let a8 = itf8_bytes(sh.embedded_reference_id as u32);
    let a9 = sh.reference_md5;
    let r9 = rest;
    let r8 = a9 + r9;
    let r7 = a8 + r8;
    let r6 = a7 + r7;
    let r5 = a6 + r6;
    let r4 = a5 + r5;
    let r3 = a4 + r4;
    let r2 = a3 + r3;
    let r1 = a2 + r2;
    let s = slice_header_bytes(sh) + rest;
    assert(s =~= a1 + r1);
    lemma_itf8_round_trip(sh.reference_sequence_id, r1);
    let k1 = a1.len() as int;
    assert(s.skip(k1) =~= r1);
    lemma_itf8_round_trip(sh.alignment_start, r2);
    let k2 = a2.len() as int;
    assert(s.skip(k1 + k2) =~= r2);
    lemma_itf8_round_trip(sh.alignment_span, r3);
    let k3 = a3.len() as int;
    assert(s.skip(k1 + k2 + k3) =~= r3);
    lemma_itf8_round_trip(sh.record_count, r4);
    let k4 = a4.len() as int;
    assert(s.skip(k1 + k2 + k3 + k4) =~= r4);
    lemma_ltf8_round_trip(sh.record_counter, r5);
    let k5 = a5.len() as int;
    assert(s.skip(k1 + k2 + k3 + k4 + k5) =~= r5);
    lemma_itf8_round_trip(sh.block_count, r6);
    let k6 = a6.len() as int;
    assert(s.skip(k1 + k2 + k3 + k4 + k5 + k6) =~= r6);
    lemma_itf8_array_counted_round_trip(sh.external_content_ids, r7);
    assert(a7 + r7 =~= (itf8_bytes((sh.external_content_ids.len() as i32) as u32)
        + itf8_array_bytes(sh.external_content_ids)) + r7);
    let k7 = a7.len() as int;
    assert(s.skip(k1 + k2 + k3 + k4 + k5 + k6 + k7) =~= r7);
    lemma_itf8_round_trip(sh.embedded_reference_id, r8);
    let k8 = a8.len() as int;
    let md5_at = k1 + k2 + k3 + k4 + k5 + k6 + k7 + k8;
    assert(s.skip(md5_at) =~= r8);
    assert(s.subrange(md5_at, md5_at + 16) =~= sh.reference_md5);
    let x_rid = sh.reference_sequence_id;
    crate::cram::num::lemma_i32_cast_id(x_rid);
    let x_astart = sh.alignment_start;
    crate::cram::num::lemma_i32_cast_id(x_astart);
    let x_aspan = sh.alignment_span;
    crate::cram::num::lemma_i32_cast_id(x_aspan);
    let x_nrec = sh.record_count;
    crate::cram::num::lemma_i32_cast_id(x_nrec);
    let x_rcounter = sh.record_counter;
    crate::cram::num::lemma_i64_cast_id(x_rcounter);
    let x_nblk = sh.block_count;
    crate::cram::num::lemma_i32_cast_id(x_nblk);
    let x_embref = sh.embedded_reference_id;
    crate::cram::num::lemma_i32_cast_id(x_embref);
    assert(parse_slice_header(s) == Ok::<_, Error>((sh, md5_at + 16)));
}

/// A slice: its header block followed by its own blocks, which it owns
/// exclusively.
pub struct Slice {
    /// The header block; its decompressed payload is a [`SliceHeader`].
    pub header_block: Block,
    /// The slice's blocks: its core block and its external blocks, in
    /// wire order.
    pub blocks: Vec<Block>,
}

/// The mathematical value of a slice.
pub ghost struct SliceView {
    pub header_block: BlockView,
    pub blocks: Seq<BlockView>,
}

impl View for Slice {
    type V = SliceView;

    open spec fn view(&self) -> SliceView {
        SliceView { header_block: self.header_block@, blocks: self.blocks@.map_values(|b: Block| b@) }
    }
}

impl SliceView {
    /// The slice header the header block's decompressed payload declares.
    /// Meaningful when the header block is readable.
    pub open spec fn header(self) -> SliceHeaderView {
        parse_slice_header(
            spec_decompress(self.header_block.method, self.header_block.payload)->Some_0,
        )->Ok_0.0
    }

    /// What every slice that can stand on the wire satisfies: the header
    /// block is a stored (uncompressed) slice header whose declared block
    /// count is the number of blocks that follow, and every block can
    /// stand on the wire itself.
    pub open spec fn wf(self) -> bool {
        &&& self.header_block.wf()
        &&& self.header_block.content_type == ContentType::SliceHeader
        &&& self.header_block.method == METHOD_NONE
        &&& self.header_block.raw_size == self.header_block.payload.len()
        &&& parse_slice_header(self.header_block.payload) is Ok
        &&& self.header().block_count == self.blocks.len()
        &&& forall|i: int| 0 <= i < self.blocks.len() ==> (#[trigger] self.blocks[i]).wf()
    }
}

/// The concatenated wire forms of a run of blocks.
pub open spec fn blocks_bytes(bs: Seq<BlockView>) -> Seq<u8>
    decreases bs.len(),
{
    if bs.len() == 0 {
        seq![]
    } else {
        block_bytes(bs[0]) + blocks_bytes(bs.skip(1))
    }
}

/// Appending one more block extends the concatenated wire forms by its
/// own.
pub proof fn lemma_blocks_bytes_snoc(bs: Seq<BlockView>, i: int)
    requires
        0 <= i < bs.len(),
    ensures
        blocks_bytes(bs.take(i + 1)) == blocks_bytes(bs.take(i)) + block_bytes(bs[i]),
    decreases i,
{
    if i == 0 {
        assert(bs.take(1) =~= seq![bs[0]]);
        assert(bs.take(0) =~= Seq::<BlockView>::empty());
        assert(seq![bs[0]].skip(1) =~= Seq::<BlockView>::empty());
        assert(blocks_bytes(Seq::<BlockView>::empty()) == Seq::<u8>::empty());
        assert(blocks_bytes(bs.take(1)) == block_bytes(bs[0]) + blocks_bytes(
            Seq::<BlockView>::empty(),
        ));
        assert(blocks_bytes(bs.take(i + 1)) =~= blocks_bytes(bs.take(i)) + block_bytes(bs[i]));
    } else {
        let t = bs.skip(1);
        lemma_blocks_bytes_snoc(t, i - 1);
        assert(bs.take(i + 1).skip(1) =~= t.take(i));
        assert(bs.take(i).skip(1) =~= t.take(i - 1));
        assert(bs.take(i + 1)[0] == bs[0]);
        assert(bs.take(i)[0] == bs[0]);
        assert(blocks_bytes(bs.take(i + 1)) =~= blocks_bytes(bs.take(i)) + block_bytes(bs[i]));
    }
}

/// The wire form of a slice: its header block, then its blocks.
pub open spec fn slice_bytes(sv: SliceView) -> Seq<u8> {
    block_bytes(sv.header_block) + blocks_bytes(sv.blocks)
}

/// What reading `n` blocks at the head of `s` yields: the blocks and the
/// bytes consumed.
pub open spec fn parse_blocks(s: Seq<u8>, n: nat) -> Result<(Seq<BlockView>, int), Error>
    decreases n,
{
    if n == 0 {
        Ok((seq![], 0))
    } else {
        match parse_block(s) {
            Err(e) => Err(e),
            Ok((b, k)) => match parse_blocks(s.skip(k), (n - 1) as nat) {
                Err(e) => Err(e),
                Ok((bs, m)) => Ok((seq![b] + bs, k + m)),
            },
        }
    }
}

/// What reading a slice at the head of `s` yields: a header block of the
/// right content type whose decompressed payload names how many blocks
/// follow, then exactly that many blocks.
pub open spec fn parse_slice(s: Seq<u8>) -> Result<(SliceView, int), Error> {
    match parse_block(s) {
        Err(e) => Err(e),
        Ok((hb, k)) => if hb.content_type != ContentType::SliceHeader {
            Err(Error::CorruptBlock)
        } else {
            match spec_decompress(hb.method, hb.payload) {
                None => Err(Error::CorruptBlock),
                Some(pl) => if pl.len() != hb.raw_size {
                    Err(Error::CorruptBlock)
                } else {
                    match parse_slice_header(pl) {
                        Err(e) => Err(e),
                        Ok((sh, _)) => match parse_blocks(s.skip(k), sh.block_count as nat) {
                            Err(e) => Err(e),
                            Ok((bs, m)) => Ok(
                                (SliceView { header_block: hb, blocks: bs }, k + m),
                            ),
                        },
                    }
                },
            }
        },
    }
}

/// Appends the wire form of `sl` to `buf`.
pub fn write_slice(buf: &mut Vec<u8>, sl: &Slice)
    requires
        sl@.wf(),
    ensures
        final(buf)@ == old(buf)@ + slice_bytes(sl@),
{
    write_block(buf, &sl.header_block);
    let ghost prefix = buf@;
    let mut i: usize = 0;
    while i < sl.blocks.len()
        invariant
            i <= sl.blocks@.len(),
            buf@ == prefix + blocks_bytes(sl@.blocks.take(i as int)),
            sl@.wf(),
        decreases sl.blocks@.len() - i,
    {
        proof {
            lemma_blocks_bytes_snoc(sl@.blocks, i as int);
            assert(sl@.blocks[i as int] == sl.blocks@[i as int]@);
        }
        write_block(buf, &sl.blocks[i]);
        i += 1;
    }
    proof {
        assert(sl@.blocks.take(sl.blocks@.len() as int) =~= sl@.blocks);
        assert(buf@ =~= old(buf)@ + slice_bytes(sl@));
    }
}

/// Reads a slice from `src` at `pos`: its header block, whose payload is
/// decoded and parsed to learn the block count, then that many blocks.
/// Returns the slice and the position of the first byte after it.
#[verifier::rlimit(100)]
#[verifier::spinoff_prover]
pub fn read_slice(src: &[u8], pos: usize) -> (r: Result<(Slice, usize), Error>)
    requires
        pos <= src@.len(),
    ensures
        match r {
            Ok((sl, n)) => {
                &&& pos < n <= src@.len()
                &&& parse_slice(src@.skip(pos as int)) == Ok::<_, Error>((sl@, n - pos))
            },
            Err(e) => parse_slice(src@.skip(pos as int)) == Err::<(SliceView, int), _>(e),
        },
{
    let ghost s = src@.skip(pos as int);
    let (header_block, p0) = match read_block(src, pos) {
        Ok(v) => v,
        Err(e) => {
            return Err(e);
        },
    };
    if !matches!(header_block.content_type, ContentType::SliceHeader) {
        return Err(Error::CorruptBlock);
    }
    let payload = match header_block.decompress() {
        Ok(v) => v,
        Err(e) => {
            return Err(Error::CorruptBlock);
        },
    };
    proof {
        assert(payload@.skip(0) =~= payload@);
    }
    let (sh, _) = match read_slice_header(payload.as_slice(), 0) {
        Ok(v) => v,
        Err(e) => {
            return Err(e);
        },
    };
    let n = sh.block_count as usize;
    let mut blocks: Vec<Block> = Vec::new();
    let mut p = p0;
    let mut i: usize = 0;
    proof {
        assert(s.skip(p0 - pos) =~= src@.skip(p0 as int));
        let cont = parse_blocks(src@.skip(p as int), n as nat);
        if cont is Ok {
            let (tail, m) = cont->Ok_0;
            assert(blocks@.map_values(|b: Block| b@) + tail =~= tail);
        }
    }
    while i < n
        invariant
            pos < p <= src@.len(),
            i <= n,
            n <= 0x7fffffff,
            blocks@.len() == i,
            s == src@.skip(pos as int),
            parse_slice_header(spec_decompress(header_block@.method, header_block@.payload)->Some_0)
                is Ok,
            header_block@.content_type == ContentType::SliceHeader,
            parse_block(s) == Ok::<_, Error>((header_block@, p0 - pos)),
            spec_decompress(header_block@.method, header_block@.payload)->Some_0.len()
                == header_block@.raw_size,
            spec_decompress(header_block@.method, header_block@.payload) is Some,
            parse_slice_header(
                spec_decompress(header_block@.method, header_block@.payload)->Some_0,
            )->Ok_0.0.block_count == n,
            ({
                let cont = parse_blocks(src@.skip(p as int), (n - i) as nat);
                match cont {
                    Err(e) => parse_slice(s) == Err::<(SliceView, int), Error>(e),
                    Ok((tail, m)) => parse_slice(s) == Ok::<_, Error>(
                        (
                            SliceView {
                                header_block: header_block@,
                                blocks: blocks@.map_values(|b: Block| b@) + tail,
                            },
                            p - pos + m,
                        ),
                    ),
                }
            }),
        decreases n - i,
    {
        let ghost bs0 = blocks@.map_values(|b: Block| b@);
        let (b, p2) = match read_block(src, p) {
            Ok(v) => v,
            Err(e) => {
                return Err(e);
            },
        };
        proof {
            let (bv, k) = parse_block(src@.skip(p as int))->Ok_0;
            assert(src@.skip(p as int).skip(k) =~= src@.skip(p2 as int));
        }
        blocks.push(b);
        proof {
            let (bv, k) = parse_block(src@.skip(p as int))->Ok_0;
            let cont = parse_blocks(src@.skip(p as int), (n - i) as nat);
            let cont2 = parse_blocks(src@.skip(p2 as int), (n - i - 1) as nat);
            assert(cont2 == parse_blocks(src@.skip(p as int).skip(k), (n - i - 1) as nat));
            match cont2 {
                Err(e) => {
                    assert(cont == Err::<(Seq<BlockView>, int), Error>(e));
                },
                Ok((tail2, m2)) => {
                    assert(cont == Ok::<_, Error>((seq![bv] + tail2, k + m2)));
                    assert(bs0 + (seq![bv] + tail2) =~= blocks@.map_values(|b: Block| b@)
                        + tail2);
                },
            }
        }
        p = p2;
        i += 1;
    }
    proof {
        assert(parse_blocks(src@.skip(p as int), 0) == Ok::<_, Error>(
            (Seq::<BlockView>::empty(), 0int),
        ));
        let sl = Slice { header_block, blocks };
        assert(blocks@.map_values(|b: Block| b@) + Seq::<BlockView>::empty() =~= blocks@.map_values(
            |b: Block| b@,
        ));
    }
    Ok((Slice { header_block, blocks }, p))
}

/// Round-trip law for a run of blocks.
pub proof fn lemma_blocks_round_trip(bs: Seq<BlockView>, rest: Seq<u8>)
    requires
        forall|i: int| 0 <= i < bs.len() ==> (#[trigger] bs[i]).wf(),
    ensures
        parse_blocks(blocks_bytes(bs) + rest, bs.len()) == Ok::<_, Error>(
            (bs, blocks_bytes(bs).len() as int),
        ),
    decreases bs.len(),
{
    if bs.len() == 0 {
        assert(blocks_bytes(bs) + rest =~= rest);
        assert(bs =~= Seq::<BlockView>::empty());
        assert(blocks_bytes(bs).len() == 0);
    } else {
        let b = bs[0];
        let enc0 = block_bytes(b);
        let tail = blocks_bytes(bs.skip(1)) + rest;
        lemma_block_round_trip(b, tail);
        assert(blocks_bytes(bs) + rest =~= enc0 + tail);
        assert((enc0 + tail).skip(enc0.len() as int) =~= tail);
        lemma_blocks_round_trip(bs.skip(1), rest);
        assert(seq![b] + bs.skip(1) =~= bs);
        assert(parse_blocks(blocks_bytes(bs) + rest, bs.len()) == Ok::<_, Error>(
            (bs, blocks_bytes(bs).len() as int),
        ));
    }
}

/// Round-trip law for a slice: its wire form, whatever follows it in the
/// stream, reads back as the slice itself.
pub proof fn lemma_slice_round_trip(sv: SliceView, rest: Seq<u8>)
    requires
        sv.wf(),
    ensures
        parse_slice(slice_bytes(sv) + rest) == Ok::<_, Error>((sv, slice_bytes(sv).len() as int)),
{
    let hb = sv.header_block;
    let enc0 = block_bytes(hb);
    let tail = blocks_bytes(sv.blocks) + rest;
    lemma_block_round_trip(hb, tail);
    let s = slice_bytes(sv) + rest;
    assert(s =~= enc0 + tail);
    assert(s.skip(enc0.len() as int) =~= tail);
    lemma_blocks_round_trip(sv.blocks, rest);
    assert(parse_slice(s) == Ok::<_, Error>((sv, slice_bytes(sv).len() as int)));
}

/// Whether a slice's header block can be decoded and parsed: exactly
/// what a successful slice parse establishes.
pub open spec fn slice_header_readable(sv: SliceView) -> bool {
    &&& sv.header_block.raw_size >= 0
    &&& spec_decompress(sv.header_block.method, sv.header_block.payload) is Some
    &&& spec_decompress(sv.header_block.method, sv.header_block.payload)->Some_0.len()
        == sv.header_block.raw_size
    &&& parse_slice_header(spec_decompress(sv.header_block.method, sv.header_block.payload)->Some_0)
        is Ok
}

/// A slice a successful parse hands back has a readable header block.
pub proof fn lemma_parse_slice_readable(s: Seq<u8>)
    requires
        parse_slice(s) is Ok,
    ensures
        slice_header_readable(parse_slice(s)->Ok_0.0),
{
}

impl Slice {
    /// The first of the slice's blocks that carries the given content id,
    /// by which a data series names its bytes. An id no block carries is
    /// reported as [`Error::MissingBlock`] with the id itself: a series
    /// that references it cannot be decoded.
    pub fn block_by_content_id(&self, content_id: i32) -> (r: Result<&Block, Error>)
        ensures
            match r {
                Ok(b) => exists|i: int|
                    0 <= i < self@.blocks.len() && (#[trigger] self@.blocks[i]).content_id
                        == content_id && b@ == self@.blocks[i],
                Err(e) => {
                    &&& e == Error::MissingBlock(content_id)
                    &&& forall|i: int|
                        0 <= i < self@.blocks.len() ==> (#[trigger] self@.blocks[i]).content_id
                            != content_id
                },
            },
    {
        let mut i: usize = 0;
        while i < self.blocks.len()
            invariant
                i <= self.blocks@.len(),
                forall|j: int|
                    0 <= j < i ==> (#[trigger] self.blocks@[j]@).content_id != content_id,
            decreases self.blocks@.len() - i,
        {
            if self.blocks[i].content_id == content_id {
                proof {
                    assert(self@.blocks[i as int] == self.blocks@[i as int]@);
                }
                return Ok(&self.blocks[i]);
            }
            i += 1;
        }
        proof {
            assert forall|j: int|
                0 <= j < self@.blocks.len() implies (#[trigger] self@.blocks[j]).content_id
                != content_id by {
                assert(self@.blocks[j] == self.blocks@[j]@);
            }
        }
        Err(Error::MissingBlock(content_id))
    }
}

} // verus!
