//! The random-access index: one record per slice, derived by walking the
//! containers without decompressing any slice's data-series payloads —
//! only the small slice header blocks are decoded.

use vstd::prelude::*;

use crate::cram::container::{parse_container, read_container, Container, ContainerView};
use crate::cram::error::Error;
use crate::cram::slice::{read_slice_header, slice_header_readable};

verus! {

/// One index record: where a slice stands in the stream and what span of
/// the reference it covers.
#[derive(Clone, Copy, Debug, PartialEq, Eq, Structural)]
pub struct IndexRecord {
    /// The reference sequence the slice's records align to.
    pub reference_sequence_id: i32,
    /// 1-based alignment start position.
    pub alignment_start: i32,
    /// Number of reference bases the slice covers.
    pub alignment_span: i32,
    /// Byte offset of the slice's container in the stream.
    pub container_offset: u64,
    /// Byte offset of the slice within the container, relative to the
    /// first byte after the container header.
    pub slice_offset: i32,
    /// Byte size of the slice.
    pub slice_size: i32,
    /// Number of records in the slice.
    pub record_count: i32,
}

/// The record the index holds for slice `j` of a container at
/// `container_offset`, going by the container's landmarks.
pub open spec fn record_for_slice(
    c: ContainerView,
    j: int,
    container_offset: u64,
) -> IndexRecord {
    let sh = c.slices[j].header();
    IndexRecord {
        reference_sequence_id: sh.reference_sequence_id,
        alignment_start: sh.alignment_start,
        alignment_span: sh.alignment_span,
        container_offset,
        slice_offset: c.header.landmarks[j],
        slice_size: (if j + 1 < c.header.landmarks.len() {
            c.header.landmarks[j + 1] - c.header.landmarks[j]
        } else {
            c.header.length - c.header.landmarks[j]
        }) as i32,
        record_count: sh.record_count,
    }
}

/// Appends one index record per slice of `c`, deriving each slice's
/// offset and size from the container's landmarks. A landmark list that
/// does not name each slice once, in order and within the container, is
/// inconsistent with the framing and refused.
pub fn index_container(c: &Container, container_offset: u64, out: &mut Vec<IndexRecord>) -> (r:
    Result<(), Error>)
    requires
        forall|j: int|
            0 <= j < c@.slices.len() ==> slice_header_readable(#[trigger] c@.slices[j]),
    ensures
        match r {
            Ok(()) => {
                &&& c@.header.landmarks.len() == c@.slices.len()
                &&& final(out)@.len() == old(out)@.len() + c@.slices.len()
                &&& forall|i: int|
                    0 <= i < old(out)@.len() ==> final(out)@[i] == #[trigger] old(out)@[i]
                &&& forall|j: int|
                    0 <= j < c@.slices.len() ==> final(out)@[old(out)@.len() + j]
                        == record_for_slice(c@, j, container_offset)
            },
            Err(e) => {
                &&& e == Error::CorruptBlock
                &&& final(out)@ == old(out)@
                &&& c@.header.landmarks.len() != c@.slices.len()
            },
        },
{
    if c.header.landmarks.len() != c.slices.len() {
        return Err(Error::CorruptBlock);
    }
    let mut records: Vec<IndexRecord> = Vec::new();
    let mut j: usize = 0;
    while j < c.slices.len()
        invariant
            j <= c.slices@.len(),
            c.header.landmarks@.len() == c.slices@.len(),
            records@.len() == j,
            forall|i: int|
                0 <= i < c@.slices.len() ==> slice_header_readable(#[trigger] c@.slices[i]),
            forall|i: int|
                0 <= i < j ==> records@[i] == record_for_slice(c@, i, container_offset),
        decreases c.slices@.len() - j,
    {
        proof {
            assert(c@.slices[j as int] == c.slices@[j as int]@);
        }
        let hb = &c.slices[j].header_block;
        let payload = match hb.decompress() {
            Ok(v) => v,
            Err(_) => {
                proof {
                    assert(slice_header_readable(c@.slices[j as int]));
                    assert(false);
                }
                return Err(Error::CorruptBlock);
            },
        };
        proof {
            assert(payload@.skip(0) =~= payload@);
        }
        let (sh, _) = match read_slice_header(payload.as_slice(), 0) {
            Ok(v) => v,
            Err(_) => {
                proof {
                    assert(slice_header_readable(c@.slices[j as int]));
                    assert(false);
                }
                return Err(Error::CorruptBlock);
            },
        };
        let slice_offset = c.header.landmarks[j];
        let next = if j + 1 < c.header.landmarks.len() {
            c.header.landmarks[j + 1]
        } else {
            c.header.length
        };
        let slice_size = next.wrapping_sub(slice_offset);
        proof {
            let a = next;
            let b = slice_offset;
            assert(a.wrapping_sub(b) == ((a - b) as i32)) by (bit_vector);
        }
        records.push(
            IndexRecord {
                reference_sequence_id: sh.reference_sequence_id,
                alignment_start: sh.alignment_start,
                alignment_span: sh.alignment_span,
                container_offset,
                slice_offset,
                slice_size,
                record_count: sh.record_count,
            },
        );
        j += 1;
    }
    let mut i: usize = 0;
    while i < records.len()
        invariant
            i <= records@.len(),
            records@.len() == c.slices@.len(),
            out@.len() == old(out)@.len() + i,
            forall|k: int| 0 <= k < old(out)@.len() ==> out@[k] == #[trigger] old(out)@[k],
            forall|k: int|
                #![trigger out@[old(out)@.len() + k]]
                0 <= k < i ==> out@[old(out)@.len() + k] == records@[k],
            forall|k: int|
                0 <= k < records@.len() ==> #[trigger] records@[k] == record_for_slice(
                    c@,
                    k,
                    container_offset,
                ),
        decreases records@.len() - i,
    {
        out.push(records[i]);
        i += 1;
    }
    Ok(())
}

/// The record that closes an index: the terminator header's offset, no
/// span, no records.
pub open spec fn terminal_record(offset: u64) -> IndexRecord {
    IndexRecord {
        reference_sequence_id: -1i32,
        alignment_start: 0i32,
        alignment_span: 0i32,
        container_offset: offset,
        slice_offset: 0i32,
        slice_size: 0i32,
        record_count: 0i32,
    }
}

/// The index records of one container's slices, in order.
pub open spec fn container_records(c: ContainerView, offset: u64) -> Seq<IndexRecord> {
    Seq::new(c.slices.len(), |j: int| record_for_slice(c, j, offset))
}

/// The index of the stream from `pos`: one record per slice of each
/// container, in stream order, closed by the terminal record at the
/// terminator header's offset. A container whose landmark list does not
/// name each slice once is refused, as is a stream whose containers do
/// not parse.
pub open spec fn stream_index(s: Seq<u8>, pos: int) -> Result<Seq<IndexRecord>, Error>
    decreases s.len() - pos,
{
    if !(0 <= pos <= s.len()) {
        Err(Error::UnexpectedEof)
    } else {
        match parse_container(s.skip(pos)) {
            Err(e) => Err(e),
            Ok((oc, k)) => if k < 1 || pos + k > s.len() {
                Err(Error::UnexpectedEof)
            } else {
                match oc {
                    None => Ok(seq![terminal_record(pos as u64)]),
                    Some(c) => if c.header.landmarks.len() != c.slices.len() {
                        Err(Error::CorruptBlock)
                    } else {
                        match stream_index(s, pos + k) {
                            Err(e) => Err(e),
                            Ok(rest) => Ok(container_records(c, pos as u64) + rest),
                        }
                    },
                }
            },
        }
    }
}

/// Builds the index of a whole stream of containers: walks them in order
/// from `pos`, records every slice, and closes the index with one
/// terminal record standing for the end of the data — the offset of the
/// terminator header, with no span and no records.
///
/// Container byte offsets in the result are monotonically non-decreasing:
/// the walk only ever moves forward.
pub fn build_index(src: &[u8], pos: usize) -> (r: Result<Vec<IndexRecord>, Error>)
    requires
        pos <= src@.len(),
    ensures
        match r {
            Ok(records) => {
                &&& stream_index(src@, pos as int) == Ok::<_, Error>(records@)
                &&& records@.len() >= 1
                &&& records@[records@.len() - 1] == terminal_record(
                    records@[records@.len() - 1].container_offset,
                )
                &&& forall|i: int, j: int|
                    #![trigger records@[i].container_offset, records@[j].container_offset]
                    0 <= i <= j < records@.len() ==> records@[i].container_offset
                        <= records@[j].container_offset
            },
            Err(e) => stream_index(src@, pos as int) == Err::<Seq<IndexRecord>, _>(e),
        },
{
    let mut records: Vec<IndexRecord> = Vec::new();
    let mut p = pos;
    proof {
        if stream_index(src@, p as int) is Ok {
            assert(records@ + stream_index(src@, p as int)->Ok_0 =~= stream_index(
                src@,
                p as int,
            )->Ok_0);
        }
    }
    loop
        invariant
            pos <= p <= src@.len(),
            forall|i: int|
                0 <= i < records@.len() ==> #[trigger] records@[i].container_offset <= p as u64,
            forall|i: int, j: int|
                #![trigger records@[i].container_offset, records@[j].container_offset]
                0 <= i <= j < records@.len() ==> records@[i].container_offset
                    <= records@[j].container_offset,
            ({
                let cont = stream_index(src@, p as int);
                match cont {
                    Err(e) => stream_index(src@, pos as int) == Err::<Seq<IndexRecord>, Error>(e),
                    Ok(tail) => stream_index(src@, pos as int) == Ok::<_, Error>(records@ + tail),
                }
            }),
        decreases src@.len() - p,
    {
        let offset = p as u64;
        let (oc, p2) = match read_container(src, p) {
            Ok(v) => v,
            Err(e) => {
                return Err(e);
            },
        };
        let c = match oc {
            Some(c) => c,
            None => {
                let ghost recs0 = records@;
                records.push(
                    IndexRecord {
                        reference_sequence_id: -1,
                        alignment_start: 0,
                        alignment_span: 0,
                        container_offset: offset,
                        slice_offset: 0,
                        slice_size: 0,
                        record_count: 0,
                    },
                );
                proof {
                    assert forall|i: int, j: int|
                        #![trigger records@[i].container_offset, records@[j].container_offset]
                        0 <= i <= j < records@.len() implies records@[i].container_offset
                        <= records@[j].container_offset by {
                        if j < recs0.len() {
                            assert(records@[i] == recs0[i]);
                            assert(records@[j] == recs0[j]);
                        } else if i < recs0.len() {
                            assert(records@[i] == recs0[i]);
                            assert(records@[i].container_offset <= p as u64);
                        }
                    }
                    assert(records@.last() == terminal_record(offset));
                    assert(stream_index(src@, p as int) == Ok::<_, Error>(
                        seq![terminal_record(offset)],
                    ));
                    assert(recs0 + seq![terminal_record(offset)] =~= records@);
                }
                return Ok(records);
            },
        };
        proof {
            crate::cram::container::lemma_parse_container_slices_readable(
                src@.skip(p as int),
                c@,
                p2 - p,
            );
        }
        let ghost recs0 = records@;
        match index_container(&c, offset, &mut records) {
            Ok(()) => (),
            Err(e) => {
                proof {
                    assert(stream_index(src@, p as int) == Err::<Seq<IndexRecord>, Error>(
                        Error::CorruptBlock,
                    ));
                }
                return Err(e);
            },
        }
        proof {
            assert(records@ =~= recs0 + container_records(c@, offset));
            let cont2 = stream_index(src@, p2 as int);
            match cont2 {
                Err(_) => {},
                Ok(tail2) => {
                    assert(stream_index(src@, p as int) == Ok::<_, Error>(
                        container_records(c@, offset) + tail2,
                    ));
                    assert(recs0 + (container_records(c@, offset) + tail2) =~= records@ + tail2);
                },
            }
        }
        proof {
            assert forall|i: int|
                0 <= i < records@.len() implies #[trigger] records@[i].container_offset
                <= p2 as u64 by {
                if i < recs0.len() {
                    assert(records@[i] == recs0[i]);
                } else {
                    assert(records@[i] == record_for_slice(c@, i - recs0.len(), offset));
                }
            }
            assert forall|i: int, j: int|
                #![trigger records@[i].container_offset, records@[j].container_offset]
                0 <= i <= j < records@.len() implies records@[i].container_offset
                <= records@[j].container_offset by {
                if j < recs0.len() {
                    assert(records@[i] == recs0[i]);
                    assert(records@[j] == recs0[j]);
                } else {
                    assert(records@[j] == record_for_slice(c@, j - recs0.len(), offset));
                    if i < recs0.len() {
                        assert(records@[i] == recs0[i]);
                        assert(records@[i].container_offset <= p as u64);
                    } else {
                        assert(records@[i] == record_for_slice(c@, i - recs0.len(), offset));
                    }
                }
            }
        }
        p = p2;
    }
}

} // verus!
