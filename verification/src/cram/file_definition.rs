//! The fixed prolog that precedes the first container: four magic bytes,
//! a two-byte version, and a twenty-byte file id.
//!
//! The file id is arbitrary but fixed-width; nothing in it is validated.
//! The prolog must be reproduced exactly for interoperability with
//! existing tooling.

use vstd::prelude::*;

use crate::cram::error::Error;
use crate::cram::num::append_bytes;

verus! {

/// The number of bytes in the file id.
pub const FILE_ID_LEN: usize = 20;

/// The four magic bytes that open every stream of this format.
pub open spec fn magic_bytes() -> Seq<u8> {
    seq![0x43u8, 0x52u8, 0x41u8, 0x4du8]
}

/// The fixed prolog of a stream.
#[derive(Clone, Debug, PartialEq)]
pub struct FileDefinition {
    /// Major format version.
    pub major: u8,
    /// Minor format version.
    pub minor: u8,
    /// Twenty arbitrary bytes identifying the file.
    pub file_id: Vec<u8>,
}

/// The mathematical value of a file definition.
pub ghost struct FileDefinitionView {
    pub major: u8,
    pub minor: u8,
    pub file_id: Seq<u8>,
}

impl View for FileDefinition {
    type V = FileDefinitionView;

    open spec fn view(&self) -> FileDefinitionView {
        FileDefinitionView { major: self.major, minor: self.minor, file_id: self.file_id@ }
    }
}

impl FileDefinitionView {
    /// The file id is exactly twenty bytes wide.
    pub open spec fn wf(self) -> bool {
        self.file_id.len() == FILE_ID_LEN
    }
}

/// The wire form of the prolog: magic, version pair, file id.
pub open spec fn file_definition_bytes(fd: FileDefinitionView) -> Seq<u8> {
    magic_bytes() + seq![fd.major, fd.minor] + fd.file_id
}

/// What reading the prolog at the head of `s` yields. A stream that does
/// not open with the magic bytes is not of this format.
pub open spec fn parse_file_definition(s: Seq<u8>) -> Result<(FileDefinitionView, int), Error> {
    if s.len() < 26 {
        Err(Error::UnexpectedEof)
    } else if s.take(4) != magic_bytes() {
        Err(Error::InvalidFileDefinition)
    } else {
        Ok(
            (
                FileDefinitionView { major: s[4], minor: s[5], file_id: s.subrange(6, 26) },
                26,
            ),
        )
    }
}

/// Appends the wire form of `fd` to `buf`.
pub fn write_file_definition(buf: &mut Vec<u8>, fd: &FileDefinition)
    requires
        fd@.wf(),
    ensures
        final(buf)@ == old(buf)@ + file_definition_bytes(fd@),
{
    buf.push(0x43);
    buf.push(0x52);
    buf.push(0x41);
    buf.push(0x4d);
    buf.push(fd.major);
    buf.push(fd.minor);
    append_bytes(buf, fd.file_id.as_slice());
    proof {
        assert(buf@ =~= old(buf)@ + file_definition_bytes(fd@));
    }
}

/// Reads the prolog from `src` at `pos`. Returns it and the position of
/// the first byte after it.
pub fn read_file_definition(src: &[u8], pos: usize) -> (r: Result<(FileDefinition, usize), Error>)
    requires
        pos <= src@.len(),
    ensures
        match r {
            Ok((fd, n)) => {
                &&& n == pos + 26 <= src@.len()
                &&& parse_file_definition(src@.skip(pos as int)) == Ok::<_, Error>((fd@, 26int))
            },
            Err(e) => parse_file_definition(src@.skip(pos as int)) == Err::<
                (FileDefinitionView, int),
                _,
            >(e),
        },
{
    let ghost s = src@.skip(pos as int);
    if src.len() - pos < 26 {
        return Err(Error::UnexpectedEof);
    }
    proof {
        assert(s[0] == src@[pos as int]);
        assert(s[1] == src@[pos + 1]);
        assert(s[2] == src@[pos + 2]);
        assert(s[3] == src@[pos + 3]);
        assert(s[4] == src@[pos + 4]);
        assert(s[5] == src@[pos + 5]);
    }
    if !(src[pos] == 0x43 && src[pos + 1] == 0x52 && src[pos + 2] == 0x41 && src[pos + 3]
        == 0x4d) {
        proof {
            assert(s.take(4) != magic_bytes());
        }
        return Err(Error::InvalidFileDefinition);
    }
    proof {
        assert(s.take(4) =~= magic_bytes());
    }
    let major = src[pos + 4];
    let minor = src[pos + 5];
    let file_id = vstd::slice::slice_to_vec(
        vstd::slice::slice_subrange(src, pos + 6, pos + 26),
    );
    let fd = FileDefinition { major, minor, file_id };
    proof {
        assert(fd.file_id@ =~= s.subrange(6, 26));
    }
    Ok((fd, pos + 26))
}

/// Round-trip law for the prolog.
pub proof fn lemma_file_definition_round_trip(fd: FileDefinitionView, rest: Seq<u8>)
    requires
        fd.wf(),
    ensures
        parse_file_definition(file_definition_bytes(fd) + rest) == Ok::<_, Error>((fd, 26int)),
{
    let s = file_definition_bytes(fd) + rest;
    assert(s.take(4) =~= magic_bytes());
    assert(s[4] == fd.major && s[5] == fd.minor);
    assert(s.subrange(6, 26) =~= fd.file_id);
}

} // verus!
