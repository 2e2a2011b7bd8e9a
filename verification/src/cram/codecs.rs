//! The closed registry of block compression methods.
//!
//! A one-byte tag on each block selects the transform for its payload.
//! This implementation carries the identity transform and the gzip-style
//! deflate codec; the remaining registered tags (entropy coders, the
//! block-sort family, the name tokenizer) are valid wire values that this
//! implementation does not decode, and a block naming one fails with
//! [`Error::UnsupportedCompressionMethod`] — exactly as a tag outside the
//! registry does. Every decode must produce exactly the declared raw
//! length; anything else is [`Error::CorruptBlock`], never a truncated or
//! padded buffer.

use vstd::prelude::*;

use crate::cram::error::Error;

verus! {

/// Method tag: the payload is stored as-is.
pub const METHOD_NONE: u8 = 0;

/// Method tag: the payload is a gzip-style deflate stream.
pub const METHOD_GZIP: u8 = 1;

/// What the gzip decoder yields on a byte sequence: the decoded bytes,
/// or nothing when the sequence is not a well-formed stream. A function
/// of the bytes alone.
pub uninterp spec fn gunzip_of(data: Seq<u8>) -> Option<Seq<u8>>;

/// What the gzip encoder, at its fixed default level, produces from a
/// byte sequence. A function of the bytes alone.
pub uninterp spec fn gzip_of(data: Seq<u8>) -> Seq<u8>;

/// Relies on flate2::bufread::GzDecoder (with std::io::Read::read_to_end):
/// whether a byte sequence decodes, and to what, depends on the bytes
/// alone; a malformed stream is reported as an error, never as a partial
/// buffer.
#[verifier::external_body]
fn gunzip(data: &[u8]) -> (r: Result<Vec<u8>, Error>)
    ensures
        match r {
            Ok(v) => gunzip_of(data@) == Some(v@),
            Err(e) => {
                &&& e == Error::CorruptBlock
                &&& gunzip_of(data@) is None
            },
        },
{
    let mut decoder = flate2::bufread::GzDecoder::new(data);
    let mut out = Vec::new();
    match std::io::Read::read_to_end(&mut decoder, &mut out) {
        Ok(_) => Ok(out),
        Err(_) => Err(Error::CorruptBlock),
    }
}

/// Relies on flate2::write::GzEncoder at the default compression level:
/// the output is a function of the input bytes alone, and decoding the
/// output yields the input back (the library's documented round trip).
/// Writing into a byte buffer cannot fail.
#[verifier::external_body]
fn gzip(data: &[u8]) -> (r: Vec<u8>)
    ensures
        r@ == gzip_of(data@),
        gunzip_of(r@) == Some(data@),
{
    let mut encoder = flate2::write::GzEncoder::new(Vec::new(), flate2::Compression::default());
    std::io::Write::write_all(&mut encoder, data).unwrap();
    encoder.finish().unwrap()
}

/// What decoding a payload by a method tag yields, before the raw-size
/// check: the payload itself for the identity method, the gzip decode for
/// the deflate method, and nothing for a tag this implementation does not
/// carry.
pub open spec fn spec_decompress(method: u8, data: Seq<u8>) -> Option<Seq<u8>> {
    if method == METHOD_NONE {
        Some(data)
    } else if method == METHOD_GZIP {
        gunzip_of(data)
    } else {
        None
    }
}

/// Decodes `data` by `method` and demands exactly `raw_size` bytes out.
pub fn decompress_data(method: u8, data: &[u8], raw_size: usize) -> (r: Result<Vec<u8>, Error>)
    ensures
        match r {
            Ok(v) => {
                &&& spec_decompress(method, data@) == Some(v@)
                &&& v@.len() == raw_size
            },
            Err(Error::UnsupportedCompressionMethod(t)) => {
                &&& t == method
                &&& method != METHOD_NONE
                &&& method != METHOD_GZIP
            },
            Err(Error::CorruptBlock) => {
                &&& (method == METHOD_NONE || method == METHOD_GZIP)
                &&& match spec_decompress(method, data@) {
                    None => true,
                    Some(v) => v.len() != raw_size,
                }
            },
            Err(_) => false,
        },
{
    if method == METHOD_NONE {
        if data.len() != raw_size {
            return Err(Error::CorruptBlock);
        }
        Ok(vstd::slice::slice_to_vec(data))
    } else if method == METHOD_GZIP {
        let v = match gunzip(data) {
            Ok(v) => v,
            Err(e) => {
                return Err(e);
            },
        };
        if v.len() != raw_size {
            return Err(Error::CorruptBlock);
        }
        Ok(v)
    } else {
        Err(Error::UnsupportedCompressionMethod(method))
    }
}

/// Encodes `data` by `method`. The identity method hands the bytes back;
/// the deflate method runs the gzip encoder; any other tag is refused, as
/// nothing this implementation wrote with it could be decoded again.
pub fn compress_data(method: u8, data: &[u8]) -> (r: Result<Vec<u8>, Error>)
    ensures
        match r {
            Ok(v) => {
                &&& (method == METHOD_NONE || method == METHOD_GZIP)
                &&& spec_decompress(method, v@) == Some(data@)
                &&& (method == METHOD_NONE ==> v@ == data@)
                &&& (method == METHOD_GZIP ==> v@ == gzip_of(data@))
            },
            Err(Error::UnsupportedCompressionMethod(t)) => {
                &&& t == method
                &&& method != METHOD_NONE
                &&& method != METHOD_GZIP
            },
            Err(_) => false,
        },
{
    if method == METHOD_NONE {
        Ok(vstd::slice::slice_to_vec(data))
    } else if method == METHOD_GZIP {
        Ok(gzip(data))
    } else {
        Err(Error::UnsupportedCompressionMethod(method))
    }
}

} // verus!
