//! The standard tags a header contig record can carry.

use vstd::prelude::*;

use crate::text::str_eq;

verus! {

/// A standard contig record tag.
#[derive(Clone, Copy, Debug, Eq, PartialEq, Structural)]
pub enum Standard {
    /// The contig's identifier.
    Id,
    /// The contig's length in bases.
    Length,
    /// The MD5 digest of the contig's sequence.
    Md5,
    /// Where the contig's sequence can be had.
    Url,
    /// The contig's index in the header.
    Idx,
}

/// The text of a standard tag.
pub open spec fn standard_str(t: Standard) -> Seq<char> {
    match t {
        Standard::Id => seq!['I', 'D'],
        Standard::Length => seq!['l', 'e', 'n', 'g', 't', 'h'],
        Standard::Md5 => seq!['m', 'd', '5'],
        Standard::Url => seq!['U', 'R', 'L'],
        Standard::Idx => seq!['I', 'D', 'X'],
    }
}

impl Standard {
    /// The tag's text.
    pub fn as_ref(&self) -> (r: &'static str)
        ensures
            r@ == standard_str(*self),
    {
        proof {
            reveal_strlit("ID");
            reveal_strlit("length");
            reveal_strlit("md5");
            reveal_strlit("URL");
            reveal_strlit("IDX");
        }
        let r = match self {
            Standard::Id => "ID",
            Standard::Length => "length",
            Standard::Md5 => "md5",
            Standard::Url => "URL",
            Standard::Idx => "IDX",
        };
        proof {
            assert(r@ =~= standard_str(*self));
        }
        r
    }

    /// The standard tag a text names, if any: exactly the five texts of
    /// the standard tags are accepted.
    pub fn from_str(s: &str) -> (r: Result<Standard, ()>)
        ensures
            match r {
                Ok(t) => s@ == standard_str(t),
                Err(_) => {
                    &&& s@ != standard_str(Standard::Id)
                    &&& s@ != standard_str(Standard::Length)
                    &&& s@ != standard_str(Standard::Md5)
                    &&& s@ != standard_str(Standard::Url)
                    &&& s@ != standard_str(Standard::Idx)
                },
            },
    {
        proof {
            reveal_strlit("ID");
            reveal_strlit("length");
            reveal_strlit("md5");
            reveal_strlit("URL");
            reveal_strlit("IDX");
            assert("ID"@ =~= standard_str(Standard::Id));
            assert("length"@ =~= standard_str(Standard::Length));
            assert("md5"@ =~= standard_str(Standard::Md5));
            assert("URL"@ =~= standard_str(Standard::Url));
            assert("IDX"@ =~= standard_str(Standard::Idx));
        }
        if str_eq(s, "ID") {
            Ok(Standard::Id)
        } else if str_eq(s, "length") {
            Ok(Standard::Length)
        } else if str_eq(s, "md5") {
            Ok(Standard::Md5)
        } else if str_eq(s, "URL") {
            Ok(Standard::Url)
        } else if str_eq(s, "IDX") {
            Ok(Standard::Idx)
        } else {
            Err(())
        }
    }
}

} // verus!
