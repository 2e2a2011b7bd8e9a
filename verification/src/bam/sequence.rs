//! Decoding a record's sequence from its packed binary form: two bases
//! per byte, four bits each.

use vstd::prelude::*;

verus! {

/// A sequence base.
#[derive(Clone, Copy, Debug, Eq, PartialEq, Structural)]
pub enum Base {
    /// Equal to the reference base.
    Eq,
    /// Adenine.
    A,
    /// Cytosine.
    C,
    /// aMino: adenine or cytosine.
    M,
    /// Guanine.
    G,
    /// puRine: adenine or guanine.
    R,
    /// Strong: cytosine or guanine.
    S,
    /// Not thymine.
    V,
    /// Thymine.
    T,
    /// Weak: adenine or thymine.
    W,
    /// pYrimidine: cytosine or thymine.
    Y,
    /// Not guanine.
    H,
    /// Keto: guanine or thymine.
    K,
    /// Not cytosine.
    D,
    /// Not adenine.
    B,
    /// aNy base.
    N,
}

/// The base a four-bit code names. Only the low four bits count.
pub open spec fn decode_base_spec(n: u8) -> Base {
    let m = n & 0x0f;
    if m == 0 {
        Base::Eq
    } else if m == 1 {
        Base::A
    } else if m == 2 {
        Base::C
    } else if m == 3 {
        Base::M
    } else if m == 4 {
        Base::G
    } else if m == 5 {
        Base::R
    } else if m == 6 {
        Base::S
    } else if m == 7 {
        Base::V
    } else if m == 8 {
        Base::T
    } else if m == 9 {
        Base::W
    } else if m == 10 {
        Base::Y
    } else if m == 11 {
        Base::H
    } else if m == 12 {
        Base::K
    } else if m == 13 {
        Base::D
    } else if m == 14 {
        Base::B
    } else {
        Base::N
    }
}

/// Decodes the base a four-bit code names.
pub fn decode_base(n: u8) -> (r: Base)
    ensures
        r == decode_base_spec(n),
{
    let m = n & 0x0f;
    if m == 0 {
        Base::Eq
    } else if m == 1 {
        Base::A
    } else if m == 2 {
        Base::C
    } else if m == 3 {
        Base::M
    } else if m == 4 {
        Base::G
    } else if m == 5 {
        Base::R
    } else if m == 6 {
        Base::S
    } else if m == 7 {
        Base::V
    } else if m == 8 {
        Base::T
    } else if m == 9 {
        Base::W
    } else if m == 10 {
        Base::Y
    } else if m == 11 {
        Base::H
    } else if m == 12 {
        Base::K
    } else if m == 13 {
        Base::D
    } else if m == 14 {
        Base::B
    } else {
        Base::N
    }
}

/// An error when a raw record sequence fails to decode.
#[derive(Clone, Copy, Debug, Eq, PartialEq, Structural)]
pub enum ParseError {
    /// The buffer ended before the packed sequence was complete.
    UnexpectedEof,
}

/// A record's sequence of bases.
#[derive(Clone, Debug, Default, Eq, PartialEq)]
pub struct Sequence {
    bases: Vec<Base>,
}

impl View for Sequence {
    type V = Seq<Base>;

    closed spec fn view(&self) -> Seq<Base> {
        self.bases@
    }
}

impl Sequence {
    /// An empty sequence.
    pub fn new() -> (r: Sequence)
        ensures
            r@.len() == 0,
    {
        Sequence { bases: Vec::new() }
    }

    /// A sequence of the given bases.
    pub fn from_bases(bases: Vec<Base>) -> (r: Sequence)
        ensures
            r@ == bases@,
    {
        Sequence { bases }
    }

    /// The number of bases.
    pub fn len(&self) -> (r: usize)
        ensures
            r == self@.len(),
    {
        self.bases.len()
    }

    /// Whether the sequence holds no bases.
    pub fn is_empty(&self) -> (r: bool)
        ensures
            r == (self@.len() == 0),
    {
        self.bases.is_empty()
    }

    /// Removes all bases.
    pub fn clear(&mut self)
        ensures
            final(self)@.len() == 0,
    {
        self.bases.clear();
    }

    /// The base at `i`.
    pub fn get(&self, i: usize) -> (r: Base)
        requires
            i < self@.len(),
        ensures
            r == self@[i as int],
    {
        self.bases[i]
    }
}

/// The base at position `j` of a packed sequence: the high four bits of
/// byte `j / 2` for even `j`, the low four bits for odd `j`.
pub open spec fn packed_base(src: Seq<u8>, j: int) -> Base {
    if j % 2 == 0 {
        decode_base_spec(src[j / 2] >> 4)
    } else {
        decode_base_spec(src[j / 2])
    }
}

/// Decodes `l_seq` bases from the packed bytes at the head of `src` into
/// `sequence`, replacing its contents. The packed form holds two bases a
/// byte; a buffer shorter than the packed length is refused, and the
/// sequence is then left untouched.
pub fn get_sequence(src: &[u8], sequence: &mut Sequence, l_seq: usize) -> (r: Result<
    (),
    ParseError,
>)
    ensures
        match r {
            Ok(()) => {
                &&& src@.len() >= (l_seq + 1) / 2
                &&& final(sequence)@.len() == l_seq
                &&& forall|j: int|
                    0 <= j < l_seq ==> final(sequence)@[j] == packed_base(src@, j)
            },
            Err(e) => {
                &&& e == ParseError::UnexpectedEof
                &&& src@.len() < (l_seq + 1) / 2
                &&& final(sequence)@ == old(sequence)@
            },
        },
{
    let seq_len = l_seq / 2 + l_seq % 2;
    proof {
        assert(seq_len == ((l_seq + 1) / 2) as int);
    }
    if src.len() < seq_len {
        return Err(ParseError::UnexpectedEof);
    }
    sequence.clear();
    let mut i: usize = 0;
    while i < seq_len
        invariant
            i <= seq_len,
            seq_len == l_seq / 2 + l_seq % 2,
            seq_len <= src@.len(),
            sequence@.len() == if 2 * i <= l_seq {
                2 * i as int
            } else {
                l_seq as int
            },
            forall|j: int| 0 <= j < sequence@.len() ==> sequence@[j] == packed_base(src@, j),
        decreases seq_len - i,
    {
        let b = src[i];
        if 2 * i < l_seq {
            sequence.bases.push(decode_base(b >> 4));
        }
        if 2 * i + 1 < l_seq {
            sequence.bases.push(decode_base(b));
        }
        i += 1;
    }
    Ok(())
}

} // verus!
