//! Record attributes: an ordered list of `key=value` entries, written
//! semicolon-separated.

use vstd::prelude::*;

use crate::text::{find_char, split_spec, split_str};

verus! {

/// One attribute entry: a key and a value.
#[derive(Clone, Debug, Eq, PartialEq)]
pub struct Entry {
    key: String,
    value: String,
}

impl View for Entry {
    type V = (Seq<char>, Seq<char>);

    closed spec fn view(&self) -> (Seq<char>, Seq<char>) {
        (self.key@, self.value@)
    }
}

impl Entry {
    /// An entry of the given key and value.
    pub fn new(key: &str, value: &str) -> (r: Entry)
        ensures
            r@ == (key@, value@),
    {
        Entry { key: key.to_owned(), value: value.to_owned() }
    }

    /// The entry's key.
    pub fn key(&self) -> (r: &str)
        ensures
            r@ == self@.0,
    {
        self.key.as_str()
    }

    /// The entry's value.
    pub fn value(&self) -> (r: &str)
        ensures
            r@ == self@.1,
    {
        self.value.as_str()
    }

    /// A copy of the entry, equal to it.
    pub fn duplicate(&self) -> (r: Entry)
        ensures
            r@ == self@,
    {
        Entry { key: self.key.clone(), value: self.value.clone() }
    }
}

/// The text of one entry: its key, an equals sign, its value.
pub open spec fn entry_str(e: (Seq<char>, Seq<char>)) -> Seq<char> {
    e.0 + seq!['='] + e.1
}

/// An error returned when raw attributes fail to parse.
#[derive(Clone, Copy, Debug, Eq, PartialEq, Structural)]
pub enum ParseError {
    /// The input attributes hold an entry without an equals sign.
    InvalidEntry,
}

/// Whether `e` is the entry the raw piece `p` denotes: the key is what
/// stands before the first equals sign, the value everything after it.
pub open spec fn entry_ok(p: Seq<char>, e: (Seq<char>, Seq<char>)) -> bool {
    match find_char(p, '=') {
        None => false,
        Some(i) => e.0 == p.take(i) && e.1 == p.skip(i + 1),
    }
}

/// The error raw attributes are refused with, or nothing where every
/// semicolon-separated piece has an equals sign. Empty input is an empty
/// list.
pub open spec fn attributes_parse_err(s: Seq<char>) -> Option<ParseError> {
    if s.len() == 0 {
        None
    } else if exists|i: int|
        0 <= i < split_spec(s, ';').len() && find_char(#[trigger] split_spec(s, ';')[i], '=')
            is None {
        Some(ParseError::InvalidEntry)
    } else {
        None
    }
}

/// Whether the entries are what the raw pieces denote, one for one and
/// in order.
pub open spec fn entries_match(pieces: Seq<Seq<char>>, es: Seq<(Seq<char>, Seq<char>)>) -> bool {
    &&& es.len() == pieces.len()
    &&& forall|i: int| 0 <= i < pieces.len() ==> entry_ok(#[trigger] pieces[i], es[i])
}

/// Record attributes: entries in order.
#[derive(Clone, Debug, Eq, PartialEq)]
pub struct Attributes {
    entries: Vec<Entry>,
}

impl View for Attributes {
    type V = Seq<(Seq<char>, Seq<char>)>;

    closed spec fn view(&self) -> Seq<(Seq<char>, Seq<char>)> {
        self.entries@.map_values(|e: Entry| e@)
    }
}

/// The text of attributes: the entries, semicolon-separated.
pub open spec fn attributes_str(es: Seq<(Seq<char>, Seq<char>)>) -> Seq<char>
    decreases es.len(),
{
    if es.len() == 0 {
        seq![]
    } else if es.len() == 1 {
        entry_str(es[0])
    } else {
        attributes_str(es.drop_last()) + seq![';'] + entry_str(es.last())
    }
}

impl Attributes {
    /// Empty attributes.
    pub fn new() -> (r: Attributes)
        ensures
            r@.len() == 0,
    {
        let r = Attributes { entries: Vec::new() };
        proof {
            assert(r@ =~= Seq::<(Seq<char>, Seq<char>)>::empty());
        }
        r
    }

    /// Attributes of the given entries, in order.
    pub fn from_entries(entries: Vec<Entry>) -> (r: Attributes)
        ensures
            r@ == entries@.map_values(|e: Entry| e@),
    {
        Attributes { entries }
    }

    /// The number of entries.
    pub fn len(&self) -> (r: usize)
        ensures
            r == self@.len(),
    {
        self.entries.len()
    }

    /// Whether there are no entries.
    pub fn is_empty(&self) -> (r: bool)
        ensures
            r == (self@.len() == 0),
    {
        self.entries.is_empty()
    }

    /// The entry at `i`.
    pub fn get(&self, i: usize) -> (r: &Entry)
        requires
            i < self@.len(),
        ensures
            r@ == self@[i as int],
    {
        &self.entries[i]
    }

    /// The text of the attributes: the entries in order, each as
    /// `key=value`, semicolon-separated.
    pub fn to_string(&self) -> (r: String)
        ensures
            r@ == attributes_str(self@),
    {
        let mut out = String::new();
        let mut i: usize = 0;
        proof {
            assert(out@ =~= attributes_str(self@.take(0)));
        }
        while i < self.entries.len()
            invariant
                i <= self@.len(),
                self@.len() == self.entries@.len(),
                self@ == self.entries@.map_values(|e: Entry| e@),
                out@ == attributes_str(self@.take(i as int)),
            decreases self@.len() - i,
        {
            if i > 0 {
                out.push(';');
            }
            out.append(self.entries[i].key.as_str());
            out.push('=');
            out.append(self.entries[i].value.as_str());
            proof {
                assert(self@.take(i + 1).drop_last() =~= self@.take(i as int));
                assert(self@.take(i + 1).last() == self@[i as int]);
                assert(out@ =~= attributes_str(self@.take(i + 1)));
            }
            i += 1;
        }
        proof {
            assert(self@.take(self@.len() as int) =~= self@);
        }
        out
    }

    /// Parses raw attributes: semicolon-separated `key=value` entries.
    /// An empty string is an empty list; an entry without an equals sign
    /// is refused.
    pub fn from_str(s: &str) -> (r: Result<Attributes, ParseError>)
        ensures
            match r {
                Ok(a) => {
                    &&& attributes_parse_err(s@) is None
                    &&& (s@.len() == 0 ==> a@.len() == 0)
                    &&& (s@.len() > 0 ==> entries_match(split_spec(s@, ';'), a@))
                },
                Err(e) => attributes_parse_err(s@) == Some(e),
            },
    {
        if s.is_empty() {
            return Ok(Attributes::new());
        }
        let pieces = split_str(s, ';');
        let ghost pv = split_spec(s@, ';');
        let mut entries: Vec<Entry> = Vec::new();
        let mut i: usize = 0;
        while i < pieces.len()
            invariant
                i <= pieces@.len(),
                pv == split_spec(s@, ';'),
                pv == pieces@.map_values(|x: String| x@),
                s@.len() > 0,
                entries@.len() == i,
                forall|j: int|
                    0 <= j < i ==> entry_ok(
                        #[trigger] pv[j],
                        entries@.map_values(|e: Entry| e@)[j],
                    ),
            decreases pieces@.len() - i,
        {
            let piece = &pieces[i];
            let eq = match parse_entry(piece.as_str()) {
                Some(e) => e,
                None => {
                    proof {
                        assert(pv[i as int] == pieces@[i as int]@);
                        assert(find_char(pv[i as int], '=') is None);
                    }
                    return Err(ParseError::InvalidEntry);
                },
            };
            let ghost es0 = entries@.map_values(|e: Entry| e@);
            entries.push(eq);
            proof {
                assert(entries@.map_values(|e: Entry| e@) =~= es0.push(entries@.last()@));
            }
            i += 1;
        }
        let r = Attributes { entries };
        proof {
            if attributes_parse_err(s@) is Some {
                let k = choose|k: int|
                    0 <= k < pv.len() && find_char(#[trigger] pv[k], '=') is None;
                assert(entry_ok(pv[k], r@[k]));
            }
        }
        Ok(r)
    }
}

/// Parses one entry: the key before the first equals sign, the value
/// after it. An entry without an equals sign does not stand.
fn parse_entry(s: &str) -> (r: Option<Entry>)
    ensures
        match r {
            Some(e) => entry_ok(s@, e@),
            None => find_char(s@, '=') is None,
        },
{
    let len = s.unicode_len();
    let mut i: usize = 0;
    while i < len
        invariant
            i <= len,
            len == s@.len(),
            forall|j: int| 0 <= j < i ==> s@[j] != '=',
        decreases len - i,
    {
        if s.get_char(i) == '=' {
            proof {
                crate::text::lemma_find_char_prefix(s@, '=', i as int);
            }
            let key = s.substring_char(0, i);
            let value = s.substring_char(i + 1, len);
            let e = Entry { key: key.to_owned(), value: value.to_owned() };
            proof {
                assert(key@ =~= s@.take(i as int));
                assert(value@ =~= s@.skip(i + 1));
            }
            return Some(e);
        }
        i += 1;
    }
    proof {
        crate::text::lemma_find_char_prefix(s@, '=', len as int);
    }
    None
}

} // verus!
