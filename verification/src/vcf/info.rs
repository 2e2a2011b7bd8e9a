//! A record's info column: an ordered map from keys to optional typed
//! values, at most one entry per key, in insertion order.

use vstd::prelude::*;

use crate::text::{find_char, split_spec, split_str, str_eq};
use crate::vcf::sample_value::{parse, single_valid, value_ok, Number, Type, Value};

verus! {

/// An error when a raw info column fails to parse.
#[derive(Clone, Debug, PartialEq)]
pub enum ParseError {
    /// The input is empty.
    Empty,
    /// A field is invalid.
    InvalidField,
    /// A key appears more than once.
    DuplicateKey(String),
}

/// The position of the first entry carrying `key`, if any.
pub open spec fn find_key(s: Seq<(Seq<char>, Option<Value>)>, key: Seq<char>) -> Option<int>
    decreases s.len(),
{
    if s.len() == 0 {
        None
    } else if s[0].0 == key {
        Some(0)
    } else {
        match find_key(s.skip(1), key) {
            None => None,
            Some(i) => Some(i + 1),
        }
    }
}

/// What found positions mean: the key stands there and nowhere earlier.
pub proof fn lemma_find_key(s: Seq<(Seq<char>, Option<Value>)>, key: Seq<char>)
    ensures
        match find_key(s, key) {
            None => forall|i: int| 0 <= i < s.len() ==> (#[trigger] s[i]).0 != key,
            Some(i) => {
                &&& 0 <= i < s.len()
                &&& s[i].0 == key
                &&& forall|j: int| 0 <= j < i ==> (#[trigger] s[j]).0 != key
            },
        },
    decreases s.len(),
{
    if s.len() == 0 {
    } else if s[0].0 == key {
    } else {
        lemma_find_key(s.skip(1), key);
        match find_key(s.skip(1), key) {
            None => {
                assert forall|i: int| 0 <= i < s.len() implies (#[trigger] s[i]).0 != key by {
                    if i > 0 {
                        assert(s.skip(1)[i - 1] == s[i]);
                    }
                }
            },
            Some(j) => {
                assert(s.skip(1)[j] == s[j + 1]);
                assert forall|k: int| 0 <= k < j + 1 implies (#[trigger] s[k]).0 != key by {
                    if k > 0 {
                        assert(s.skip(1)[k - 1] == s[k]);
                    }
                }
            },
        }
    }
}

/// A record's info column: entries in insertion order, keys unique.
#[derive(Clone, Debug, PartialEq)]
pub struct Info {
    entries: Vec<(String, Option<Value>)>,
}

impl View for Info {
    type V = Seq<(Seq<char>, Option<Value>)>;

    closed spec fn view(&self) -> Seq<(Seq<char>, Option<Value>)> {
        self.entries@.map_values(|e: (String, Option<Value>)| (e.0@, e.1))
    }
}

impl Info {
    /// What the ordered map keeps at all times: each key appears once.
    pub open spec fn wf(self) -> bool {
        forall|i: int, j: int|
            0 <= i < j < self@.len() ==> (#[trigger] self@[i]).0 != (#[trigger] self@[j]).0
    }

    /// An empty info column.
    pub fn new() -> (r: Info)
        ensures
            r@.len() == 0,
            r.wf(),
    {
        let r = Info { entries: Vec::new() };
        proof {
            assert(r@ =~= Seq::<(Seq<char>, Option<Value>)>::empty());
        }
        r
    }

    /// The number of entries.
    pub fn len(&self) -> (r: usize)
        ensures
            r == self@.len(),
    {
        self.entries.len()
    }

    /// Whether there are no entries.
    pub fn is_empty(&self) -> (r: bool)
        ensures
            r == (self@.len() == 0),
    {
        self.entries.is_empty()
    }

    /// Removes all entries.
    pub fn clear(&mut self)
        ensures
            final(self)@.len() == 0,
            final(self).wf(),
    {
        self.entries.clear();
        proof {
            assert(self@ =~= Seq::<(Seq<char>, Option<Value>)>::empty());
        }
    }

    /// The index of the entry carrying `key`, if any.
    pub fn get_index_of(&self, key: &str) -> (r: Option<usize>)
        ensures
            match r {
                Some(i) => find_key(self@, key@) == Some(i as int),
                None => find_key(self@, key@) is None,
            },
    {
        proof {
            lemma_find_key(self@, key@);
        }
        let mut i: usize = 0;
        while i < self.entries.len()
            invariant
                i <= self@.len(),
                self@.len() == self.entries@.len(),
                self@ == self.entries@.map_values(|e: (String, Option<Value>)| (e.0@, e.1)),
                forall|j: int| 0 <= j < i ==> (#[trigger] self@[j]).0 != key@,
                match find_key(self@, key@) {
                    None => forall|j: int|
                        0 <= j < self@.len() ==> (#[trigger] self@[j]).0 != key@,
                    Some(k) => 0 <= k < self@.len() && self@[k].0 == key@ && forall|j: int|
                        0 <= j < k ==> (#[trigger] self@[j]).0 != key@,
                },
            decreases self@.len() - i,
        {
            proof {
                assert(self@[i as int] == (self.entries@[i as int].0@, self.entries@[i as int].1));
            }
            if str_eq(self.entries[i].0.as_str(), key) {
                proof {
                    if find_key(self@, key@) is Some {
                        let k = find_key(self@, key@)->Some_0;
                        if k < i {
                            assert(self@[k].0 == key@);
                        } else if k > i {
                            assert(self@[i as int].0 != key@);
                        }
                    }
                }
                return Some(i);
            }
            i += 1;
        }
        proof {
            if find_key(self@, key@) is Some {
                let k = find_key(self@, key@)->Some_0;
                assert(self@[k].0 != key@);
            }
        }
        None
    }

    /// The value of the entry carrying `key`, if any.
    pub fn get(&self, key: &str) -> (r: Option<&Option<Value>>)
        ensures
            match r {
                Some(v) => {
                    &&& find_key(self@, key@) is Some
                    &&& *v == self@[find_key(self@, key@)->Some_0].1
                },
                None => find_key(self@, key@) is None,
            },
    {
        proof {
            lemma_find_key(self@, key@);
        }
        match self.get_index_of(key) {
            Some(i) => Some(&self.entries[i].1),
            None => None,
        }
    }

    /// Appends an entry whose key is not yet present.
    pub fn push_new(&mut self, key: String, value: Option<Value>)
        requires
            find_key(old(self)@, key@) is None,
            old(self).wf(),
        ensures
            final(self)@ == old(self)@.push((key@, value)),
            final(self).wf(),
    {
        proof {
            lemma_find_key(self@, key@);
        }
        self.entries.push((key, value));
        proof {
            assert(self@ =~= old(self)@.push((key@, value)));
        }
    }

    /// The key of the entry at `i`.
    pub fn key_at(&self, i: usize) -> (r: &String)
        requires
            i < self@.len(),
        ensures
            r@ == self@[i as int].0,
    {
        proof {
            assert(self@[i as int] == (self.entries@[i as int].0@, self.entries@[i as int].1));
        }
        &self.entries[i].0
    }

    /// The value of the entry at `i`.
    pub fn value_at(&self, i: usize) -> (r: &Option<Value>)
        requires
            i < self@.len(),
        ensures
            *r == self@[i as int].1,
    {
        proof {
            assert(self@[i as int] == (self.entries@[i as int].0@, self.entries@[i as int].1));
        }
        &self.entries[i].1
    }

    /// Removes the entry at `i`, keeping the order of the rest.
    pub fn remove_entry(&mut self, i: usize)
        requires
            i < old(self)@.len(),
            old(self).wf(),
        ensures
            final(self)@ == old(self)@.remove(i as int),
            final(self).wf(),
            forall|k: Seq<char>|
                old(self)@[i as int].0 == k ==> find_key(final(self)@, k) is None,
    {
        let ghost cur = self@;
        self.entries.remove(i);
        proof {
            assert(self@ =~= cur.remove(i as int));
            let k = cur[i as int].0;
            assert forall|j: int| 0 <= j < self@.len() implies (#[trigger] self@[j]).0 != k by {
                if j < i {
                    assert(self@[j] == cur[j]);
                } else {
                    assert(self@[j] == cur[j + 1]);
                }
            }
            lemma_find_key(self@, k);
            if find_key(self@, k) is Some {
                let m = find_key(self@, k)->Some_0;
                assert(self@[m].0 != k);
            }
            assert forall|a: int, b: int|
                0 <= a < b < self@.len() implies (#[trigger] self@[a]).0 != (
            #[trigger] self@[b]).0 by {
                let a2: int = if a < i {
                    a
                } else {
                    a + 1
                };
                let b2: int = if b < i {
                    b
                } else {
                    b + 1
                };
                assert(self@[a] == cur[a2]);
                assert(self@[b] == cur[b2]);
            }
        }
    }
}

/// The cardinality and type a reserved info key declares; any other key
/// is read as one string.
pub open spec fn key_format(key: Seq<char>) -> (Number, Type) {
    if key == seq!['N', 'S'] || key == seq!['D', 'P'] {
        (Number::Count(1), Type::Integer)
    } else {
        (Number::Count(1), Type::String)
    }
}

/// Exec form of [`key_format`].
fn key_format_of(key: &str) -> (r: (Number, Type))
    ensures
        r == key_format(key@),
{
    proof {
        reveal_strlit("NS");
        reveal_strlit("DP");
        assert("NS"@ =~= seq!['N', 'S']);
        assert("DP"@ =~= seq!['D', 'P']);
    }
    if str_eq(key, "NS") || str_eq(key, "DP") {
        (Number::Count(1), Type::Integer)
    } else {
        (Number::Count(1), Type::String)
    }
}

/// Whether one raw info field can stand: a bare key is always a flag,
/// and a `key=text` field needs a text valid at the key's format.
pub open spec fn info_field_valid(p: Seq<char>) -> bool {
    match find_char(p, '=') {
        None => true,
        Some(i) => single_valid(key_format(p.take(i)).1, p.skip(i + 1)),
    }
}

/// Whether `key` and `v` are what the raw piece denotes: a bare key is a
/// flag with no value, and `key=text` carries the text read at the key's
/// format.
pub open spec fn info_field_ok(p: Seq<char>, key: Seq<char>, v: Option<Value>) -> bool {
    match find_char(p, '=') {
        None => key == p && v is None,
        Some(i) => {
            &&& key == p.take(i)
            &&& v is Some
            &&& value_ok(key_format(p.take(i)).0, key_format(p.take(i)).1, p.skip(i + 1), v->Some_0)
        },
    }
}

/// Parses one raw info field.
fn parse_info_field(s: &str) -> (r: Result<(String, Option<Value>), ParseError>)
    ensures
        r is Ok <==> info_field_valid(s@),
        match r {
            Ok((key, v)) => info_field_ok(s@, key@, v),
            Err(e) => e == ParseError::InvalidField,
        },
{
    let len = s.unicode_len();
    let mut i: usize = 0;
    while i < len
        invariant
            i <= len,
            len == s@.len(),
            forall|j: int| 0 <= j < i ==> s@[j] != '=',
        decreases len - i,
    {
        if s.get_char(i) == '=' {
            proof {
                crate::text::lemma_find_char_prefix(s@, '=', i as int);
            }
            let key = s.substring_char(0, i);
            let raw = s.substring_char(i + 1, len);
            let (number, ty) = key_format_of(key);
            proof {
                assert(key@ =~= s@.take(i as int));
                assert(raw@ =~= s@.skip(i + 1));
            }
            let v = match parse(number, ty, raw) {
                Ok(v) => v,
                Err(_) => {
                    return Err(ParseError::InvalidField);
                },
            };
            return Ok((key.to_owned(), Some(v)));
        }
        i += 1;
    }
    proof {
        crate::text::lemma_find_char_prefix(s@, '=', len as int);
    }
    Ok((s.to_owned(), None))
}

/// What stops a run of raw info fields, given the keys already in the
/// map: the first field that does not parse, or the first whose key is
/// already present.
pub ghost enum InfoFailure {
    /// A field's value does not parse at its key's format.
    Field,
    /// This key appears a second time.
    Duplicate(Seq<char>),
}

/// The key a raw info field carries: everything before the first equals
/// sign, or the whole field for a bare flag.
pub open spec fn info_field_key(p: Seq<char>) -> Seq<char> {
    match find_char(p, '=') {
        None => p,
        Some(i) => p.take(i),
    }
}

/// The first failure in a run of raw info fields, given the keys already
/// seen, or nothing where every field parses and no key repeats.
pub open spec fn info_failure(pieces: Seq<Seq<char>>, seen: Seq<Seq<char>>) -> Option<InfoFailure>
    decreases pieces.len(),
{
    if pieces.len() == 0 {
        None
    } else if !info_field_valid(pieces[0]) {
        Some(InfoFailure::Field)
    } else {
        let key = info_field_key(pieces[0]);
        if seen.contains(key) {
            Some(InfoFailure::Duplicate(key))
        } else {
            info_failure(pieces.skip(1), seen.push(key))
        }
    }
}

/// The keys of a map's entries, in order.
pub open spec fn keys_of(es: Seq<(Seq<char>, Option<Value>)>) -> Seq<Seq<char>> {
    es.map_values(|e: (Seq<char>, Option<Value>)| e.0)
}

/// Parses a raw info column into `info`: semicolon-separated fields,
/// each a key with an optional value, appended in order. A key already
/// in the map — from this column or from before — is a duplicate: the
/// entry it collides with is removed, and the duplicate is refused. An
/// empty column is refused with the map untouched.
pub fn parse_info(s: &str, info: &mut Info) -> (r: Result<(), ParseError>)
    requires
        old(info).wf(),
    ensures
        final(info).wf(),
        ({
            let pieces = split_spec(s@, ';');
            let seen0 = keys_of(old(info)@);
            match r {
                Ok(()) => {
                    &&& s@.len() > 0
                    &&& info_failure(pieces, seen0) is None
                    &&& final(info)@.len() == old(info)@.len() + pieces.len()
                    &&& forall|j: int|
                        0 <= j < old(info)@.len() ==> final(info)@[j] == #[trigger] old(info)@[j]
                    &&& forall|j: int|
                        0 <= j < pieces.len() ==> info_field_ok(
                            #[trigger] pieces[j],
                            final(info)@[old(info)@.len() + j].0,
                            final(info)@[old(info)@.len() + j].1,
                        )
                },
                Err(ParseError::Empty) => {
                    &&& s@.len() == 0
                    &&& final(info)@ == old(info)@
                },
                Err(ParseError::InvalidField) => {
                    &&& s@.len() > 0
                    &&& info_failure(pieces, seen0) == Some(InfoFailure::Field)
                },
                Err(ParseError::DuplicateKey(k)) => {
                    &&& s@.len() > 0
                    &&& info_failure(pieces, seen0) == Some(InfoFailure::Duplicate(k@))
                    &&& find_key(final(info)@, k@) is None
                },
            }
        }),
{
    if s.is_empty() {
        return Err(ParseError::Empty);
    }
    let pieces = split_str(s, ';');
    let ghost pv = split_spec(s@, ';');
    let ghost seen0 = keys_of(old(info)@);
    let ghost n0 = old(info)@.len() as int;
    let mut i: usize = 0;
    proof {
        assert(pv.skip(0) =~~= pv);
    }
    while i < pieces.len()
        invariant
            i <= pieces@.len(),
            pv == split_spec(s@, ';'),
            pv == pieces@.map_values(|x: String| x@),
            s@.len() > 0,
            seen0 == keys_of(old(info)@),
            n0 == old(info)@.len() as int,
            info@.len() == n0 + i,
            info.wf(),
            forall|j: int| 0 <= j < n0 ==> info@[j] == #[trigger] old(info)@[j],
            forall|j: int|
                0 <= j < i ==> info_field_ok(#[trigger] pv[j], info@[n0 + j].0, info@[n0 + j].1),
            info_failure(pv, seen0) == info_failure(pv.skip(i as int), keys_of(info@)),
        decreases pieces@.len() - i,
    {
        let ghost seen = keys_of(info@);
        proof {
            assert(pv[i as int] == pieces@[i as int]@);
        }
        let (key, value) = match parse_info_field(pieces[i].as_str()) {
            Ok(v) => v,
            Err(e) => {
                proof {
                    assert(!info_field_valid(pv[i as int]));
                }
                return Err(e);
            },
        };
        let ghost pkey = info_field_key(pv[i as int]);
        proof {
            assert(key@ == pkey);
            lemma_find_key(info@, key@);
            if find_key(info@, key@) is Some {
                let k = find_key(info@, key@)->Some_0;
                assert(seen[k] == info@[k].0);
                assert(seen.contains(pkey));
            } else {
                if seen.contains(pkey) {
                    let k = choose|k: int| 0 <= k < seen.len() && seen[k] == pkey;
                    assert(info@[k].0 == pkey);
                }
            }
        }
        match info.get_index_of(key.as_str()) {
            Some(idx) => {
                proof {
                    lemma_find_key(info@, key@);
                }
                info.remove_entry(idx);
                return Err(ParseError::DuplicateKey(key));
            },
            None => (),
        }
        let ghost info0 = info@;
        info.push_new(key, value);
        proof {
            assert(keys_of(info@) =~= seen.push(pkey));
            assert(pv.skip(i as int).skip(1) =~~= pv.skip(i + 1));
            assert forall|j: int|
                0 <= j < i + 1 implies info_field_ok(
                #[trigger] pv[j],
                info@[n0 + j].0,
                info@[n0 + j].1,
            ) by {
                if j < i {
                    assert(info@[n0 + j] == info0[n0 + j]);
                }
            }
        }
        i += 1;
    }
    proof {
        assert(pv.skip(i as int) =~~= Seq::<Seq<char>>::empty());
    }
    Ok(())
}

} // verus!