//! The optional fields of an alignment record: an ordered map from
//! two-character tags to typed values, with at most one field per tag.

use vstd::prelude::*;

use crate::text::{
    find_char, i32_str, int_str_value, is_digit, is_int_str, lemma_find_char,
    lemma_find_char_prefix, lemma_i32_str_round_trip, parse_i32_str, push_i32, split_spec,
    split_str,
};

verus! {

/// A two-character field tag: a letter, then a letter or digit.
#[derive(Clone, Copy, Debug, PartialEq, Eq, Structural)]
pub struct Tag {
    /// First character, as its code.
    pub b0: u8,
    /// Second character, as its code.
    pub b1: u8,
}

/// Whether a code is an ASCII letter.
pub open spec fn is_alpha(c: int) -> bool {
    (65 <= c <= 90) || (97 <= c <= 122)
}

/// Whether two characters form a tag: a letter, then a letter or digit.
pub open spec fn is_tag_chars(c0: char, c1: char) -> bool {
    &&& is_alpha(c0 as int)
    &&& (is_alpha(c1 as int) || is_digit(c1))
}

/// The tag two characters form.
pub open spec fn tag_of_chars(c0: char, c1: char) -> Tag {
    Tag { b0: c0 as u8, b1: c1 as u8 }
}

/// The two characters of a tag.
pub open spec fn tag_chars(t: Tag) -> Seq<char> {
    seq![t.b0 as char, t.b1 as char]
}

/// A field value. The value's type tag on the wire selects the variant.
#[derive(Clone, Debug, PartialEq)]
pub enum Value {
    /// A single printable character (type `A`).
    Character(char),
    /// A 32-bit signed integer (type `i`).
    Int32(i32),
    /// A printable string (type `Z`).
    String(String),
    /// An uppercase hexadecimal byte string of even length (type `H`).
    Hex(String),
}

impl Value {
    /// A copy of the value, equal to it.
    pub fn duplicate(&self) -> (r: Value)
        ensures
            r == *self,
    {
        match self {
            Value::Character(c) => Value::Character(*c),
            Value::Int32(n) => Value::Int32(*n),
            Value::String(s) => Value::String(s.clone()),
            Value::Hex(s) => Value::Hex(s.clone()),
        }
    }
}

/// The wire type character of a value.
pub open spec fn value_type_char(v: Value) -> char {
    match v {
        Value::Character(_) => 'A',
        Value::Int32(_) => 'i',
        Value::String(_) => 'Z',
        Value::Hex(_) => 'H',
    }
}

/// The wire text of a value.
pub open spec fn value_str(v: Value) -> Seq<char> {
    match v {
        Value::Character(c) => seq![c],
        Value::Int32(n) => i32_str(n),
        Value::String(s) => s@,
        Value::Hex(s) => s@,
    }
}

/// An error returned when one raw field fails to parse.
#[derive(Clone, Copy, Debug, PartialEq, Eq, Structural)]
pub enum FieldParseError {
    /// The field does not have the tag:type:value shape.
    Invalid,
    /// The tag is not a letter followed by a letter or digit.
    InvalidTag,
    /// The type is not a single known type character.
    InvalidType,
    /// The value does not belong to the declared type.
    InvalidValue,
}

/// An error returned when raw record data fails to parse.
#[derive(Clone, Copy, Debug, PartialEq, Eq, Structural)]
pub enum ParseError {
    /// The input data contains an invalid field.
    InvalidField(FieldParseError),
    /// A tag appears more than once.
    DuplicateTag(Tag),
}

/// The position of the first field carrying `tag`, if any.
pub open spec fn find_tag(s: Seq<(Tag, Value)>, tag: Tag) -> Option<int>
    decreases s.len(),
{
    if s.len() == 0 {
        None
    } else if s[0].0 == tag {
        Some(0)
    } else {
        match find_tag(s.skip(1), tag) {
            None => None,
            Some(i) => Some(i + 1),
        }
    }
}

/// What found positions mean: the tag stands there and nowhere earlier.
pub proof fn lemma_find_tag(s: Seq<(Tag, Value)>, tag: Tag)
    ensures
        match find_tag(s, tag) {
            None => forall|i: int| 0 <= i < s.len() ==> (#[trigger] s[i]).0 != tag,
            Some(i) => {
                &&& 0 <= i < s.len()
                &&& s[i].0 == tag
                &&& forall|j: int| 0 <= j < i ==> (#[trigger] s[j]).0 != tag
            },
        },
    decreases s.len(),
{
    if s.len() == 0 {
    } else if s[0].0 == tag {
    } else {
        lemma_find_tag(s.skip(1), tag);
        match find_tag(s.skip(1), tag) {
            None => {
                assert forall|i: int| 0 <= i < s.len() implies (#[trigger] s[i]).0 != tag by {
                    if i > 0 {
                        assert(s.skip(1)[i - 1] == s[i]);
                    }
                }
            },
            Some(j) => {
                assert(s.skip(1)[j] == s[j + 1]);
                assert forall|k: int| 0 <= k < j + 1 implies (#[trigger] s[k]).0 != tag by {
                    if k > 0 {
                        assert(s.skip(1)[k - 1] == s[k]);
                    }
                }
            },
        }
    }
}

/// Record data: an ordered sequence of tag-value fields, at most one per
/// tag.
#[derive(Debug, PartialEq)]
pub struct Data {
    fields: Vec<(Tag, Value)>,
}

impl View for Data {
    type V = Seq<(Tag, Value)>;

    closed spec fn view(&self) -> Seq<(Tag, Value)> {
        self.fields@
    }
}

impl Data {
    /// Empty data, with no fields.
    pub fn new() -> (r: Data)
        ensures
            r@.len() == 0,
    {
        Data { fields: Vec::new() }
    }

    /// The number of fields.
    pub fn len(&self) -> (r: usize)
        ensures
            r == self@.len(),
    {
        self.fields.len()
    }

    /// Whether there are no fields.
    pub fn is_empty(&self) -> (r: bool)
        ensures
            r == (self@.len() == 0),
    {
        self.fields.is_empty()
    }

    /// Removes all fields.
    pub fn clear(&mut self)
        ensures
            final(self)@.len() == 0,
    {
        self.fields.clear();
    }

    /// The index of the field carrying `tag`, if any.
    pub fn get_index_of(&self, tag: Tag) -> (r: Option<usize>)
        ensures
            match r {
                Some(i) => find_tag(self@, tag) == Some(i as int),
                None => find_tag(self@, tag) is None,
            },
    {
        let mut i: usize = 0;
        proof {
            lemma_find_tag(self@, tag);
        }
        while i < self.fields.len()
            invariant
                i <= self@.len(),
                forall|j: int| 0 <= j < i ==> (#[trigger] self@[j]).0 != tag,
                match find_tag(self@, tag) {
                    None => forall|j: int| 0 <= j < self@.len() ==> (#[trigger] self@[j]).0 != tag,
                    Some(k) => 0 <= k < self@.len() && self@[k].0 == tag && forall|j: int|
                        0 <= j < k ==> (#[trigger] self@[j]).0 != tag,
                },
            decreases self@.len() - i,
        {
            if self.fields[i].0 == tag {
                proof {
                    if find_tag(self@, tag) is None {
                        assert(false);
                    } else {
                        let k = find_tag(self@, tag)->Some_0;
                        if k < i {
                            assert(self@[k].0 == tag);
                        } else if k > i {
                            assert(self@[i as int].0 != tag);
                        }
                    }
                }
                return Some(i);
            }
            i += 1;
        }
        proof {
            if find_tag(self@, tag) is Some {
                let k = find_tag(self@, tag)->Some_0;
                assert(self@[k].0 != tag);
            }
        }
        None
    }

    /// The value of the field carrying `tag`, if any.
    pub fn get(&self, tag: Tag) -> (r: Option<&Value>)
        ensures
            match r {
                Some(v) => {
                    &&& find_tag(self@, tag) is Some
                    &&& *v == self@[find_tag(self@, tag)->Some_0].1
                },
                None => find_tag(self@, tag) is None,
            },
    {
        proof {
            lemma_find_tag(self@, tag);
        }
        match self.get_index_of(tag) {
            Some(i) => Some(&self.fields[i].1),
            None => None,
        }
    }

    /// All tag-value pairs, in order.
    pub fn iter(&self) -> (r: Vec<(Tag, Value)>)
        ensures
            r@ == self@,
    {
        let mut out: Vec<(Tag, Value)> = Vec::new();
        let mut i: usize = 0;
        while i < self.fields.len()
            invariant
                i <= self@.len(),
                out@ == self@.take(i as int),
            decreases self@.len() - i,
        {
            let (t, v) = (self.fields[i].0, self.fields[i].1.duplicate());
            out.push((t, v));
            proof {
                assert(self@.take(i + 1) =~= self@.take(i as int).push(self@[i as int]));
            }
            i += 1;
        }
        proof {
            assert(self@.take(self@.len() as int) =~= self@);
        }
        out
    }

    /// All tags, in order.
    pub fn keys(&self) -> (r: Vec<Tag>)
        ensures
            r@ == self@.map_values(|f: (Tag, Value)| f.0),
    {
        let mut out: Vec<Tag> = Vec::new();
        let mut i: usize = 0;
        while i < self.fields.len()
            invariant
                i <= self@.len(),
                out@ == self@.take(i as int).map_values(|f: (Tag, Value)| f.0),
            decreases self@.len() - i,
        {
            out.push(self.fields[i].0);
            proof {
                assert(self@.take(i + 1).map_values(|f: (Tag, Value)| f.0) =~= self@.take(
                    i as int,
                ).map_values(|f: (Tag, Value)| f.0).push(self@[i as int].0));
            }
            i += 1;
        }
        proof {
            assert(self@.take(self@.len() as int) =~= self@);
        }
        out
    }

    /// All values, in order.
    pub fn values(&self) -> (r: Vec<Value>)
        ensures
            r@ == self@.map_values(|f: (Tag, Value)| f.1),
    {
        let mut out: Vec<Value> = Vec::new();
        let mut i: usize = 0;
        while i < self.fields.len()
            invariant
                i <= self@.len(),
                out@ == self@.take(i as int).map_values(|f: (Tag, Value)| f.1),
            decreases self@.len() - i,
        {
            out.push(self.fields[i].1.duplicate());
            proof {
                assert(self@.take(i + 1).map_values(|f: (Tag, Value)| f.1) =~= self@.take(
                    i as int,
                ).map_values(|f: (Tag, Value)| f.1).push(self@[i as int].1));
            }
            i += 1;
        }
        proof {
            assert(self@.take(self@.len() as int) =~= self@);
        }
        out
    }

    /// Inserts a field. A field already carrying the tag is replaced and
    /// handed back; otherwise the field is appended.
    pub fn insert(&mut self, tag: Tag, value: Value) -> (r: Option<(Tag, Value)>)
        ensures
            match find_tag(old(self)@, tag) {
                Some(i) => {
                    &&& r == Some(old(self)@[i])
                    &&& final(self)@ == old(self)@.update(i, (tag, value))
                },
                None => {
                    &&& r == None::<(Tag, Value)>
                    &&& final(self)@ == old(self)@.push((tag, value))
                },
            },
    {
        proof {
            lemma_find_tag(self@, tag);
        }
        match self.get_index_of(tag) {
            Some(i) => {
                let mut field = (tag, value);
                self.fields.set_and_swap(i, &mut field);
                Some(field)
            },
            None => {
                self.fields.push((tag, value));
                None
            },
        }
    }

    /// Removes the field carrying `tag` and hands it back, if it exists.
    /// The last field takes its place: order is not preserved.
    pub fn remove(&mut self, tag: Tag) -> (r: Option<(Tag, Value)>)
        ensures
            match find_tag(old(self)@, tag) {
                Some(i) => {
                    &&& r == Some(old(self)@[i])
                    &&& final(self)@ == old(self)@.update(i, old(self)@.last()).drop_last()
                },
                None => {
                    &&& r == None::<(Tag, Value)>
                    &&& final(self)@ == old(self)@
                },
            },
    {
        self.swap_remove(tag)
    }

    /// The wire text of the data: the fields in order, tab-separated,
    /// each as tag, type character, and value, colon-separated.
    pub fn to_string(&self) -> (r: String)
        ensures
            r@ == data_str(self@),
    {
        let mut out = String::new();
        let mut i: usize = 0;
        proof {
            assert(out@ =~= data_str(self@.take(0)));
        }
        while i < self.fields.len()
            invariant
                i <= self@.len(),
                out@ == data_str(self@.take(i as int)),
            decreases self@.len() - i,
        {
            if i > 0 {
                out.push('\t');
            }
            let tag = self.fields[i].0;
            out.push(tag.b0 as char);
            out.push(tag.b1 as char);
            out.push(':');
            match &self.fields[i].1 {
                Value::Character(c) => {
                    out.push('A');
                    out.push(':');
                    out.push(*c);
                },
                Value::Int32(n) => {
                    out.push('i');
                    out.push(':');
                    push_i32(&mut out, *n);
                },
                Value::String(s) => {
                    out.push('Z');
                    out.push(':');
                    out.append(s.as_str());
                },
                Value::Hex(s) => {
                    out.push('H');
                    out.push(':');
                    out.append(s.as_str());
                },
            }
            proof {
                assert(self@.take(i + 1).drop_last() =~= self@.take(i as int));
                assert(self@.take(i + 1).last() == self@[i as int]);
                assert(out@ =~= data_str(self@.take(i + 1)));
            }
            i += 1;
        }
        proof {
            assert(self@.take(self@.len() as int) =~= self@);
        }
        out
    }

    /// Parses raw record data: tab-separated fields, each tag, type and
    /// value. An empty string is empty data. A tag that appears twice is
    /// refused: each tag can appear only once.
    pub fn from_str(s: &str) -> (r: Result<Data, ParseError>)
        ensures
            match r {
                Ok(d) => {
                    &&& data_parse_err(s@) is None
                    &&& (s@.len() == 0 ==> d@.len() == 0)
                    &&& (s@.len() > 0 ==> fields_match(split_spec(s@, '\t'), d@))
                },
                Err(e) => data_parse_err(s@) == Some(e),
            },
    {
        if s.is_empty() {
            return Ok(Data::new());
        }
        let pieces = split_str(s, '\t');
        let ghost pv = split_spec(s@, '\t');
        let mut d = Data::new();
        let mut i: usize = 0;
        proof {
            assert(pv.skip(0) =~~= pv);
            assert(d@.map_values(|f: (Tag, Value)| f.0) =~= Seq::<Tag>::empty());
        }
        while i < pieces.len()
            invariant
                i <= pieces@.len(),
                pv == split_spec(s@, '\t'),
                pv == pieces@.map_values(|x: String| x@),
                s@.len() > 0,
                d@.len() == i,
                data_parse_err(s@) == err_of_pieces(
                    pv.skip(i as int),
                    d@.map_values(|f: (Tag, Value)| f.0),
                ),
                fields_match(pv.take(i as int), d@),
            decreases pieces@.len() - i,
        {
            let ghost seen = d@.map_values(|f: (Tag, Value)| f.0);
            let (tag, value) = match parse_field(pieces[i].as_str()) {
                Ok(v) => v,
                Err(e) => {
                    proof {
                        assert(pv.skip(i as int)[0] == pv[i as int]);
                    }
                    return Err(ParseError::InvalidField(e));
                },
            };
            proof {
                assert(pv.skip(i as int)[0] == pv[i as int]);
                lemma_find_tag(d@, tag);
                if find_tag(d@, tag) is Some {
                    let k = find_tag(d@, tag)->Some_0;
                    assert(seen[k] == d@[k].0);
                    assert(seen.contains(tag));
                } else {
                    if seen.contains(tag) {
                        let k = choose|k: int| 0 <= k < seen.len() && seen[k] == tag;
                        assert(d@[k].0 == tag);
                    }
                }
            }
            let ghost d0 = d@;
            match d.insert(tag, value) {
                Some(_) => {
                    return Err(ParseError::DuplicateTag(tag));
                },
                None => (),
            }
            proof {
                assert(d@.map_values(|f: (Tag, Value)| f.0) =~= seen.push(tag));
                assert(pv.skip(i as int).skip(1) =~~= pv.skip(i + 1));
                assert(fields_match(pv.take(i + 1), d@)) by {
                    assert(forall|j: int|
                        0 <= j < i ==> pv.take(i + 1)[j] == pv.take(i as int)[j] && d@[j] == d0[j]);
                    assert(pv.take(i + 1)[i as int] == pv[i as int]);
                }
            }
            i += 1;
        }
        proof {
            assert(pv.skip(i as int) =~~= Seq::<Seq<char>>::empty());
            assert(pv.take(i as int) =~~= pv);
        }
        Ok(d)
    }

    /// Removes the field carrying `tag` by swapping the last field into
    /// its place.
    pub fn swap_remove(&mut self, tag: Tag) -> (r: Option<(Tag, Value)>)
        ensures
            match find_tag(old(self)@, tag) {
                Some(i) => {
                    &&& r == Some(old(self)@[i])
                    &&& final(self)@ == old(self)@.update(i, old(self)@.last()).drop_last()
                },
                None => {
                    &&& r == None::<(Tag, Value)>
                    &&& final(self)@ == old(self)@
                },
            },
    {
        proof {
            lemma_find_tag(self@, tag);
        }
        match self.get_index_of(tag) {
            Some(i) => Some(self.fields.swap_remove(i)),
            None => None,
        }
    }
}

/// Whether a character can stand in a string value.
pub open spec fn is_printable(c: char) -> bool {
    32 <= c as int <= 126
}

/// Whether a character is an uppercase hexadecimal digit.
pub open spec fn is_hex_digit(c: char) -> bool {
    is_digit(c) || (65 <= c as int <= 70)
}

/// Whether `raw` can stand as a value of type `ty`.
pub open spec fn typed_value_valid(ty: char, raw: Seq<char>) -> bool {
    if ty == 'A' {
        raw.len() == 1 && is_printable(raw[0])
    } else if ty == 'i' {
        is_int_str(raw) && -0x80000000 <= int_str_value(raw) <= 0x7fffffff
    } else if ty == 'Z' {
        forall|i: int| 0 <= i < raw.len() ==> is_printable(#[trigger] raw[i])
    } else if ty == 'H' {
        raw.len() % 2 == 0 && forall|i: int| 0 <= i < raw.len() ==> is_hex_digit(#[trigger] raw[i])
    } else {
        false
    }
}

/// Whether `v` is the value that `raw`, read at type `ty`, denotes.
pub open spec fn is_value_for(v: Value, ty: char, raw: Seq<char>) -> bool {
    match v {
        Value::Character(c) => ty == 'A' && raw.len() == 1 && c == raw[0],
        Value::Int32(n) => ty == 'i' && is_int_str(raw) && n as int == int_str_value(raw),
        Value::String(s) => ty == 'Z' && s@ == raw,
        Value::Hex(s) => ty == 'H' && s@ == raw,
    }
}

/// The error a raw field is refused with, or nothing where it parses: no
/// colon-separated shape, a malformed tag, an unknown or malformed type,
/// or a value that does not belong to the type.
pub open spec fn parse_field_err(s: Seq<char>) -> Option<FieldParseError> {
    match find_char(s, ':') {
        None => Some(FieldParseError::Invalid),
        Some(p1) => {
            let rawtag = s.take(p1);
            if !(rawtag.len() == 2 && is_tag_chars(rawtag[0], rawtag[1])) {
                Some(FieldParseError::InvalidTag)
            } else {
                let rest = s.skip(p1 + 1);
                match find_char(rest, ':') {
                    None => Some(FieldParseError::Invalid),
                    Some(p2) => if p2 != 1 {
                        Some(FieldParseError::InvalidType)
                    } else {
                        let ty = rest[0];
                        if !(ty == 'A' || ty == 'i' || ty == 'Z' || ty == 'H') {
                            Some(FieldParseError::InvalidType)
                        } else if typed_value_valid(ty, rest.skip(2)) {
                            None
                        } else {
                            Some(FieldParseError::InvalidValue)
                        }
                    },
                }
            }
        },
    }
}

/// The tag of a raw field whose shape is sound.
pub open spec fn field_tag(s: Seq<char>) -> Tag {
    let p1 = find_char(s, ':')->Some_0;
    tag_of_chars(s.take(p1)[0], s.take(p1)[1])
}

/// The type character of a raw field whose shape is sound.
pub open spec fn field_type_char(s: Seq<char>) -> char {
    let p1 = find_char(s, ':')->Some_0;
    s.skip(p1 + 1)[0]
}

/// The raw value of a raw field whose shape is sound.
pub open spec fn field_raw_value(s: Seq<char>) -> Seq<char> {
    let p1 = find_char(s, ':')->Some_0;
    s.skip(p1 + 1).skip(2)
}

/// Whether `t` and `v` are what the raw field `s` denotes.
pub open spec fn parse_field_ok(s: Seq<char>, t: Tag, v: Value) -> bool {
    &&& parse_field_err(s) is None
    &&& t == field_tag(s)
    &&& is_value_for(v, field_type_char(s), field_raw_value(s))
}

/// The error raw data made of these pieces is refused with, given the
/// tags already seen, or nothing where every piece parses and no tag
/// repeats.
pub open spec fn err_of_pieces(pieces: Seq<Seq<char>>, seen: Seq<Tag>) -> Option<ParseError>
    decreases pieces.len(),
{
    if pieces.len() == 0 {
        None
    } else {
        match parse_field_err(pieces[0]) {
            Some(e) => Some(ParseError::InvalidField(e)),
            None => {
                let t = field_tag(pieces[0]);
                if seen.contains(t) {
                    Some(ParseError::DuplicateTag(t))
                } else {
                    err_of_pieces(pieces.skip(1), seen.push(t))
                }
            },
        }
    }
}

/// The error raw record data is refused with, or nothing where it
/// parses. Empty input is empty data.
pub open spec fn data_parse_err(s: Seq<char>) -> Option<ParseError> {
    if s.len() == 0 {
        None
    } else {
        err_of_pieces(split_spec(s, '\t'), seq![])
    }
}

/// Whether the fields are what the raw pieces denote, one for one and in
/// order.
pub open spec fn fields_match(pieces: Seq<Seq<char>>, fs: Seq<(Tag, Value)>) -> bool {
    &&& fs.len() == pieces.len()
    &&& forall|i: int|
        0 <= i < pieces.len() ==> parse_field_ok(#[trigger] pieces[i], fs[i].0, fs[i].1)
}

/// The wire text of one field.
pub open spec fn field_str(f: (Tag, Value)) -> Seq<char> {
    tag_chars(f.0) + seq![':'] + seq![value_type_char(f.1)] + seq![':'] + value_str(f.1)
}

/// The wire text of record data: the fields, tab-separated.
pub open spec fn data_str(fs: Seq<(Tag, Value)>) -> Seq<char>
    decreases fs.len(),
{
    if fs.len() == 0 {
        seq![]
    } else if fs.len() == 1 {
        field_str(fs[0])
    } else {
        data_str(fs.drop_last()) + seq!['\t'] + field_str(fs.last())
    }
}

/// The position of the first occurrence of `d` in `s` at or after
/// `from`, if any.
fn find_from(s: &str, d: char, from: usize) -> (r: Option<usize>)
    requires
        from <= s@.len(),
    ensures
        match r {
            Some(i) => {
                &&& from <= i < s@.len()
                &&& find_char(s@.skip(from as int), d) == Some(i - from)
            },
            None => find_char(s@.skip(from as int), d) is None,
        },
{
    let len = s.unicode_len();
    let mut i: usize = from;
    while i < len
        invariant
            from <= i <= len,
            len == s@.len(),
            forall|j: int| from <= j < i ==> s@[j] != d,
        decreases len - i,
    {
        if s.get_char(i) == d {
            proof {
                let tail = s@.skip(from as int);
                assert forall|j: int| 0 <= j < i - from implies tail[j] != d by {
                    assert(tail[j] == s@[from + j]);
                }
                assert(tail[i - from] == s@[i as int]);
                lemma_find_char_prefix(tail, d, i - from);
            }
            return Some(i);
        }
        i += 1;
    }
    proof {
        let tail = s@.skip(from as int);
        assert forall|j: int| 0 <= j < tail.len() implies tail[j] != d by {
            assert(tail[j] == s@[from + j]);
        }
        lemma_find_char_prefix(tail, d, tail.len() as int);
    }
    None
}

/// The characters of `s` from `from` to `to`, as an owned string.
fn substring_of(s: &str, from: usize, to: usize) -> (r: String)
    requires
        from <= to <= s@.len(),
    ensures
        r@ == s@.subrange(from as int, to as int),
{
    let mut out = String::new();
    let mut i: usize = from;
    proof {
        assert(out@ =~= s@.subrange(from as int, from as int));
    }
    while i < to
        invariant
            from <= i <= to <= s@.len(),
            out@ == s@.subrange(from as int, i as int),
        decreases to - i,
    {
        out.push(s.get_char(i));
        proof {
            assert(out@ =~= s@.subrange(from as int, i + 1));
        }
        i += 1;
    }
    out
}

/// Parses one raw field: a two-character tag, a type character, and a
/// value of that type, colon-separated.
pub fn parse_field(s: &str) -> (r: Result<(Tag, Value), FieldParseError>)
    ensures
        match r {
            Ok((t, v)) => parse_field_ok(s@, t, v),
            Err(e) => parse_field_err(s@) == Some(e),
        },
{
    let len = s.unicode_len();
    proof {
        assert(s@.skip(0) =~= s@);
    }
    let p1 = match find_from(s, ':', 0) {
        Some(i) => i,
        None => {
            return Err(FieldParseError::Invalid);
        },
    };
    proof {
        crate::text::lemma_find_char(s@, ':');
    }
    if p1 != 2 {
        proof {
            assert(s@.take(find_char(s@, ':')->Some_0).len() != 2);
        }
        return Err(FieldParseError::InvalidTag);
    }
    let c0 = s.get_char(0);
    let c1 = s.get_char(1);
    let c0u = c0 as u32;
    let c1u = c1 as u32;
    let c0_alpha = (c0u >= 65 && c0u <= 90) || (c0u >= 97 && c0u <= 122);
    let c1_alnum = (c1u >= 65 && c1u <= 90) || (c1u >= 97 && c1u <= 122) || (c1u >= 48 && c1u
        <= 57);
    proof {
        assert(s@.take(2)[0] == s@[0] && s@.take(2)[1] == s@[1]);
    }
    if !(c0_alpha && c1_alnum) {
        return Err(FieldParseError::InvalidTag);
    }
    let tag = Tag { b0: c0 as u8, b1: c1 as u8 };
    let ghost rest = s@.skip(p1 + 1);
    let p2 = match find_from(s, ':', p1 + 1) {
        Some(i) => i,
        None => {
            return Err(FieldParseError::Invalid);
        },
    };
    if p2 != p1 + 2 {
        return Err(FieldParseError::InvalidType);
    }
    let ty = s.get_char(p1 + 1);
    proof {
        assert(rest[0] == s@[p1 + 1]);
        assert(rest.skip(2) =~= s@.skip(p1 + 3));
    }
    let raw = substring_of(s, p2 + 1, len);
    proof {
        assert(raw@ =~= s@.skip(p1 + 3));
    }
    if ty == 'A' {
        if raw.unicode_len() != 1 {
            return Err(FieldParseError::InvalidValue);
        }
        let c = raw.as_str().get_char(0);
        let cu = c as u32;
        if !(cu >= 32 && cu <= 126) {
            return Err(FieldParseError::InvalidValue);
        }
        Ok((tag, Value::Character(c)))
    } else if ty == 'i' {
        match parse_i32_str(raw.as_str()) {
            Some(n) => Ok((tag, Value::Int32(n))),
            None => Err(FieldParseError::InvalidValue),
        }
    } else if ty == 'Z' {
        if !all_printable(raw.as_str()) {
            return Err(FieldParseError::InvalidValue);
        }
        Ok((tag, Value::String(raw)))
    } else if ty == 'H' {
        let rlen = raw.unicode_len();
        if rlen % 2 != 0 {
            return Err(FieldParseError::InvalidValue);
        }
        if !all_hex(raw.as_str()) {
            return Err(FieldParseError::InvalidValue);
        }
        Ok((tag, Value::Hex(raw)))
    } else {
        Err(FieldParseError::InvalidType)
    }
}

/// Whether every character of `s` is printable.
fn all_printable(s: &str) -> (r: bool)
    ensures
        r == forall|j: int| 0 <= j < s@.len() ==> is_printable(#[trigger] s@[j]),
{
    let len = s.unicode_len();
    let mut i: usize = 0;
    while i < len
        invariant
            i <= len,
            len == s@.len(),
            forall|j: int| 0 <= j < i ==> is_printable(#[trigger] s@[j]),
        decreases len - i,
    {
        let cu = s.get_char(i) as u32;
        if !(cu >= 32 && cu <= 126) {
            proof {
                assert(!is_printable(s@[i as int]));
            }
            return false;
        }
        i += 1;
    }
    true
}

/// Whether every character of `s` is an uppercase hexadecimal digit.
fn all_hex(s: &str) -> (r: bool)
    ensures
        r == forall|j: int| 0 <= j < s@.len() ==> is_hex_digit(#[trigger] s@[j]),
{
    let len = s.unicode_len();
    let mut i: usize = 0;
    while i < len
        invariant
            i <= len,
            len == s@.len(),
            forall|j: int| 0 <= j < i ==> is_hex_digit(#[trigger] s@[j]),
        decreases len - i,
    {
        let cu = s.get_char(i) as u32;
        if !((cu >= 48 && cu <= 57) || (cu >= 65 && cu <= 70)) {
            proof {
                assert(!is_hex_digit(s@[i as int]));
            }
            return false;
        }
        i += 1;
    }
    true
}

/// Whether a value can stand on the wire: its text is what its type
/// carries.
pub open spec fn value_wf(v: Value) -> bool {
    match v {
        Value::Character(c) => is_printable(c),
        Value::Int32(_) => true,
        Value::String(t) => forall|i: int| 0 <= i < t@.len() ==> is_printable(#[trigger] t@[i]),
        Value::Hex(t) => t@.len() % 2 == 0 && forall|i: int|
            0 <= i < t@.len() ==> is_hex_digit(#[trigger] t@[i]),
    }
}

/// Whether a field can stand on the wire: a well-formed tag and a
/// well-formed value.
pub open spec fn field_wf(f: (Tag, Value)) -> bool {
    &&& is_tag_chars(f.0.b0 as char, f.0.b1 as char)
    &&& f.0.b0 < 128
    &&& f.0.b1 < 128
    &&& value_wf(f.1)
}

/// Whether record data can stand on the wire: every field well formed,
/// no tag repeated.
pub open spec fn data_wf(fs: Seq<(Tag, Value)>) -> bool {
    &&& forall|i: int| 0 <= i < fs.len() ==> field_wf(#[trigger] fs[i])
    &&& forall|i: int, j: int|
        0 <= i < j < fs.len() ==> (#[trigger] fs[i]).0 != (#[trigger] fs[j]).0
}

/// The digits and minus sign of an integer's text are printable and are
/// not separators.
proof fn lemma_int_str_chars(n: i32)
    ensures
        forall|i: int|
            0 <= i < i32_str(n).len() ==> is_printable(#[trigger] i32_str(n)[i]) && i32_str(n)[i]
                != ':' && i32_str(n)[i] != '\t',
{
    let s = i32_str(n);
    if n < 0 {
        crate::text::lemma_dec_str_round_trip(-(n as int));
        let ds = crate::text::dec_str_of(-(n as int));
        assert(s == seq!['-'] + ds);
        assert forall|i: int|
            0 <= i < s.len() implies is_printable(#[trigger] s[i]) && s[i] != ':' && s[i]
            != '\t' by {
            if i == 0 {
                assert(s[i] == '-');
            } else {
                assert(s[i] == ds[i - 1]);
                assert(is_digit(ds[i - 1]));
            }
        }
    } else {
        crate::text::lemma_dec_str_round_trip(n as int);
        assert(s == crate::text::dec_str_of(n as int));
        assert forall|i: int|
            0 <= i < s.len() implies is_printable(#[trigger] s[i]) && s[i] != ':' && s[i]
            != '\t' by {
            assert(is_digit(s[i]));
        }
    }
}

/// The text of a well-formed value is printable, so it holds no tab.
proof fn lemma_value_str_chars(v: Value)
    requires
        value_wf(v),
    ensures
        forall|i: int|
            0 <= i < value_str(v).len() ==> is_printable(#[trigger] value_str(v)[i])
                && value_str(v)[i] != '\t',
{
    match v {
        Value::Int32(n) => {
            lemma_int_str_chars(n);
        },
        _ => {},
    }
}

/// The wire text of a well-formed field parses back to the field itself,
/// and holds no tab.
#[verifier::rlimit(100)]
#[verifier::spinoff_prover]
proof fn lemma_field_str_round_trip(f: (Tag, Value))
    requires
        field_wf(f),
    ensures
        parse_field_ok(field_str(f), f.0, f.1),
        forall|i: int| 0 <= i < field_str(f).len() ==> #[trigger] field_str(f)[i] != '\t',
{
    let s = field_str(f);
    let tyc = value_type_char(f.1);
    let vs = value_str(f.1);
    lemma_value_str_chars(f.1);
    assert(s =~= tag_chars(f.0) + seq![':'] + seq![tyc] + seq![':'] + vs);
    assert(s[0] == (f.0.b0 as char) && s[1] == (f.0.b1 as char) && s[2] == ':' && s[3] == tyc
        && s[4] == ':');
    assert(s[0] != ':' && s[1] != ':') by {
        assert(is_tag_chars(f.0.b0 as char, f.0.b1 as char));
    }
    lemma_find_char_prefix(s, ':', 2);
    assert(s.take(2) =~= tag_chars(f.0));
    let rest = s.skip(3);
    assert(rest[0] == tyc && rest[1] == ':');
    assert(tyc != ':');
    lemma_find_char_prefix(rest, ':', 1);
    assert(rest.take(1) =~= seq![tyc]);
    assert(rest.skip(2) =~= vs);
    assert(((f.0.b0 as char) as u8) == f.0.b0 && ((f.0.b1 as char) as u8) == f.0.b1);
    match f.1 {
        Value::Int32(n) => {
            lemma_i32_str_round_trip(n);
        },
        _ => {},
    }
    assert(parse_field_err(s) is None);
    assert forall|i: int| 0 <= i < s.len() implies #[trigger] s[i] != '\t' by {
        if i >= 5 {
            assert(s[i] == vs[i - 5]);
        }
    }
}

/// The wire text of record data splits back into the fields' own texts:
/// one piece per field, in order.
proof fn lemma_data_str_split(fs: Seq<(Tag, Value)>)
    requires
        fs.len() >= 1,
        forall|i: int| 0 <= i < fs.len() ==> field_wf(#[trigger] fs[i]),
    ensures
        split_spec(data_str(fs), '\t') =~~= Seq::new(fs.len(), |i: int| field_str(fs[i])),
    decreases fs.len(),
{
    lemma_field_str_round_trip(fs[0]);
    let f0 = field_str(fs[0]);
    if fs.len() == 1 {
        assert(data_str(fs) == f0);
        lemma_find_char_prefix(f0, '\t', f0.len() as int);
        assert(split_spec(data_str(fs), '\t') =~~= Seq::new(1nat, |i: int| field_str(fs[i])));
    } else {
        lemma_data_str_cons(fs);
        let t = fs.skip(1);
        lemma_data_str_split(t);
        let s = data_str(fs);
        let rest = data_str(t);
        assert(s == f0 + seq!['\t'] + rest);
        assert forall|j: int| 0 <= j < f0.len() implies s[j] != '\t' by {
            assert(s[j] == f0[j]);
        }
        assert(s[f0.len() as int] == '\t');
        lemma_find_char_prefix(s, '\t', f0.len() as int);
        assert(s.take(f0.len() as int) =~= f0);
        assert(s.skip(f0.len() as int + 1) =~= rest);
        assert(seq![f0] + Seq::new(t.len(), |i: int| field_str(t[i])) =~~= Seq::new(
            fs.len(),
            |i: int| field_str(fs[i]),
        ));
        assert(split_spec(s, '\t') =~~= Seq::new(fs.len(), |i: int| field_str(fs[i])));
    }
}

/// The wire text of record data begins with its first field's text; the
/// rest follows a tab.
proof fn lemma_data_str_cons(fs: Seq<(Tag, Value)>)
    requires
        fs.len() >= 2,
    ensures
        data_str(fs) == field_str(fs[0]) + seq!['\t'] + data_str(fs.skip(1)),
    decreases fs.len(),
{
    let dl = fs.drop_last();
    let t = fs.skip(1);
    if fs.len() == 2 {
        assert(dl =~= seq![fs[0]]);
        assert(t =~= seq![fs[1]]);
        assert(data_str(dl) == field_str(fs[0]));
        assert(data_str(t) == field_str(fs[1]));
        assert(data_str(fs) =~= field_str(fs[0]) + seq!['\t'] + data_str(t));
    } else {
        lemma_data_str_cons(dl);
        assert(dl.skip(1) =~= t.drop_last());
        assert(dl[0] == fs[0]);
        assert(t.last() == fs.last());
        assert(data_str(fs) == data_str(dl) + seq!['\t'] + field_str(fs.last()));
        assert(data_str(t) == data_str(t.drop_last()) + seq!['\t'] + field_str(t.last()));
        assert(data_str(fs) =~= field_str(fs[0]) + seq!['\t'] + data_str(t));
    }
}

/// No run of well-formed fields with distinct tags, none seen before, is
/// refused.
proof fn lemma_fields_no_err(fs: Seq<(Tag, Value)>, seen: Seq<Tag>)
    requires
        forall|i: int| 0 <= i < fs.len() ==> field_wf(#[trigger] fs[i]),
        forall|i: int, j: int|
            0 <= i < j < fs.len() ==> (#[trigger] fs[i]).0 != (#[trigger] fs[j]).0,
        forall|i: int| 0 <= i < fs.len() ==> !seen.contains((#[trigger] fs[i]).0),
    ensures
        err_of_pieces(Seq::new(fs.len(), |i: int| field_str(fs[i])), seen) is None,
    decreases fs.len(),
{
    if fs.len() > 0 {
        let pieces = Seq::new(fs.len(), |i: int| field_str(fs[i]));
        lemma_field_str_round_trip(fs[0]);
        assert(pieces[0] == field_str(fs[0]));
        assert(field_tag(pieces[0]) == fs[0].0) by {
            assert(parse_field_ok(pieces[0], fs[0].0, fs[0].1));
        }
        assert(!seen.contains(fs[0].0));
        let t = fs.skip(1);
        assert forall|i: int| 0 <= i < t.len() implies !seen.push(fs[0].0).contains(
            (#[trigger] t[i]).0,
        ) by {
            assert(t[i] == fs[i + 1]);
            if seen.push(fs[0].0).contains(t[i].0) {
                let k = choose|k: int|
                    0 <= k < seen.push(fs[0].0).len() && seen.push(fs[0].0)[k] == t[i].0;
                if k < seen.len() {
                    assert(seen[k] == t[i].0);
                    assert(seen.contains(fs[i + 1].0));
                } else {
                    assert(fs[0].0 == fs[i + 1].0);
                }
            }
        }
        lemma_fields_no_err(t, seen.push(fs[0].0));
        assert(pieces.skip(1) =~~= Seq::new(t.len(), |i: int| field_str(t[i])));
    }
}

/// Round-trip law for record data: the wire text of well-formed data with
/// distinct tags parses back to the fields themselves, one per piece, in
/// order.
pub proof fn lemma_data_round_trip(fs: Seq<(Tag, Value)>)
    requires
        data_wf(fs),
    ensures
        data_parse_err(data_str(fs)) is None,
        fs.len() > 0 ==> fields_match(split_spec(data_str(fs), '\t'), fs),
{
    if fs.len() == 0 {
        assert(data_str(fs).len() == 0);
    } else {
        lemma_data_str_split(fs);
        let pieces = Seq::new(fs.len(), |i: int| field_str(fs[i]));
        assert(split_spec(data_str(fs), '\t') == pieces);
        assert forall|i: int|
            0 <= i < pieces.len() implies parse_field_ok(
            #[trigger] pieces[i],
            fs[i].0,
            fs[i].1,
        ) by {
            lemma_field_str_round_trip(fs[i]);
        }
        lemma_fields_no_err(fs, seq![]);
        assert(data_str(fs).len() > 0) by {
            lemma_field_str_round_trip(fs[0]);
            if fs.len() == 1 {
                assert(data_str(fs) == field_str(fs[0]));
                assert(field_str(fs[0]).len() >= 5);
            } else {
                lemma_data_str_cons(fs);
            }
        }
    }
}

} // verus!
