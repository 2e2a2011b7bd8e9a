//! A genotype field value: a typed scalar or a comma-separated array
//! whose missing elements are written as a dot.
//!
//! A floating-point value is held as its validated text: the crate never
//! computes with it, only checks its shape and hands it through unchanged.

use vstd::prelude::*;

use crate::text::{
    i32_str, int_str_value, is_digit, is_int_str, parse_i32_str, push_i32, split_spec, split_str,
    str_eq,
};

verus! {

/// The declared cardinality of a genotype field.
#[derive(Clone, Copy, Debug, Eq, PartialEq, Structural)]
pub enum Number {
    /// A fixed count of values.
    Count(usize),
    /// One value per alternate allele.
    A,
    /// One value per allele, reference included.
    R,
    /// One value per genotype.
    G,
    /// An unknown count.
    Unknown,
}

/// The declared type of a genotype field.
#[derive(Clone, Copy, Debug, Eq, PartialEq, Structural)]
pub enum Type {
    /// 32-bit signed integers.
    Integer,
    /// Single-precision floating-point numbers, held as text.
    Float,
    /// Single characters.
    Character,
    /// Strings, percent-encoded on the wire.
    String,
}

/// A genotype field value.
#[derive(Clone, Debug, PartialEq)]
pub enum Value {
    /// A 32-bit integer.
    Integer(i32),
    /// A floating-point number, as its validated text.
    Float(String),
    /// A character.
    Character(char),
    /// A string.
    String(String),
    /// An array of integers, a missing element as `None`.
    IntegerArray(Vec<Option<i32>>),
    /// An array of floating-point texts, a missing element as `None`.
    FloatArray(Vec<Option<String>>),
    /// An array of characters, a missing element as `None`.
    CharacterArray(Vec<Option<char>>),
    /// An array of strings, a missing element as `None`.
    StringArray(Vec<Option<String>>),
}

/// An error returned when a raw genotype field value fails to parse.
#[derive(Clone, Copy, Debug, Eq, PartialEq, Structural)]
pub enum ParseError {
    /// The field's cardinality does not go with its type.
    InvalidNumberForType(Number, Type),
    /// An integer is malformed or out of range.
    InvalidInteger,
    /// A floating-point text is malformed.
    InvalidFloat,
    /// A character value is not a single character.
    InvalidCharacter,
    /// A string value's percent-encoding is malformed.
    InvalidString,
}

/// The end of the run of digits beginning at `from`.
pub open spec fn digits_run_end(s: Seq<char>, from: int) -> int
    decreases s.len() - from,
{
    if 0 <= from < s.len() && is_digit(s[from]) {
        digits_run_end(s, from + 1)
    } else {
        from
    }
}

/// A scanned digit run is the run the spec names.
proof fn lemma_digits_run(s: Seq<char>, from: int, end: int)
    requires
        0 <= from <= end <= s.len(),
        forall|j: int| from <= j < end ==> is_digit(#[trigger] s[j]),
        end == s.len() || !is_digit(s[end]),
    ensures
        digits_run_end(s, from) == end,
    decreases end - from,
{
    if from < end {
        lemma_digits_run(s, from + 1, end);
    }
}

/// Whether `s` is a floating-point literal: an optional sign, digits
/// with an optional fraction (or a bare fraction), and an optional
/// exponent of an exponent mark, an optional sign, and digits.
pub open spec fn is_float_str(s: Seq<char>) -> bool {
    let start: int = if s.len() > 0 && (s[0] == '-' || s[0] == '+') {
        1
    } else {
        0
    };
    let ie = digits_run_end(s, start);
    let fe = if ie < s.len() && s[ie] == '.' {
        digits_run_end(s, ie + 1)
    } else {
        ie
    };
    &&& (ie > start || (ie < s.len() && s[ie] == '.' && fe > ie + 1))
    &&& (fe == s.len() || {
        &&& (s[fe] == 'e' || s[fe] == 'E')
        &&& ({
            let ds = if fe + 1 < s.len() && (s[fe + 1] == '-' || s[fe + 1] == '+') {
                fe + 2
            } else {
                fe + 1
            };
            ds < s.len() && digits_run_end(s, ds) == s.len()
        })
    })
}

/// The end of the digit run beginning at `from`, scanned.
fn scan_digits(s: &str, from: usize) -> (r: usize)
    requires
        from <= s@.len(),
    ensures
        from <= r <= s@.len(),
        digits_run_end(s@, from as int) == r as int,
{
    let len = s.unicode_len();
    let mut i = from;
    while i < len
        invariant
            from <= i <= len,
            len == s@.len(),
            forall|j: int| from <= j < i ==> is_digit(#[trigger] s@[j]),
        decreases len - i,
    {
        let cu = s.get_char(i) as u32;
        if !(cu >= 48 && cu <= 57) {
            proof {
                lemma_digits_run(s@, from as int, i as int);
            }
            return i;
        }
        i += 1;
    }
    proof {
        lemma_digits_run(s@, from as int, len as int);
    }
    i
}

/// Checks that `s` is a floating-point literal.
pub fn check_float_str(s: &str) -> (r: bool)
    ensures
        r == is_float_str(s@),
{
    let len = s.unicode_len();
    let mut start: usize = 0;
    if len > 0 {
        let c = s.get_char(0);
        if c == '-' || c == '+' {
            start = 1;
        }
    }
    let ie = scan_digits(s, start);
    let mut fe = ie;
    let mut mantissa_ok = ie > start;
    if ie < len && s.get_char(ie) == '.' {
        fe = scan_digits(s, ie + 1);
        mantissa_ok = ie > start || fe > ie + 1;
    }
    if !mantissa_ok {
        return false;
    }
    if fe == len {
        return true;
    }
    let c = s.get_char(fe);
    if !(c == 'e' || c == 'E') {
        return false;
    }
    let mut ds = fe + 1;
    if ds < len {
        let c2 = s.get_char(ds);
        if c2 == '-' || c2 == '+' {
            ds = fe + 2;
        }
    }
    if ds >= len {
        return false;
    }
    let de = scan_digits(s, ds);
    de == len
}

/// The value of a hexadecimal digit byte, or -1.
pub open spec fn hex_val(b: u8) -> int {
    if 48 <= b <= 57 {
        b - 48
    } else if 65 <= b <= 70 {
        b - 55
    } else if 97 <= b <= 102 {
        b - 87
    } else {
        -1
    }
}

/// What percent-decoding yields, over bytes: a percent sign followed by
/// two hexadecimal digits stands for one byte; everything else — a
/// malformed escape included — stands for itself.
pub open spec fn percent_decode_bytes(s: Seq<u8>) -> Seq<u8>
    decreases s.len(),
{
    if s.len() == 0 {
        seq![]
    } else if s[0] == 0x25 && s.len() >= 3 && hex_val(s[1]) >= 0 && hex_val(s[2]) >= 0 {
        seq![((hex_val(s[1]) * 16 + hex_val(s[2])) as u8)] + percent_decode_bytes(s.skip(3))
    } else {
        seq![s[0]] + percent_decode_bytes(s.skip(1))
    }
}

/// The percent-decoded bytes of a text.
pub open spec fn percent_decoded_of(s: Seq<char>) -> Seq<u8> {
    percent_decode_bytes(vstd::utf8::encode_utf8(s))
}

/// Whether a text's percent-decoded bytes are themselves a well-formed
/// text: the one thing percent decoding refuses.
pub open spec fn percent_decodable(s: Seq<char>) -> bool {
    vstd::utf8::valid_utf8(percent_decoded_of(s))
}

/// The value of a hexadecimal digit byte, scanned.
fn hex_val_of(b: u8) -> (r: i32)
    ensures
        r as int == hex_val(b),
{
    if b >= 48 && b <= 57 {
        (b - 48) as i32
    } else if b >= 65 && b <= 70 {
        (b - 55) as i32
    } else if b >= 97 && b <= 102 {
        (b - 87) as i32
    } else {
        -1
    }
}

/// Percent-decodes `s`: every well-formed escape becomes its byte, a
/// malformed escape passes through unchanged, and the decoded bytes must
/// form a well-formed text.
pub fn percent_decode(s: &str) -> (r: Result<String, ParseError>)
    ensures
        match r {
            Ok(t) => {
                &&& percent_decodable(s@)
                &&& vstd::utf8::encode_utf8(t@) == percent_decoded_of(s@)
            },
            Err(e) => {
                &&& e == ParseError::InvalidString
                &&& !percent_decodable(s@)
            },
        },
{
    let bytes = s.as_bytes();
    let len = bytes.len();
    let mut out: Vec<u8> = Vec::new();
    let mut i: usize = 0;
    proof {
        assert(bytes@.skip(0) =~= bytes@);
        assert(out@ + percent_decode_bytes(bytes@) =~= percent_decode_bytes(bytes@));
    }
    while i < len
        invariant
            i <= len,
            len == bytes@.len(),
            bytes@ == vstd::utf8::encode_utf8(s@),
            percent_decode_bytes(bytes@) == out@ + percent_decode_bytes(bytes@.skip(i as int)),
        decreases len - i,
    {
        let b = bytes[i];
        let mut consumed: usize = 1;
        if b == 0x25 && len - i >= 3 {
            let h1 = hex_val_of(bytes[i + 1]);
            let h2 = hex_val_of(bytes[i + 2]);
            proof {
                assert(bytes@.skip(i as int)[1] == bytes@[i + 1]);
                assert(bytes@.skip(i as int)[2] == bytes@[i + 2]);
            }
            if h1 >= 0 && h2 >= 0 {
                out.push((h1 * 16 + h2) as u8);
                consumed = 3;
            } else {
                out.push(b);
            }
        } else {
            out.push(b);
        }
        proof {
            let tail = bytes@.skip(i as int);
            let rest = percent_decode_bytes(bytes@.skip(i + consumed));
            assert(tail.skip(consumed as int) =~= bytes@.skip(i + consumed));
            assert(out@ + rest =~= (out@.drop_last() + (seq![out@.last()] + rest)));
        }
        i += consumed;
    }
    proof {
        assert(bytes@.skip(i as int) =~= Seq::<u8>::empty());
        assert(out@ + Seq::<u8>::empty() =~= out@);
    }
    match crate::text::str_from_utf8(out.as_slice()) {
        Ok(decoded) => {
            let t = decoded.to_owned();
            proof {
                assert(vstd::utf8::encode_utf8(t@) == out@);
            }
            Ok(t)
        },
        Err(_) => Err(ParseError::InvalidString),
    }
}

/// Parses a value that must be exactly one character.
pub fn parse_raw_char(s: &str) -> (r: Result<char, ParseError>)
    ensures
        match r {
            Ok(c) => s@ == seq![c],
            Err(e) => {
                &&& e == ParseError::InvalidCharacter
                &&& s@.len() != 1
            },
        },
{
    if s.unicode_len() != 1 {
        return Err(ParseError::InvalidCharacter);
    }
    let c = s.get_char(0);
    proof {
        assert(s@ =~= seq![c]);
    }
    Ok(c)
}

/// Whether `o` is the integer element the raw piece denotes: a dot for a
/// missing element, an integer literal otherwise.
pub open spec fn int_elem_ok(p: Seq<char>, o: Option<i32>) -> bool {
    match o {
        None => p == seq!['.'],
        Some(n) => is_int_str(p) && n as int == int_str_value(p),
    }
}

/// Whether `o` is the float element the raw piece denotes.
pub open spec fn float_elem_ok(p: Seq<char>, o: Option<String>) -> bool {
    match o {
        None => p == seq!['.'],
        Some(t) => is_float_str(p) && t@ == p,
    }
}

/// Whether `o` is the character element the raw piece denotes.
pub open spec fn char_elem_ok(p: Seq<char>, o: Option<char>) -> bool {
    match o {
        None => p == seq!['.'],
        Some(c) => p == seq![c],
    }
}

/// Whether `o` is the string element the raw piece denotes, decoded.
pub open spec fn string_elem_ok(p: Seq<char>, o: Option<String>) -> bool {
    match o {
        None => p == seq!['.'],
        Some(t) => percent_decodable(p) && vstd::utf8::encode_utf8(t@) == percent_decoded_of(p),
    }
}

/// Whether a raw scalar field can stand at the given type.
pub open spec fn single_valid(ty: Type, s: Seq<char>) -> bool {
    match ty {
        Type::Integer => is_int_str(s) && -0x80000000 <= int_str_value(s) <= 0x7fffffff,
        Type::Float => is_float_str(s),
        Type::Character => s.len() == 1,
        Type::String => percent_decodable(s),
    }
}

/// Whether a raw array element can stand at the given type: a dot, or a
/// scalar of the type.
pub open spec fn elem_valid(ty: Type, p: Seq<char>) -> bool {
    p == seq!['.'] || single_valid(ty, p)
}

/// Whether a value is what a raw field, read at a cardinality and type,
/// denotes: a scalar for a count of one, an array otherwise, each
/// element its piece's value or missing for a dot.
pub open spec fn value_ok(number: Number, ty: Type, s: Seq<char>, v: Value) -> bool {
    &&& number != Number::Count(0)
    &&& match v {
        Value::Integer(n) => ty == Type::Integer && number == Number::Count(1) && is_int_str(s)
            && n as int == int_str_value(s),
        Value::Float(t) => ty == Type::Float && number == Number::Count(1) && is_float_str(s) && t@
            == s,
        Value::Character(c) => ty == Type::Character && number == Number::Count(1) && s == seq![c],
        Value::String(t) => ty == Type::String && number == Number::Count(1) && (percent_decodable(
            s,
        ) && vstd::utf8::encode_utf8(t@) == percent_decoded_of(s)),
        Value::IntegerArray(vs) => ty == Type::Integer && number != Number::Count(1) && {
            let pieces = split_spec(s, ',');
            &&& vs@.len() == pieces.len()
            &&& forall|i: int| 0 <= i < pieces.len() ==> int_elem_ok(#[trigger] pieces[i], vs@[i])
        },
        Value::FloatArray(vs) => ty == Type::Float && number != Number::Count(1) && {
            let pieces = split_spec(s, ',');
            &&& vs@.len() == pieces.len()
            &&& forall|i: int| 0 <= i < pieces.len() ==> float_elem_ok(#[trigger] pieces[i], vs@[i])
        },
        Value::CharacterArray(vs) => ty == Type::Character && number != Number::Count(1) && {
            let pieces = split_spec(s, ',');
            &&& vs@.len() == pieces.len()
            &&& forall|i: int| 0 <= i < pieces.len() ==> char_elem_ok(#[trigger] pieces[i], vs@[i])
        },
        Value::StringArray(vs) => ty == Type::String && number != Number::Count(1) && {
            let pieces = split_spec(s, ',');
            &&& vs@.len() == pieces.len()
            &&& forall|i: int| 0 <= i < pieces.len() ==> string_elem_ok(
                #[trigger] pieces[i],
                vs@[i],
            )
        },
    }
}

/// The error a value of the given type is refused with.
pub open spec fn type_error(ty: Type) -> ParseError {
    match ty {
        Type::Integer => ParseError::InvalidInteger,
        Type::Float => ParseError::InvalidFloat,
        Type::Character => ParseError::InvalidCharacter,
        Type::String => ParseError::InvalidString,
    }
}

/// Parses a raw genotype field value at the given cardinality and type:
/// one value for a count of one, a comma-separated array otherwise. A
/// count of zero goes with no type.
pub fn parse(number: Number, ty: Type, s: &str) -> (r: Result<Value, ParseError>)
    ensures
        r matches Ok(v) ==> value_ok(number, ty, s@, v),
        r matches Err(e) ==> (e == ParseError::InvalidNumberForType(number, ty) <==> number
            == Number::Count(0)),
        number == Number::Count(1) ==> (r is Ok <==> single_valid(ty, s@)),
        number != Number::Count(0) && number != Number::Count(1) ==> (r is Ok <==> forall|i: int|
            0 <= i < split_spec(s@, ',').len() ==> elem_valid(ty, #[trigger] split_spec(s@, ',')[i])),
        number != Number::Count(0) ==> (r matches Err(e) ==> e == type_error(ty)),
{
    if matches!(number, Number::Count(0)) {
        return Err(ParseError::InvalidNumberForType(number, ty));
    }
    let single = matches!(number, Number::Count(1));
    match ty {
        Type::Integer => {
            if single {
                match parse_i32_str(s) {
                    Some(n) => Ok(Value::Integer(n)),
                    None => Err(ParseError::InvalidInteger),
                }
            } else {
                let pieces = split_str(s, ',');
                let ghost pv = split_spec(s@, ',');
                let mut vs: Vec<Option<i32>> = Vec::new();
                let mut i: usize = 0;
                while i < pieces.len()
                    invariant
                        i <= pieces@.len(),
                        number != Number::Count(0),
                        number != Number::Count(1),
                        pv == split_spec(s@, ','),
                        pv == pieces@.map_values(|x: String| x@),
                        vs@.len() == i,
                        ty == Type::Integer,
                        forall|j: int| 0 <= j < i ==> elem_valid(ty, #[trigger] pv[j]),
                        forall|j: int| 0 <= j < i ==> int_elem_ok(#[trigger] pv[j], vs@[j]),
                    decreases pieces@.len() - i,
                {
                    let piece = &pieces[i];
                    proof {
                        assert(pv[i as int] == pieces@[i as int]@);
                        reveal_strlit(".");
                        assert("."@ =~= seq!['.']);
                    }
                    if crate::text::str_eq(piece.as_str(), ".") {
                        proof {
                            assert("."@ =~= seq!['.']);
                        }
                        vs.push(None);
                    } else {
                        match parse_i32_str(piece.as_str()) {
                            Some(n) => vs.push(Some(n)),
                            None => {
                                proof {
                                    assert(!elem_valid(ty, pv[i as int]));
                                }
                                return Err(ParseError::InvalidInteger);
                            },
                        }
                    }
                    i += 1;
                }
                Ok(Value::IntegerArray(vs))
            }
        },
        Type::Float => {
            if single {
                if check_float_str(s) {
                    Ok(Value::Float(s.to_owned()))
                } else {
                    Err(ParseError::InvalidFloat)
                }
            } else {
                let pieces = split_str(s, ',');
                let ghost pv = split_spec(s@, ',');
                let mut vs: Vec<Option<String>> = Vec::new();
                let mut i: usize = 0;
                while i < pieces.len()
                    invariant
                        i <= pieces@.len(),
                        number != Number::Count(0),
                        number != Number::Count(1),
                        pv == split_spec(s@, ','),
                        pv == pieces@.map_values(|x: String| x@),
                        vs@.len() == i,
                        ty == Type::Float,
                        forall|j: int| 0 <= j < i ==> elem_valid(ty, #[trigger] pv[j]),
                        forall|j: int| 0 <= j < i ==> float_elem_ok(#[trigger] pv[j], vs@[j]),
                    decreases pieces@.len() - i,
                {
                    let piece = &pieces[i];
                    proof {
                        assert(pv[i as int] == pieces@[i as int]@);
                        reveal_strlit(".");
                        assert("."@ =~= seq!['.']);
                    }
                    if crate::text::str_eq(piece.as_str(), ".") {
                        proof {
                            assert("."@ =~= seq!['.']);
                        }
                        vs.push(None);
                    } else {
                        if check_float_str(piece.as_str()) {
                            vs.push(Some(piece.clone()));
                        } else {
                            proof {
                                assert(!elem_valid(ty, pv[i as int]));
                            }
                            return Err(ParseError::InvalidFloat);
                        }
                    }
                    i += 1;
                }
                Ok(Value::FloatArray(vs))
            }
        },
        Type::Character => {
            if single {
                match parse_raw_char(s) {
                    Ok(c) => Ok(Value::Character(c)),
                    Err(e) => Err(e),
                }
            } else {
                let pieces = split_str(s, ',');
                let ghost pv = split_spec(s@, ',');
                let mut vs: Vec<Option<char>> = Vec::new();
                let mut i: usize = 0;
                while i < pieces.len()
                    invariant
                        i <= pieces@.len(),
                        number != Number::Count(0),
                        number != Number::Count(1),
                        pv == split_spec(s@, ','),
                        pv == pieces@.map_values(|x: String| x@),
                        vs@.len() == i,
                        ty == Type::Character,
                        forall|j: int| 0 <= j < i ==> elem_valid(ty, #[trigger] pv[j]),
                        forall|j: int| 0 <= j < i ==> char_elem_ok(#[trigger] pv[j], vs@[j]),
                    decreases pieces@.len() - i,
                {
                    let piece = &pieces[i];
                    proof {
                        assert(pv[i as int] == pieces@[i as int]@);
                        reveal_strlit(".");
                        assert("."@ =~= seq!['.']);
                    }
                    if crate::text::str_eq(piece.as_str(), ".") {
                        proof {
                            assert("."@ =~= seq!['.']);
                        }
                        vs.push(None);
                    } else {
                        match parse_raw_char(piece.as_str()) {
                            Ok(c) => vs.push(Some(c)),
                            Err(e) => {
                                proof {
                                    assert(!elem_valid(ty, pv[i as int]));
                                }
                                return Err(e);
                            },
                        }
                    }
                    i += 1;
                }
                Ok(Value::CharacterArray(vs))
            }
        },
        Type::String => {
            if single {
                match percent_decode(s) {
                    Ok(t) => Ok(Value::String(t)),
                    Err(e) => Err(e),
                }
            } else {
                let pieces = split_str(s, ',');
                let ghost pv = split_spec(s@, ',');
                let mut vs: Vec<Option<String>> = Vec::new();
                let mut i: usize = 0;
                while i < pieces.len()
                    invariant
                        i <= pieces@.len(),
                        number != Number::Count(0),
                        number != Number::Count(1),
                        pv == split_spec(s@, ','),
                        pv == pieces@.map_values(|x: String| x@),
                        vs@.len() == i,
                        ty == Type::String,
                        forall|j: int| 0 <= j < i ==> elem_valid(ty, #[trigger] pv[j]),
                        forall|j: int| 0 <= j < i ==> string_elem_ok(#[trigger] pv[j], vs@[j]),
                    decreases pieces@.len() - i,
                {
                    let piece = &pieces[i];
                    proof {
                        assert(pv[i as int] == pieces@[i as int]@);
                        reveal_strlit(".");
                        assert("."@ =~= seq!['.']);
                    }
                    if crate::text::str_eq(piece.as_str(), ".") {
                        proof {
                            assert("."@ =~= seq!['.']);
                        }
                        vs.push(None);
                    } else {
                        match percent_decode(piece.as_str()) {
                            Ok(t) => vs.push(Some(t)),
                            Err(e) => {
                                proof {
                                    assert(!elem_valid(ty, pv[i as int]));
                                }
                                return Err(e);
                            },
                        }
                    }
                    i += 1;
                }
                Ok(Value::StringArray(vs))
            }
        },
    }
}

/// The cardinality and type a genotype key declares.
#[derive(Clone, Copy, Debug, Eq, PartialEq, Structural)]
pub struct Format {
    /// The declared cardinality.
    pub number: Number,
    /// The declared type.
    pub ty: Type,
}

impl Value {
    /// Parses a raw genotype field value for the given key's format.
    pub fn from_str_format(s: &str, format: &Format) -> (r: Result<Value, ParseError>)
        ensures
            r matches Ok(v) ==> value_ok(format.number, format.ty, s@, v),
            r matches Err(e) ==> (e == ParseError::InvalidNumberForType(format.number, format.ty)
                <==> format.number == Number::Count(0)),
            format.number == Number::Count(1) ==> (r is Ok <==> single_valid(format.ty, s@)),
            format.number != Number::Count(0) && format.number != Number::Count(1) ==> (r is Ok
                <==> forall|i: int|
                0 <= i < split_spec(s@, ',').len() ==> elem_valid(
                    format.ty,
                    #[trigger] split_spec(s@, ',')[i],
                )),
    {
        parse(format.number, format.ty, s)
    }
}

/// The text of a maybe-missing integer element.
pub open spec fn int_elem_str(o: Option<i32>) -> Seq<char> {
    match o {
        None => seq!['.'],
        Some(n) => i32_str(n),
    }
}

/// The text of a maybe-missing float element.
pub open spec fn float_elem_str(o: Option<String>) -> Seq<char> {
    match o {
        None => seq!['.'],
        Some(t) => t@,
    }
}

/// The text of a maybe-missing character element.
pub open spec fn char_elem_str(o: Option<char>) -> Seq<char> {
    match o {
        None => seq!['.'],
        Some(c) => seq![c],
    }
}

/// The text of a maybe-missing string element.
pub open spec fn string_elem_str(o: Option<String>) -> Seq<char> {
    match o {
        None => seq!['.'],
        Some(t) => t@,
    }
}

/// The texts, joined with commas.
pub open spec fn join_comma(ts: Seq<Seq<char>>) -> Seq<char>
    decreases ts.len(),
{
    if ts.len() == 0 {
        seq![]
    } else if ts.len() == 1 {
        ts[0]
    } else {
        join_comma(ts.drop_last()) + seq![','] + ts.last()
    }
}

/// The wire text of a value: a scalar as itself, an array as its
/// elements joined with commas, a missing element as a dot.
pub open spec fn value_text(v: Value) -> Seq<char> {
    match v {
        Value::Integer(n) => i32_str(n),
        Value::Float(t) => t@,
        Value::Character(c) => seq![c],
        Value::String(t) => t@,
        Value::IntegerArray(vs) => join_comma(vs@.map_values(|o: Option<i32>| int_elem_str(o))),
        Value::FloatArray(vs) => join_comma(
            vs@.map_values(|o: Option<String>| float_elem_str(o)),
        ),
        Value::CharacterArray(vs) => join_comma(
            vs@.map_values(|o: Option<char>| char_elem_str(o)),
        ),
        Value::StringArray(vs) => join_comma(
            vs@.map_values(|o: Option<String>| string_elem_str(o)),
        ),
    }
}

impl Value {
    /// The value's wire text.
    pub fn to_string(&self) -> (r: String)
        ensures
            r@ == value_text(*self),
    {
        let mut out = String::new();
        match self {
            Value::Integer(n) => {
                push_i32(&mut out, *n);
                proof {
                    assert(out@ =~= value_text(*self));
                }
            },
            Value::Float(t) => {
                out.append(t.as_str());
                proof {
                    assert(out@ =~= value_text(*self));
                }
            },
            Value::Character(c) => {
                out.push(*c);
                proof {
                    assert(out@ =~= value_text(*self));
                }
            },
            Value::String(t) => {
                out.append(t.as_str());
                proof {
                    assert(out@ =~= value_text(*self));
                }
            },
            Value::IntegerArray(vs) => {
                let ghost texts = vs@.map_values(|o: Option<i32>| int_elem_str(o));
                let mut i: usize = 0;
                proof {
                    assert(out@ =~= join_comma(texts.take(0)));
                }
                while i < vs.len()
                    invariant
                        i <= vs@.len(),
                        texts == vs@.map_values(|o: Option<i32>| int_elem_str(o)),
                        out@ == join_comma(texts.take(i as int)),
                    decreases vs@.len() - i,
                {
                    if i > 0 {
                        out.push(',');
                    }
                    match &vs[i] {
                        Some(n) => push_i32(&mut out, *n),
                        None => out.push('.'),
                    }
                    proof {
                        assert(texts.take(i + 1).drop_last() =~= texts.take(i as int));
                        assert(texts.take(i + 1).last() == texts[i as int]);
                        assert(out@ =~= join_comma(texts.take(i + 1)));
                    }
                    i += 1;
                }
                proof {
                    assert(texts.take(texts.len() as int) =~= texts);
                }
            },
            Value::FloatArray(vs) => {
                let ghost texts = vs@.map_values(|o: Option<String>| float_elem_str(o));
                let mut i: usize = 0;
                proof {
                    assert(out@ =~= join_comma(texts.take(0)));
                }
                while i < vs.len()
                    invariant
                        i <= vs@.len(),
                        texts == vs@.map_values(|o: Option<String>| float_elem_str(o)),
                        out@ == join_comma(texts.take(i as int)),
                    decreases vs@.len() - i,
                {
                    if i > 0 {
                        out.push(',');
                    }
                    match &vs[i] {
                        Some(t) => out.append(t.as_str()),
                        None => out.push('.'),
                    }
                    proof {
                        assert(texts.take(i + 1).drop_last() =~= texts.take(i as int));
                        assert(texts.take(i + 1).last() == texts[i as int]);
                        assert(out@ =~= join_comma(texts.take(i + 1)));
                    }
                    i += 1;
                }
                proof {
                    assert(texts.take(texts.len() as int) =~= texts);
                }
            },
            Value::CharacterArray(vs) => {
                let ghost texts = vs@.map_values(|o: Option<char>| char_elem_str(o));
                let mut i: usize = 0;
                proof {
                    assert(out@ =~= join_comma(texts.take(0)));
                }
                while i < vs.len()
                    invariant
                        i <= vs@.len(),
                        texts == vs@.map_values(|o: Option<char>| char_elem_str(o)),
                        out@ == join_comma(texts.take(i as int)),
                    decreases vs@.len() - i,
                {
                    if i > 0 {
                        out.push(',');
                    }
                    match &vs[i] {
                        Some(c) => out.push(*c),
                        None => out.push('.'),
                    }
                    proof {
                        assert(texts.take(i + 1).drop_last() =~= texts.take(i as int));
                        assert(texts.take(i + 1).last() == texts[i as int]);
                        assert(out@ =~= join_comma(texts.take(i + 1)));
                    }
                    i += 1;
                }
                proof {
                    assert(texts.take(texts.len() as int) =~= texts);
                }
            },
            Value::StringArray(vs) => {
                let ghost texts = vs@.map_values(|o: Option<String>| string_elem_str(o));
                let mut i: usize = 0;
                proof {
                    assert(out@ =~= join_comma(texts.take(0)));
                }
                while i < vs.len()
                    invariant
                        i <= vs@.len(),
                        texts == vs@.map_values(|o: Option<String>| string_elem_str(o)),
                        out@ == join_comma(texts.take(i as int)),
                    decreases vs@.len() - i,
                {
                    if i > 0 {
                        out.push(',');
                    }
                    match &vs[i] {
                        Some(t) => out.append(t.as_str()),
                        None => out.push('.'),
                    }
                    proof {
                        assert(texts.take(i + 1).drop_last() =~= texts.take(i as int));
                        assert(texts.take(i + 1).last() == texts[i as int]);
                        assert(out@ =~= join_comma(texts.take(i + 1)));
                    }
                    i += 1;
                }
                proof {
                    assert(texts.take(texts.len() as int) =~= texts);
                }
            },
        }
        out
    }
}

} // verus!