//! Shared text primitives for the record-level parsers: string equality,
//! splitting, and exact decimal integer conversion in both directions.

use vstd::prelude::*;

verus! {

/// Relies on String::push: appends exactly the one character.
pub assume_specification[ std::string::String::push ](s: &mut std::string::String, c: char)
    ensures
        final(s)@ == old(s)@.push(c),
;

#[verifier::external_type_specification]
#[verifier::external_body]
pub struct ExUtf8Error(std::str::Utf8Error);

/// Relies on std::str::from_utf8: it succeeds exactly on valid UTF-8,
/// viewing the bytes as the characters they encode.
#[verifier::external_body]
pub fn str_from_utf8(v: &[u8]) -> (r: Result<&str, std::str::Utf8Error>)
    ensures
        match r {
            Ok(s) => {
                &&& vstd::utf8::encode_utf8(s@) == v@
                &&& vstd::utf8::valid_utf8(v@)
            },
            Err(_) => !vstd::utf8::valid_utf8(v@),
        },
{
    std::str::from_utf8(v)
}

/// Whether two string slices hold the same characters.
pub fn str_eq(a: &str, b: &str) -> (r: bool)
    ensures
        r == (a@ == b@),
{
    let alen = a.unicode_len();
    let blen = b.unicode_len();
    if alen != blen {
        proof {
            assert(a@ != b@);
        }
        return false;
    }
    let mut i: usize = 0;
    while i < alen
        invariant
            i <= alen,
            alen == a@.len() == b@.len(),
            forall|j: int| 0 <= j < i ==> a@[j] == b@[j],
        decreases alen - i,
    {
        if a.get_char(i) != b.get_char(i) {
            return false;
        }
        i += 1;
    }
    proof {
        assert(a@ =~= b@);
    }
    true
}

/// The position of the first occurrence of `d` in `s`, if any.
pub open spec fn find_char(s: Seq<char>, d: char) -> Option<int>
    decreases s.len(),
{
    if s.len() == 0 {
        None
    } else if s[0] == d {
        Some(0)
    } else {
        match find_char(s.skip(1), d) {
            None => None,
            Some(i) => Some(i + 1),
        }
    }
}

/// What found positions mean: the character stands there and nowhere
/// earlier.
pub proof fn lemma_find_char(s: Seq<char>, d: char)
    ensures
        match find_char(s, d) {
            None => forall|i: int| 0 <= i < s.len() ==> s[i] != d,
            Some(i) => {
                &&& 0 <= i < s.len()
                &&& s[i] == d
                &&& forall|j: int| 0 <= j < i ==> s[j] != d
            },
        },
    decreases s.len(),
{
    if s.len() == 0 {
    } else if s[0] == d {
    } else {
        lemma_find_char(s.skip(1), d);
        match find_char(s.skip(1), d) {
            None => {
                assert forall|i: int| 0 <= i < s.len() implies s[i] != d by {
                    if i > 0 {
                        assert(s.skip(1)[i - 1] == s[i]);
                    }
                }
            },
            Some(j) => {
                assert(s.skip(1)[j] == s[j + 1]);
                assert forall|k: int| 0 <= k < j + 1 implies s[k] != d by {
                    if k > 0 {
                        assert(s.skip(1)[k - 1] == s[k]);
                    }
                }
            },
        }
    }
}

/// The pieces of `s` between occurrences of `d`: always one piece more
/// than there are delimiters, each piece free of the delimiter.
pub open spec fn split_spec(s: Seq<char>, d: char) -> Seq<Seq<char>>
    decreases s.len(),
    via split_spec_decreases
{
    match find_char(s, d) {
        None => seq![s],
        Some(i) => seq![s.take(i)] + split_spec(s.skip(i + 1), d),
    }
}

#[via_fn]
proof fn split_spec_decreases(s: Seq<char>, d: char) {
    lemma_find_char(s, d);
}

/// Whether `c` is a decimal digit.
pub open spec fn is_digit(c: char) -> bool {
    48 <= c as int <= 57
}

/// The value of a decimal digit character.
pub open spec fn digit_val(c: char) -> int {
    c as int - 48
}

/// The value of a run of decimal digits, most significant first.
pub open spec fn digits_value(s: Seq<char>) -> int
    decreases s.len(),
{
    if s.len() == 0 {
        0
    } else {
        digits_value(s.take(s.len() - 1)) * 10 + digit_val(s[s.len() - 1])
    }
}

/// The sign and digit run of an integer literal: an optional leading
/// minus or plus, then the digits.
pub open spec fn int_str_digits(s: Seq<char>) -> Seq<char> {
    if s.len() > 0 && (s[0] == '-' || s[0] == '+') {
        s.skip(1)
    } else {
        s
    }
}

/// Whether `s` is an integer literal: an optional sign and at least one
/// digit, nothing else.
pub open spec fn is_int_str(s: Seq<char>) -> bool {
    let ds = int_str_digits(s);
    &&& ds.len() > 0
    &&& forall|i: int| 0 <= i < ds.len() ==> is_digit(#[trigger] ds[i])
}

/// The mathematical value of an integer literal.
pub open spec fn int_str_value(s: Seq<char>) -> int {
    if s.len() > 0 && s[0] == '-' {
        -digits_value(int_str_digits(s))
    } else {
        digits_value(int_str_digits(s))
    }
}

/// A digit run's value never falls when digits are appended.
proof fn lemma_digits_value_nonneg(s: Seq<char>)
    requires
        forall|i: int| 0 <= i < s.len() ==> is_digit(#[trigger] s[i]),
    ensures
        digits_value(s) >= 0,
    decreases s.len(),
{
    if s.len() > 0 {
        lemma_digits_value_nonneg(s.take(s.len() - 1));
    }
}

/// Parses a 32-bit signed decimal integer, exactly as the literal
/// denotes it. A string that is not an integer literal, or whose value
/// does not fit, is refused.
pub fn parse_i32_str(s: &str) -> (r: Option<i32>)
    ensures
        match r {
            Some(v) => {
                &&& is_int_str(s@)
                &&& v as int == int_str_value(s@)
            },
            None => !is_int_str(s@) || int_str_value(s@) < -0x80000000 || int_str_value(s@)
                > 0x7fffffff,
        },
{
    let len = s.unicode_len();
    if len == 0 {
        return None;
    }
    let first = s.get_char(0);
    let neg = first == '-';
    let start: usize = if first == '-' || first == '+' {
        1
    } else {
        0
    };
    if len - start == 0 {
        return None;
    }
    let ghost ds = int_str_digits(s@);
    proof {
        assert(ds =~= s@.skip(start as int));
    }
    let mut acc: u64 = 0;
    let mut i: usize = start;
    while i < len
        invariant
            start <= i <= len,
            len == s@.len(),
            start <= 1,
            ds == int_str_digits(s@),
            ds == s@.skip(start as int),
            ds.len() == len - start,
            forall|j: int| 0 <= j < i - start ==> is_digit(#[trigger] ds[j]),
            digits_value(ds.take(i - start)) <= 0x80000000 ==> acc == digits_value(
                ds.take(i - start),
            ),
            digits_value(ds.take(i - start)) > 0x80000000 ==> acc == 0x80000001,
            acc <= 0x80000001,
            digits_value(ds.take(i - start)) >= 0,
        decreases len - i,
    {
        let c = s.get_char(i);
        let cu = c as u32;
        if !(cu >= 48 && cu <= 57) {
            proof {
                assert(ds[i - start] == s@[i as int]);
                assert(!is_digit(ds[i - start]));
            }
            return None;
        }
        let d: u64 = (cu as u64) - 48;
        proof {
            assert(ds.take(i + 1 - start).take(i - start) =~= ds.take(i - start));
            assert(ds.take(i + 1 - start)[i - start] == s@[i as int]);
            lemma_digits_value_nonneg(ds.take(i - start));
        }
        acc = acc * 10 + d;
        if acc > 0x80000000 {
            acc = 0x80000001;
        }
        i += 1;
    }
    proof {
        assert(ds.take(ds.len() as int) =~= ds);
    }
    if neg {
        if acc > 0x80000000 {
            return None;
        }
        let neg64: i64 = -(acc as i64);
        let v: i32 = neg64 as i32;
        Some(v)
    } else {
        if acc > 0x7fffffff {
            return None;
        }
        Some(acc as i32)
    }
}

/// The decimal digits of a non-negative value, most significant first.
pub open spec fn dec_str_of(n: int) -> Seq<char>
    decreases n,
{
    if n < 0 {
        seq![]
    } else if n < 10 {
        seq![((48 + n) as u8) as char]
    } else {
        dec_str_of(n / 10) + seq![((48 + n % 10) as u8) as char]
    }
}

/// The decimal form of a 32-bit signed value: a minus sign for negative
/// values, then the digits of its magnitude.
pub open spec fn i32_str(v: i32) -> Seq<char> {
    if v < 0 {
        seq!['-'] + dec_str_of(-(v as int))
    } else {
        dec_str_of(v as int)
    }
}

/// Appends the decimal digits of `n` to `out`.
fn push_dec_u32(out: &mut String, n: u32)
    ensures
        final(out)@ == old(out)@ + dec_str_of(n as int),
    decreases n,
{
    if n < 10 {
        let d: u8 = 48 + (n as u8);
        out.push(d as char);
        proof {
            assert(out@ =~= old(out)@ + dec_str_of(n as int));
        }
    } else {
        push_dec_u32(out, n / 10);
        let d: u8 = 48 + ((n % 10) as u8);
        out.push(d as char);
        proof {
            assert(out@ =~= old(out)@ + dec_str_of(n as int));
        }
    }
}

/// Appends the decimal form of `v` to `out`.
pub fn push_i32(out: &mut String, v: i32)
    ensures
        final(out)@ == old(out)@ + i32_str(v),
{
    if v < 0 {
        out.push('-');
        let m64: i64 = -(v as i64);
        let m: u32 = m64 as u32;
        push_dec_u32(out, m);
        proof {
            assert(out@ =~= old(out)@ + i32_str(v));
        }
    } else {
        push_dec_u32(out, v as u32);
    }
}

/// The decimal form of a 32-bit value, as a string.
pub fn i32_to_string(v: i32) -> (r: String)
    ensures
        r@ == i32_str(v),
{
    let mut out = String::new();
    push_i32(&mut out, v);
    proof {
        assert(out@ =~= i32_str(v));
    }
    out
}

/// Where the first occurrence of `d` stands, given a scan that found none
/// before position `n`.
pub proof fn lemma_find_char_prefix(s: Seq<char>, d: char, n: int)
    requires
        0 <= n <= s.len(),
        forall|j: int| 0 <= j < n ==> s[j] != d,
        n < s.len() ==> s[n] == d,
    ensures
        find_char(s, d) == if n < s.len() {
            Some(n)
        } else {
            None::<int>
        },
    decreases n,
{
    if n == 0 {
        if s.len() == 0 {
        } else if s[0] == d {
        } else {
            lemma_find_char(s, d);
        }
    } else {
        assert(s[0] != d);
        assert forall|j: int| 0 <= j < n - 1 implies s.skip(1)[j] != d by {
            assert(s.skip(1)[j] == s[j + 1]);
        }
        assert(n - 1 < s.skip(1).len() ==> s.skip(1)[n - 1] == d);
        lemma_find_char_prefix(s.skip(1), d, n - 1);
    }
}

/// Splits `s` at every occurrence of `d`.
pub fn split_str(s: &str, d: char) -> (r: Vec<String>)
    ensures
        r@.map_values(|x: String| x@) == split_spec(s@, d),
{
    let len = s.unicode_len();
    let mut out: Vec<String> = Vec::new();
    let mut cur = String::new();
    let ghost mut start: int = 0;
    let mut i: usize = 0;
    proof {
        assert(s@.skip(0) =~= s@);
        assert(cur@ =~= s@.subrange(0, 0));
        assert(out@.map_values(|x: String| x@) + split_spec(s@, d) =~~= split_spec(s@, d));
    }
    while i < len
        invariant
            i <= len,
            len == s@.len(),
            0 <= start <= i as int,
            cur@ == s@.subrange(start, i as int),
            forall|j: int| start <= j < i as int ==> s@[j] != d,
            split_spec(s@, d) == out@.map_values(|x: String| x@) + split_spec(s@.skip(start), d),
        decreases len - i,
    {
        let c = s.get_char(i);
        if c == d {
            proof {
                let tail = s@.skip(start);
                assert forall|j: int| 0 <= j < i as int - start implies tail[j] != d by {
                    assert(tail[j] == s@[start + j]);
                }
                assert(tail[i as int - start] == s@[i as int]);
                lemma_find_char_prefix(tail, d, i as int - start);
                assert(tail.take(i as int - start) =~= cur@);
                assert(tail.skip(i as int - start + 1) =~= s@.skip(i as int + 1));
            }
            let ghost curv = cur@;
            let ghost outv = out@.map_values(|x: String| x@);
            out.push(cur);
            cur = String::new();
            proof {
                assert(out@.map_values(|x: String| x@) =~~= outv.push(curv));
                assert(outv + (seq![curv] + split_spec(s@.skip(i as int + 1), d)) =~~= outv.push(
                    curv,
                ) + split_spec(s@.skip(i as int + 1), d));
                start = i as int + 1;
                assert(cur@ =~= s@.subrange(start, i as int + 1));
            }
        } else {
            cur.push(c);
            proof {
                assert(cur@ =~= s@.subrange(start, i as int + 1));
            }
        }
        i += 1;
    }
    proof {
        let tail = s@.skip(start);
        assert forall|j: int| 0 <= j < len - start implies tail[j] != d by {
            assert(tail[j] == s@[start + j]);
        }
        lemma_find_char_prefix(tail, d, len - start);
        assert(tail =~= cur@);
    }
    let ghost curv = cur@;
    let ghost outv = out@.map_values(|x: String| x@);
    out.push(cur);
    proof {
        assert(out@.map_values(|x: String| x@) =~~= outv.push(curv));
        assert(outv + seq![curv] =~~= outv.push(curv));
    }
    out
}

/// Round-trip law for the decimal digits of a non-negative value: they
/// are digits, at least one, and they denote the value itself.
pub proof fn lemma_dec_str_round_trip(n: int)
    requires
        n >= 0,
    ensures
        dec_str_of(n).len() >= 1,
        forall|i: int| 0 <= i < dec_str_of(n).len() ==> is_digit(#[trigger] dec_str_of(n)[i]),
        digits_value(dec_str_of(n)) == n,
    decreases n,
{
    if n < 10 {
        let s = dec_str_of(n);
        assert(s.len() == 1);
        assert((((48 + n) as u8) as char) as int == 48 + n) by {
            assert(0 <= n < 10);
        }
        assert(s.take(0) =~= Seq::<char>::empty());
        assert(digits_value(s.take(0)) == 0);
        assert(digits_value(s) == digits_value(s.take(0)) * 10 + digit_val(s[0]));
    } else {
        lemma_dec_str_round_trip(n / 10);
        let hd = dec_str_of(n / 10);
        let d = ((48 + n % 10) as u8) as char;
        let s = dec_str_of(n);
        assert(s == hd + seq![d]);
        assert(s.take(s.len() - 1) =~= hd);
        assert(s[s.len() - 1] == d);
        assert((d as int) == 48 + n % 10) by {
            assert(0 <= n % 10 < 10);
        }
        assert forall|i: int| 0 <= i < s.len() implies is_digit(#[trigger] s[i]) by {
            if i < hd.len() {
                assert(s[i] == hd[i]);
            }
        }
        assert(digits_value(s) == digits_value(s.take(s.len() - 1)) * 10 + digit_val(
            s[s.len() - 1],
        ));
        assert(digits_value(s.take(s.len() - 1)) == digits_value(hd));
        assert(digits_value(s) == (n / 10) * 10 + n % 10);
    }
}

/// Round-trip law for the decimal form of a 32-bit value: it is an
/// integer literal denoting the value itself.
pub proof fn lemma_i32_str_round_trip(v: i32)
    ensures
        is_int_str(i32_str(v)),
        int_str_value(i32_str(v)) == v,
{
    if v < 0 {
        lemma_dec_str_round_trip(-(v as int));
        let s = i32_str(v);
        let ds = dec_str_of(-(v as int));
        assert(s == seq!['-'] + ds);
        assert(s[0] == '-');
        assert(int_str_digits(s) =~= ds);
    } else {
        lemma_dec_str_round_trip(v as int);
        let s = i32_str(v);
        assert(s.len() >= 1);
        assert(is_digit(s[0]));
        assert(s[0] != '-' && s[0] != '+');
        assert(int_str_digits(s) == s);
    }
}

} // verus!
