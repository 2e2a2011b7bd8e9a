use noodles::sam::data::{Data, FieldParseError, ParseError, Tag, Value};

fn tag(s: &str) -> Tag {
    let b = s.as_bytes();
    Tag { b0: b[0], b1: b[1] }
}

#[test]
fn test_remove_with_multiple_removes() {
    let zz = tag("zz");
    let mut data = Data::new();
    data.insert(tag("NH"), Value::Int32(2));
    data.insert(tag("NM"), Value::Int32(1));
    data.insert(zz, Value::Int32(0));

    data.remove(tag("NM"));
    data.remove(zz);
    data.remove(tag("NH"));

    assert!(data.is_empty());
}

#[test]
fn data_test_fmt() {
    let mut data = Data::new();
    data.insert(tag("RG"), Value::String(String::from("rg0")));
    data.insert(tag("NH"), Value::Int32(1));

    let expected = "RG:Z:rg0\tNH:i:1";

    assert_eq!(data.to_string(), expected);
}

#[test]
fn test_from_iterator() {
    let mut actual = Data::new();
    actual.insert(tag("RG"), Value::String(String::from("rg0")));
    actual.insert(tag("NH"), Value::Int32(1));

    let mut expected = Data::new();
    expected.insert(tag("RG"), Value::String(String::from("rg0")));
    expected.insert(tag("NH"), Value::Int32(1));

    assert_eq!(expected, actual);
}

#[test]
fn data_test_from_str() {
    assert_eq!(Data::from_str(""), Ok(Data::new()));

    let mut expected = Data::new();
    expected.insert(tag("RG"), Value::String(String::from("rg0")));
    expected.insert(tag("NH"), Value::Int32(1));
    assert_eq!(Data::from_str("RG:Z:rg0\tNH:i:1"), Ok(expected));

    assert_eq!(
        Data::from_str("NH:i:1\tNH:i:1"),
        Err(ParseError::DuplicateTag(tag("NH")))
    );
}

#[test]
fn test_insert_replaces_and_returns_the_old_field() {
    let mut data = Data::new();
    assert_eq!(data.insert(tag("NH"), Value::Int32(1)), None);
    assert_eq!(data.len(), 1);
    assert_eq!(
        data.insert(tag("NH"), Value::Int32(2)),
        Some((tag("NH"), Value::Int32(1)))
    );
    assert_eq!(data.len(), 1);
    assert_eq!(data.get(tag("NH")), Some(&Value::Int32(2)));
    assert_eq!(data.get_index_of(tag("NH")), Some(0));
    assert!(data.get(tag("RG")).is_none());
    assert!(data.get_index_of(tag("RG")).is_none());
}

#[test]
fn test_iter_keys_values() {
    let mut data = Data::new();
    data.insert(tag("RG"), Value::String(String::from("rg0")));
    data.insert(tag("NH"), Value::Int32(1));

    let fields = data.iter();
    assert_eq!(fields.len(), 2);
    assert_eq!(fields[0], (tag("RG"), Value::String(String::from("rg0"))));
    assert_eq!(fields[1], (tag("NH"), Value::Int32(1)));

    assert_eq!(data.keys(), vec![tag("RG"), tag("NH")]);
    assert_eq!(
        data.values(),
        vec![Value::String(String::from("rg0")), Value::Int32(1)]
    );

    data.clear();
    assert!(data.is_empty());
    assert_eq!(data.len(), 0);
}

#[test]
fn test_parse_field_errors() {
    assert_eq!(
        noodles::sam::data::parse_field("no colons"),
        Err(FieldParseError::Invalid)
    );
    assert_eq!(
        noodles::sam::data::parse_field("1G:i:1"),
        Err(FieldParseError::InvalidTag)
    );
    assert_eq!(
        noodles::sam::data::parse_field("NH:x:1"),
        Err(FieldParseError::InvalidType)
    );
    assert_eq!(
        noodles::sam::data::parse_field("NH:i:one"),
        Err(FieldParseError::InvalidValue)
    );
    assert_eq!(
        noodles::sam::data::parse_field("CA:A:q"),
        Ok((tag("CA"), Value::Character('q')))
    );
    assert_eq!(
        noodles::sam::data::parse_field("XH:H:1AFF"),
        Ok((tag("XH"), Value::Hex(String::from("1AFF"))))
    );
}

#[test]
fn test_fmt_negative_integer() {
    let mut data = Data::new();
    data.insert(tag("XD"), Value::Int32(-42));
    assert_eq!(data.to_string(), "XD:i:-42");
    assert_eq!(Data::from_str("XD:i:-42"), Ok(data));
}

#[test]
fn test_to_string_from_str_round_trip() {
    fn sample() -> Data {
        let mut data = Data::new();
        data.insert(tag("RG"), Value::String(String::from("rg0")));
        data.insert(tag("NH"), Value::Int32(-7));
        data.insert(tag("CA"), Value::Character('q'));
        data.insert(tag("XH"), Value::Hex(String::from("CAFE")));
        data
    }
    let data = sample();
    let text = data.to_string();
    assert_eq!(text, "RG:Z:rg0\tNH:i:-7\tCA:A:q\tXH:H:CAFE");
    assert_eq!(Data::from_str(text.as_str()), Ok(sample()));
}
