use noodles::gff::attributes::{Attributes, Entry, ParseError};

#[test]
fn attributes_test_fmt() {
    let attributes = Attributes::new();
    assert!(attributes.to_string().is_empty());

    let attributes = Attributes::from_entries(vec![Entry::new("gene_id", "ndls0")]);

    assert_eq!(attributes.to_string(), "gene_id=ndls0");

    let attributes = Attributes::from_entries(vec![
        Entry::new("gene_id", "ndls0"),
        Entry::new("gene_name", "gene0"),
    ]);

    assert_eq!(attributes.to_string(), "gene_id=ndls0;gene_name=gene0")
}

#[test]
fn attributes_test_from_str() {
    let s = "gene_id=ndls0;gene_name=gene0";
    let actual = Attributes::from_str(s).unwrap();
    let expected = Attributes::from_entries(vec![
        Entry::new("gene_id", "ndls0"),
        Entry::new("gene_name", "gene0"),
    ]);
    assert_eq!(actual, expected);

    let s = "gene_id=ndls0";
    let actual = Attributes::from_str(s).unwrap();
    let expected = Attributes::from_entries(vec![Entry::new("gene_id", "ndls0")]);
    assert_eq!(actual, expected);

    let actual = Attributes::from_str("").unwrap();
    let expected = Attributes::new();
    assert_eq!(actual, expected);

    assert_eq!(
        Attributes::from_str("gene_id"),
        Err(ParseError::InvalidEntry)
    );
}

#[test]
fn test_from_str_then_fmt_round_trip() {
    let s = "gene_id=ndls0;gene_name=gene0";
    let attributes = Attributes::from_str(s).unwrap();
    assert_eq!(attributes.to_string(), s);
    assert_eq!(attributes.len(), 2);
    assert_eq!(attributes.get(0).key(), "gene_id");
    assert_eq!(attributes.get(0).value(), "ndls0");
}
