use noodles::vcf::contig_tag::Standard;
use noodles::vcf::info::{parse_info, Info, ParseError as InfoParseError};
use noodles::vcf::record::{
    parse_record, Chromosome, Filters, ParseError as RecordParseError,
};
use noodles::vcf::sample_value::{parse, Number, ParseError, Type, Value};

#[test]
fn test_as_ref_str_for_standard() {
    assert_eq!(Standard::Id.as_ref(), "ID");
    assert_eq!(Standard::Length.as_ref(), "length");
    assert_eq!(Standard::Md5.as_ref(), "md5");
    assert_eq!(Standard::Url.as_ref(), "URL");
    assert_eq!(Standard::Idx.as_ref(), "IDX");
}

#[test]
fn test_from_str_for_standard() {
    assert_eq!(Standard::from_str("ID"), Ok(Standard::Id));
    assert_eq!(Standard::from_str("length"), Ok(Standard::Length));
    assert_eq!(Standard::from_str("md5"), Ok(Standard::Md5));
    assert_eq!(Standard::from_str("URL"), Ok(Standard::Url));
    assert_eq!(Standard::from_str("IDX"), Ok(Standard::Idx));
    assert_eq!(Standard::from_str("idx"), Err(()));
}

#[test]
fn test_parse_info() {
    let mut info = Info::new();

    info.clear();
    parse_info("NS=2", &mut info).unwrap();
    assert_eq!(info.len(), 1);
    assert_eq!(info.get("NS"), Some(&Some(Value::Integer(2))));

    info.clear();
    parse_info("NS=2;AA=T", &mut info).unwrap();
    assert_eq!(info.len(), 2);
    assert_eq!(info.get("NS"), Some(&Some(Value::Integer(2))));
    assert_eq!(info.get("AA"), Some(&Some(Value::String(String::from("T")))));

    assert_eq!(parse_info("", &mut info), Err(InfoParseError::Empty));

    assert_eq!(
        parse_info("NS=2;NS=2", &mut info),
        Err(InfoParseError::DuplicateKey(String::from("NS")))
    );
    // the entry the duplicate collided with is removed
    assert!(info.get("NS").is_none());
}

#[test]
fn test_parse_info_leaves_map_alone_on_empty_input() {
    let mut info = Info::new();
    parse_info("AA=T", &mut info).unwrap();
    assert_eq!(parse_info("", &mut info), Err(InfoParseError::Empty));
    assert_eq!(info.len(), 1);
    assert_eq!(info.get("AA"), Some(&Some(Value::String(String::from("T")))));
}

#[test]
fn test_parse_record_error_names_the_failing_column() {
    assert_eq!(
        parse_record("sq0\t8\t\tA\t.\t.\t.\t."),
        Err(RecordParseError::InvalidIds)
    );
    assert_eq!(
        parse_record("sq0\t8\t.\tA\t,\t.\t.\t."),
        Err(RecordParseError::InvalidAlternateBases)
    );
    assert_eq!(
        parse_record("sq0\t8\t.\tA\t.\t.\t;\t."),
        Err(RecordParseError::InvalidFilters)
    );
    assert_eq!(
        parse_record("sq0\t8\t.\tA\t.\t.\t.\t"),
        Err(RecordParseError::InvalidInfo(InfoParseError::Empty))
    );
}

#[test]
fn value_test_fmt() {
    let value = Value::Integer(2);
    assert_eq!(value.to_string(), "2");

    let value = Value::Float(String::from("0.333"));
    assert_eq!(value.to_string(), "0.333");

    let value = Value::Character('n');
    assert_eq!(value.to_string(), "n");

    let value = Value::String(String::from("noodles"));
    assert_eq!(value.to_string(), "noodles");

    let value = Value::IntegerArray(vec![Some(2)]);
    assert_eq!(value.to_string(), "2");

    let value = Value::IntegerArray(vec![Some(2), Some(5)]);
    assert_eq!(value.to_string(), "2,5");

    let value = Value::IntegerArray(vec![Some(2), None]);
    assert_eq!(value.to_string(), "2,.");

    let value = Value::FloatArray(vec![Some(String::from("0.333"))]);
    assert_eq!(value.to_string(), "0.333");

    let value = Value::FloatArray(vec![
        Some(String::from("0.333")),
        Some(String::from("0.667")),
    ]);
    assert_eq!(value.to_string(), "0.333,0.667");

    let value = Value::FloatArray(vec![Some(String::from("0.333")), None]);
    assert_eq!(value.to_string(), "0.333,.");

    let value = Value::CharacterArray(vec![Some('n')]);
    assert_eq!(value.to_string(), "n");

    let value = Value::CharacterArray(vec![Some('n'), Some('d'), Some('l'), Some('s')]);
    assert_eq!(value.to_string(), "n,d,l,s");

    let value = Value::CharacterArray(vec![Some('n'), Some('d'), Some('l'), None]);
    assert_eq!(value.to_string(), "n,d,l,.");

    let value = Value::StringArray(vec![Some(String::from("noodles"))]);
    assert_eq!(value.to_string(), "noodles");

    let value = Value::StringArray(vec![
        Some(String::from("noodles")),
        Some(String::from("vcf")),
    ]);
    assert_eq!(value.to_string(), "noodles,vcf");

    let value = Value::StringArray(vec![Some(String::from("noodles")), None]);
    assert_eq!(value.to_string(), "noodles,.");
}

#[test]
fn test_parse_with_integer() {
    assert_eq!(
        parse(Number::Count(0), Type::Integer, "8"),
        Err(ParseError::InvalidNumberForType(
            Number::Count(0),
            Type::Integer
        ))
    );

    assert_eq!(
        parse(Number::Count(1), Type::Integer, "8"),
        Ok(Value::Integer(8))
    );

    assert_eq!(
        parse(Number::Count(2), Type::Integer, "8,13"),
        Ok(Value::IntegerArray(vec![Some(8), Some(13)]))
    );

    assert_eq!(
        parse(Number::Count(2), Type::Integer, "8,."),
        Ok(Value::IntegerArray(vec![Some(8), None]))
    );
}

#[test]
fn test_parse_with_float() {
    assert_eq!(
        parse(Number::Count(0), Type::Float, "0.333"),
        Err(ParseError::InvalidNumberForType(
            Number::Count(0),
            Type::Float
        ))
    );

    assert_eq!(
        parse(Number::Count(1), Type::Float, "0.333"),
        Ok(Value::Float(String::from("0.333")))
    );

    assert_eq!(
        parse(Number::Count(2), Type::Float, "0.333,0.667"),
        Ok(Value::FloatArray(vec![
            Some(String::from("0.333")),
            Some(String::from("0.667"))
        ]))
    );

    assert_eq!(
        parse(Number::Count(2), Type::Float, "0.333,."),
        Ok(Value::FloatArray(vec![Some(String::from("0.333")), None]))
    );
}

#[test]
fn test_parse_with_character() {
    assert_eq!(
        parse(Number::Count(0), Type::Character, "n"),
        Err(ParseError::InvalidNumberForType(
            Number::Count(0),
            Type::Character
        ))
    );

    assert_eq!(
        parse(Number::Count(1), Type::Character, "n"),
        Ok(Value::Character('n'))
    );

    assert_eq!(
        parse(Number::Count(2), Type::Character, "n,d,l,s"),
        Ok(Value::CharacterArray(vec![
            Some('n'),
            Some('d'),
            Some('l'),
            Some('s')
        ]))
    );

    assert_eq!(
        parse(Number::Count(2), Type::Character, "n,d,l,."),
        Ok(Value::CharacterArray(vec![
            Some('n'),
            Some('d'),
            Some('l'),
            None
        ]))
    );
}

#[test]
fn test_parse_with_string() {
    assert_eq!(
        parse(Number::Count(0), Type::String, "noodles"),
        Err(ParseError::InvalidNumberForType(
            Number::Count(0),
            Type::String
        ))
    );

    assert_eq!(
        parse(Number::Count(1), Type::String, "noodles"),
        Ok(Value::String(String::from("noodles")))
    );
    assert_eq!(
        parse(Number::Count(1), Type::String, "8%25"),
        Ok(Value::String(String::from("8%")))
    );
    assert_eq!(
        parse(Number::Count(1), Type::String, "%C3%A9"),
        Ok(Value::String(String::from("\u{e9}")))
    );
    assert_eq!(
        parse(Number::Count(1), Type::String, "%FF"),
        Err(ParseError::InvalidString)
    );
    assert_eq!(
        parse(Number::Count(1), Type::String, "100%"),
        Ok(Value::String(String::from("100%")))
    );

    assert_eq!(
        parse(Number::Count(2), Type::String, "noodles,vcf"),
        Ok(Value::StringArray(vec![
            Some(String::from("noodles")),
            Some(String::from("vcf"))
        ]))
    );
    assert_eq!(
        parse(Number::Count(2), Type::String, "8%25,13%25"),
        Ok(Value::StringArray(vec![
            Some(String::from("8%")),
            Some(String::from("13%")),
        ]))
    );
    assert_eq!(
        parse(Number::Count(2), Type::String, "noodles,."),
        Ok(Value::StringArray(vec![
            Some(String::from("noodles")),
            None,
        ]))
    );
}

#[test]
fn test_parse_record() {
    let line = "sq0\t8\tid0\tA\tG,T\t5.8\tPASS\tNS=2\tGT:GQ\t0|0:13\t0/1:8";
    let record = parse_record(line).unwrap();
    assert_eq!(record.chromosome, Chromosome::Name(String::from("sq0")));
    assert_eq!(record.position, 8);
    assert_eq!(record.ids, vec![String::from("id0")]);
    assert_eq!(record.reference_bases, "A");
    assert_eq!(
        record.alternate_bases,
        vec![String::from("G"), String::from("T")]
    );
    assert_eq!(record.quality_score, Some(String::from("5.8")));
    assert_eq!(record.filters, Some(Filters::Pass));
    assert_eq!(record.info.len(), 1);
    assert_eq!(record.genotypes.keys, vec![String::from("GT"), String::from("GQ")]);
    assert_eq!(record.genotypes.samples.len(), 2);
    assert_eq!(
        record.genotypes.samples[0],
        vec![String::from("0|0"), String::from("13")]
    );
}

#[test]
fn test_parse_record_missing_columns() {
    let line = "sq0\t8\t.\tA\t.\t.\t.\t.";
    let record = parse_record(line).unwrap();
    assert!(record.ids.is_empty());
    assert!(record.alternate_bases.is_empty());
    assert_eq!(record.quality_score, None);
    assert_eq!(record.filters, None);
    assert!(record.info.is_empty());
    assert!(record.genotypes.keys.is_empty());
    assert!(record.genotypes.samples.is_empty());
}

#[test]
fn test_parse_record_errors() {
    assert_eq!(
        parse_record("\t8\t.\tA\t.\t.\t.\t."),
        Err(RecordParseError::InvalidChromosome)
    );
    assert_eq!(
        parse_record("sq0\teight\t.\tA\t.\t.\t.\t."),
        Err(RecordParseError::InvalidPosition)
    );
    assert_eq!(
        parse_record("sq0\t8\t.\tZ\t.\t.\t.\t."),
        Err(RecordParseError::InvalidReferenceBases)
    );
    assert_eq!(
        parse_record("sq0\t8\t.\tA\t.\tx.y\t.\t."),
        Err(RecordParseError::InvalidQualityScore)
    );
}

#[test]
fn test_parse_symbolic_chromosome() {
    let line = "<vir1>\t8\t.\tA\t.\t.\t.\t.";
    let record = parse_record(line).unwrap();
    assert_eq!(record.chromosome, Chromosome::Symbol(String::from("vir1")));
}
