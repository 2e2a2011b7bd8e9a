use noodles::bcf::site::{
    write_filter, write_id, write_info, write_n_allele, write_n_fmt_sample, write_pos, write_qual,
    write_ref_alt, write_site, StringMap,
};
use noodles::vcf::info::{parse_info, Info};
use noodles::vcf::record::{parse_record, Filters};

#[test]
fn test_write_ref_alt() {
    fn t(buf: &mut Vec<u8>, reference_bases: &str, alternate_bases: &Vec<String>, expected: &[u8]) {
        buf.clear();
        write_ref_alt(buf, reference_bases, alternate_bases).unwrap();
        assert_eq!(buf, expected);
    }

    let mut buf = Vec::new();

    t(&mut buf, "A", &Vec::new(), &[0x17, b'A']);

    t(
        &mut buf,
        "A",
        &vec![String::from("G")],
        &[0x17, b'A', 0x17, b'G'],
    );

    t(
        &mut buf,
        "A",
        &vec![String::from("G"), String::from("T")],
        &[0x17, b'A', 0x17, b'G', 0x17, b'T'],
    );
}

#[test]
fn test_write_filter() {
    fn t(buf: &mut Vec<u8>, string_map: &StringMap, filters: Option<&Filters>, expected: &[u8]) {
        buf.clear();
        write_filter(buf, string_map, filters).unwrap();
        assert_eq!(buf, expected);
    }

    let mut string_maps = StringMap::new();
    string_maps.push(String::from("PASS"));
    string_maps.push(String::from("s50"));
    string_maps.push(String::from("q10"));

    let mut buf = Vec::new();

    t(&mut buf, &string_maps, None, &[0x00]);

    let filters = Filters::Pass;
    t(&mut buf, &string_maps, Some(&filters), &[0x11, 0x00]);

    let filters = Filters::Fail(vec![String::from("q10")]);
    t(&mut buf, &string_maps, Some(&filters), &[0x11, 0x02]);

    let filters = Filters::Fail(vec![String::from("q10"), String::from("s50")]);
    t(&mut buf, &string_maps, Some(&filters), &[0x21, 0x02, 0x01]);
}

#[test]
fn test_write_pos_and_qual() {
    let mut buf = Vec::new();
    write_pos(&mut buf, 8);
    assert_eq!(buf, [0x07, 0x00, 0x00, 0x00]);

    let mut buf = Vec::new();
    write_qual(&mut buf, None);
    assert_eq!(buf, [0x01, 0x00, 0x80, 0x7f]);

    let mut buf = Vec::new();
    write_qual(&mut buf, Some(0x3f800000));
    assert_eq!(buf, [0x00, 0x00, 0x80, 0x3f]);
}

#[test]
fn test_write_n_allele_and_n_fmt_sample() {
    let mut buf = Vec::new();
    write_n_allele(&mut buf, 2).unwrap();
    assert_eq!(buf, [0x03, 0x00]);

    let mut buf = Vec::new();
    write_n_fmt_sample(&mut buf, 2, 1).unwrap();
    assert_eq!(buf, [0x02, 0x00, 0x00, 0x01]);

    let mut buf = Vec::new();
    assert!(write_n_fmt_sample(&mut buf, 0x1000000, 1).is_err());
    assert!(buf.is_empty());
}

#[test]
fn test_write_id_long_identifiers_use_the_extended_form() {
    // twenty characters: the length rides behind the escape type byte as
    // a typed integer
    let ids = vec![String::from("abcdefghij"), String::from("klmnopqrs")];
    let mut buf = Vec::new();
    write_id(&mut buf, &ids).unwrap();
    let mut expected = vec![0xf7, 0x11, 20];
    expected.extend_from_slice(b"abcdefghij;klmnopqrs");
    assert_eq!(buf, expected);

    let mut buf = Vec::new();
    write_id(&mut buf, &Vec::new()).unwrap();
    assert_eq!(buf, [0x07]);
}

#[test]
fn test_write_info_fields() {
    let mut string_map = StringMap::new();
    string_map.push(String::from("PASS"));
    string_map.push(String::from("NS"));
    string_map.push(String::from("AA"));

    let mut info = Info::new();
    parse_info("NS=2;AA=T", &mut info).unwrap();

    let mut buf = Vec::new();
    write_info(&mut buf, &string_map, &info).unwrap();
    assert_eq!(
        buf,
        [
            0x11, 0x01, // key NS at index 1
            0x11, 0x02, // integer 2
            0x11, 0x02, // key AA at index 2
            0x17, b'T', // string "T"
        ]
    );

    // a key missing from the map is refused, with nothing written
    let empty_map = StringMap::new();
    let mut buf = Vec::new();
    assert!(write_info(&mut buf, &empty_map, &info).is_err());
    assert!(buf.is_empty());
}

#[test]
fn test_write_site_record() {
    let mut contigs = StringMap::new();
    contigs.push(String::from("sq0"));
    let mut strings = StringMap::new();
    strings.push(String::from("PASS"));
    strings.push(String::from("NS"));

    let record = parse_record("sq0\t8\t.\tA\tG\t.\tPASS\tNS=2\tGT\t0|0").unwrap();
    let mut buf = Vec::new();
    write_site(&mut buf, &contigs, &strings, &record, None, 1).unwrap();
    let expected: Vec<u8> = vec![
        0x00, 0x00, 0x00, 0x00, // chrom 0
        0x07, 0x00, 0x00, 0x00, // pos 8 - 1
        0x01, 0x00, 0x00, 0x00, // rlen: start - end + 1 with end == start
        0x01, 0x00, 0x80, 0x7f, // qual missing
        0x01, 0x00, // one info field
        0x02, 0x00, // two alleles
        0x01, 0x00, 0x00, 0x01, // one sample, one format key
        0x07, // missing ids
        0x17, b'A', // reference
        0x17, b'G', // alternate
        0x11, 0x00, // filters: PASS at index 0
        0x11, 0x01, // info key NS at index 1
        0x11, 0x02, // integer 2
    ];
    assert_eq!(buf, expected);

    // a chromosome outside the contig map is refused, nothing written
    let record2 = parse_record("sq9\t8\t.\tA\t.\t.\t.\t.").unwrap();
    let mut buf = Vec::new();
    assert!(write_site(&mut buf, &contigs, &strings, &record2, None, 0).is_err());
    assert!(buf.is_empty());
}
