use noodles::bam::flags::{is_unmapped, unmapped_scan_step, ScanAction};
use noodles::bam::sequence::{decode_base, get_sequence, Base, ParseError, Sequence};

#[test]
fn test_decode_base() {
    assert_eq!(decode_base(0), Base::Eq);
    assert_eq!(decode_base(1), Base::A);
    assert_eq!(decode_base(2), Base::C);
    assert_eq!(decode_base(3), Base::M);
    assert_eq!(decode_base(4), Base::G);
    assert_eq!(decode_base(5), Base::R);
    assert_eq!(decode_base(6), Base::S);
    assert_eq!(decode_base(7), Base::V);
    assert_eq!(decode_base(8), Base::T);
    assert_eq!(decode_base(9), Base::W);
    assert_eq!(decode_base(10), Base::Y);
    assert_eq!(decode_base(11), Base::H);
    assert_eq!(decode_base(12), Base::K);
    assert_eq!(decode_base(13), Base::D);
    assert_eq!(decode_base(14), Base::B);
    assert_eq!(decode_base(15), Base::N);
}

#[test]
fn test_get_sequence() {
    fn t(src: &[u8], buf: &mut Sequence, expected: &Sequence) -> Result<(), ParseError> {
        buf.clear();
        get_sequence(src, buf, expected.len())?;
        assert_eq!(buf, expected);
        Ok(())
    }

    let mut sequence = Sequence::new();

    t(&[], &mut sequence, &Sequence::new()).unwrap();
    t(
        &[0x12, 0x40],
        &mut sequence,
        &Sequence::from_bases(vec![Base::A, Base::C, Base::G]),
    )
    .unwrap();
    t(
        &[0x12, 0x48],
        &mut sequence,
        &Sequence::from_bases(vec![Base::A, Base::C, Base::G, Base::T]),
    )
    .unwrap();

    get_sequence(&[0x12, 0x40], &mut sequence, 3).unwrap();
    let before = sequence.clone();
    let src: &[u8] = b"";
    assert_eq!(
        get_sequence(src, &mut sequence, 4),
        Err(ParseError::UnexpectedEof)
    );
    // a refused read leaves the sequence exactly as it was
    assert_eq!(sequence, before);
}

#[test]
fn test_unmapped_scan_step() {
    assert_eq!(unmapped_scan_step(0, 0x04), ScanAction::Stop);
    assert_eq!(unmapped_scan_step(10, 0x04), ScanAction::Yield);
    assert_eq!(unmapped_scan_step(10, 0x00), ScanAction::Skip);
    assert!(is_unmapped(0x04));
    assert!(!is_unmapped(0x02));
}
