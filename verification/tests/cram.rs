use noodles::cram::block::{read_block, write_block, Block, ContentType};
use noodles::cram::codecs::{compress_data, decompress_data, METHOD_GZIP, METHOD_NONE};
use noodles::cram::container::{
    build_container, read_container, read_header, write_container, write_header, Container,
    ContainerHeader, ContainerMeta, EOF_LENGTH,
};
use noodles::cram::error::Error;
use noodles::cram::file_definition::{
    read_file_definition, write_file_definition, FileDefinition,
};
use noodles::cram::index::build_index;
use noodles::cram::num::{
    decode_itf8, decode_ltf8, encode_itf8, encode_ltf8, read_u32_le, write_u32_le,
};
use noodles::cram::compression_header::{
    read_compression_header_record, read_encoding, write_encoding, write_preservation, Encoding,
    PreservationEntry,
};
use noodles::cram::slice::{write_slice_header, Slice, SliceHeader};

fn itf8_round_trip(v: i32) {
    let mut buf = Vec::new();
    encode_itf8(&mut buf, v);
    let (decoded, n) = decode_itf8(&buf, 0).unwrap();
    assert_eq!(decoded, v);
    assert_eq!(n, buf.len());
}

fn ltf8_round_trip(v: i64) {
    let mut buf = Vec::new();
    encode_ltf8(&mut buf, v);
    let (decoded, n) = decode_ltf8(&buf, 0).unwrap();
    assert_eq!(decoded, v);
    assert_eq!(n, buf.len());
}

#[test]
fn test_itf8_round_trip() {
    for v in [
        0i32,
        1,
        127,
        128,
        0x3fff,
        0x4000,
        0x1fffff,
        0x200000,
        0xfffffff,
        0x10000000,
        i32::MAX,
        -1,
        -2,
        i32::MIN,
    ] {
        itf8_round_trip(v);
    }
}

#[test]
fn test_ltf8_round_trip() {
    for v in [
        0i64,
        1,
        127,
        128,
        0x3fff,
        0x1fffff,
        0xfffffff,
        0x7ffffffff,
        0x3ffffffffff,
        0x1ffffffffffff,
        0xffffffffffffff,
        0x100000000000000,
        i64::MAX,
        -1,
        i64::MIN,
    ] {
        ltf8_round_trip(v);
    }
}

#[test]
fn test_itf8_known_encodings() {
    let mut buf = Vec::new();
    encode_itf8(&mut buf, 0);
    assert_eq!(buf, [0x00]);

    let mut buf = Vec::new();
    encode_itf8(&mut buf, 1877);
    assert_eq!(buf, [0x87, 0x55]);

    let mut buf = Vec::new();
    encode_itf8(&mut buf, -1);
    assert_eq!(buf, [0xff, 0xff, 0xff, 0xff, 0x0f]);
}

#[test]
fn test_itf8_truncated_input_is_unexpected_eof() {
    assert_eq!(decode_itf8(&[], 0), Err(Error::UnexpectedEof));
    assert_eq!(decode_itf8(&[0x87], 0), Err(Error::UnexpectedEof));
    assert_eq!(decode_itf8(&[0xff, 0xff], 0), Err(Error::UnexpectedEof));
    assert_eq!(decode_ltf8(&[0xff, 0, 0, 0], 0), Err(Error::UnexpectedEof));
}

#[test]
fn test_le32_round_trip() {
    let mut buf = Vec::new();
    write_u32_le(&mut buf, 0xdeadbeef);
    assert_eq!(buf, [0xef, 0xbe, 0xad, 0xde]);
    let (v, n) = read_u32_le(&buf, 0).unwrap();
    assert_eq!(v, 0xdeadbeef);
    assert_eq!(n, 4);
}

fn sample_header() -> ContainerHeader {
    ContainerHeader {
        length: 100,
        reference_sequence_id: 1,
        alignment_start: 1000,
        alignment_span: 500,
        record_count: 10,
        record_counter: 7,
        base_count: 1500,
        block_count: 3,
        landmarks: vec![0, 40],
    }
}

fn headers_equal(a: &ContainerHeader, b: &ContainerHeader) -> bool {
    a.length == b.length && a.reference_sequence_id == b.reference_sequence_id
        && a.alignment_start == b.alignment_start && a.alignment_span == b.alignment_span
        && a.record_count == b.record_count && a.record_counter == b.record_counter
        && a.base_count == b.base_count && a.block_count == b.block_count
        && a.landmarks == b.landmarks
}

#[test]
fn test_container_header_round_trip() {
    let h = sample_header();
    let mut buf = Vec::new();
    write_header(&mut buf, &h);
    let (parsed, n) = read_header(&buf, 0).unwrap();
    assert_eq!(n, buf.len());
    assert!(headers_equal(&parsed, &h));
}

#[test]
fn test_container_header_checksum_guards_every_field_byte() {
    let h = sample_header();
    let mut buf = Vec::new();
    write_header(&mut buf, &h);
    let field_region = buf.len() - 4;
    for i in 0..field_region {
        let mut corrupt = buf.clone();
        corrupt[i] ^= 0x01;
        match read_header(&corrupt, 0) {
            Err(Error::ChecksumMismatch { expected, actual }) => {
                assert_ne!(expected, actual);
            }
            Err(_) => (),
            Ok((parsed, _)) => {
                panic!("accepted corrupt header at byte {}: {:?}", i, parsed.length)
            }
        }
    }
}

#[test]
fn test_read_header_rejects_truncation() {
    let h = sample_header();
    let mut buf = Vec::new();
    write_header(&mut buf, &h);
    for end in 0..buf.len() {
        let r = read_header(&buf[..end], 0);
        assert!(r.is_err(), "accepted a truncated header of {} bytes", end);
    }
}

fn block_of(content_type: ContentType, content_id: i32, method: u8, payload: Vec<u8>, raw_size: i32) -> Block {
    Block { content_type, content_id, raw_size, method, payload }
}

fn stored_block(content_type: ContentType, content_id: i32, payload: Vec<u8>) -> Block {
    let raw_size = payload.len() as i32;
    block_of(content_type, content_id, METHOD_NONE, payload, raw_size)
}

fn blocks_equal(a: &Block, b: &Block) -> bool {
    a.content_type == b.content_type && a.content_id == b.content_id && a.raw_size == b.raw_size
        && a.method == b.method && a.payload == b.payload
}

#[test]
fn test_block_round_trip() {
    let b = stored_block(ContentType::ExternalData, 5, vec![1, 2, 3, 4]);
    let mut buf = Vec::new();
    write_block(&mut buf, &b);
    let (parsed, n) = read_block(&buf, 0).unwrap();
    assert_eq!(n, buf.len());
    assert!(blocks_equal(&parsed, &b));
}

#[test]
fn test_decompress_yields_declared_raw_size() {
    let data = b"a ripe raw payload, raw enough to squeeze".to_vec();
    let compressed = compress_data(METHOD_GZIP, &data).unwrap();
    assert_ne!(compressed, data);
    let b = block_of(
        ContentType::ExternalData,
        1,
        METHOD_GZIP,
        compressed,
        data.len() as i32,
    );
    let decompressed = b.decompress().unwrap();
    assert_eq!(decompressed.len() as i32, b.raw_size);
    assert_eq!(decompressed, data);
}

#[test]
fn test_truncated_compressed_payload_is_corrupt_block() {
    let data = b"some bytes that deflate to more than a few".to_vec();
    let mut compressed = compress_data(METHOD_GZIP, &data).unwrap();
    compressed.truncate(compressed.len() / 2);
    let b = block_of(
        ContentType::ExternalData,
        1,
        METHOD_GZIP,
        compressed,
        data.len() as i32,
    );
    assert_eq!(b.decompress(), Err(Error::CorruptBlock));
}

#[test]
fn test_stored_length_mismatch_is_corrupt_block() {
    let b = block_of(ContentType::ExternalData, 1, METHOD_NONE, vec![1, 2, 3], 5);
    assert_eq!(b.decompress(), Err(Error::CorruptBlock));
}

#[test]
fn test_unsupported_compression_method_tag() {
    let b = block_of(ContentType::ExternalData, 1, 99, vec![1, 2, 3], 3);
    assert_eq!(
        b.decompress(),
        Err(Error::UnsupportedCompressionMethod(99))
    );
    assert_eq!(
        decompress_data(99, &[1, 2, 3], 3),
        Err(Error::UnsupportedCompressionMethod(99))
    );
}

fn sample_slice(records: i32, n_external: usize) -> Slice {
    let mut ext_ids = Vec::new();
    for i in 0..n_external {
        ext_ids.push(1 + i as i32);
    }
    let sh = SliceHeader {
        reference_sequence_id: 0,
        alignment_start: 100,
        alignment_span: 50,
        record_count: records,
        record_counter: 0,
        block_count: (1 + n_external) as i32,
        external_content_ids: ext_ids,
        embedded_reference_id: -1,
        reference_md5: vec![0; 16],
    };
    let mut payload = Vec::new();
    write_slice_header(&mut payload, &sh);
    let header_block = stored_block(ContentType::SliceHeader, 0, payload);
    let mut blocks = Vec::new();
    blocks.push(stored_block(ContentType::CoreData, 0, vec![0xAA, 0xBB]));
    for i in 0..n_external {
        blocks.push(stored_block(
            ContentType::ExternalData,
            1 + i as i32,
            vec![i as u8; 3],
        ));
    }
    Slice { header_block, blocks }
}

fn sample_container(records: i32, n_slices: usize, blocks_per_slice: usize) -> Container {
    let compression_header = stored_block(ContentType::CompressionHeader, 0, vec![1, 0, 0]);
    let mut slices = Vec::new();
    for _ in 0..n_slices {
        slices.push(sample_slice(records, blocks_per_slice - 1));
    }
    let meta = ContainerMeta {
        reference_sequence_id: 0,
        alignment_start: 100,
        alignment_span: 50,
        record_count: records,
        record_counter: 0,
        base_count: 0,
    };
    build_container(&meta, compression_header, slices).unwrap()
}

#[test]
fn test_container_round_trip() {
    // two slices of three blocks each (header block + core + external)
    let c = sample_container(10, 2, 3);
    let mut buf = Vec::new();
    write_container(&mut buf, &c);
    assert_eq!(c.header.landmarks.len(), 2);
    // the first slice begins right after the compression header block
    let mut cp_block = Vec::new();
    write_block(&mut cp_block, &c.compression_header);
    assert_eq!(c.header.landmarks[0] as usize, cp_block.len());
    assert!(c.header.landmarks[1] > c.header.landmarks[0]);
    // one compression header block, and per slice: its header block, a core
    // block, and two external blocks
    assert_eq!(c.header.block_count, 1 + 2 * 4);
    let (oc, n) = read_container(&buf, 0).unwrap();
    let parsed = oc.expect("terminator read where a container stands");
    assert_eq!(n, buf.len());
    assert!(headers_equal(&parsed.header, &c.header));
    assert!(blocks_equal(&parsed.compression_header, &c.compression_header));
    assert_eq!(parsed.slices.len(), c.slices.len());
    for (ps, cs) in parsed.slices.iter().zip(c.slices.iter()) {
        assert!(blocks_equal(&ps.header_block, &cs.header_block));
        assert_eq!(ps.blocks.len(), cs.blocks.len());
        for (pb, cb) in ps.blocks.iter().zip(cs.blocks.iter()) {
            assert!(blocks_equal(pb, cb));
            assert_eq!(pb.decompress().unwrap(), cb.decompress().unwrap());
        }
    }
}

fn eof_header() -> ContainerHeader {
    ContainerHeader {
        length: EOF_LENGTH,
        reference_sequence_id: -1,
        alignment_start: 0,
        alignment_span: 0,
        record_count: 0,
        record_counter: 0,
        base_count: 0,
        block_count: 0,
        landmarks: Vec::new(),
    }
}

#[test]
fn test_eof_sentinel_ends_the_stream() {
    let mut buf = Vec::new();
    write_header(&mut buf, &eof_header());
    // nothing after the sentinel header: no compression header is read
    let (oc, n) = read_container(&buf, 0).unwrap();
    assert!(oc.is_none());
    assert_eq!(n, buf.len());
}

#[test]
fn test_index_builder_three_containers_two_slices_each() {
    let mut buf = Vec::new();
    for i in 0..3 {
        let c = sample_container(10 + i, 2, 2);
        write_container(&mut buf, &c);
    }
    write_header(&mut buf, &eof_header());
    let records = build_index(&buf, 0).unwrap();
    assert_eq!(records.len(), 7);
    for w in records.windows(2) {
        assert!(w[0].container_offset <= w[1].container_offset);
    }
    let terminal = &records[6];
    assert_eq!(terminal.slice_size, 0);
    assert_eq!(terminal.record_count, 0);
    for r in &records[..6] {
        assert_eq!(r.alignment_start, 100);
        assert_eq!(r.alignment_span, 50);
        assert!(r.slice_size > 0);
    }
}

#[test]
fn test_missing_block_by_content_id() {
    let s = sample_slice(4, 2);
    assert!(s.block_by_content_id(1).is_ok());
    assert!(s.block_by_content_id(2).is_ok());
    match s.block_by_content_id(9) {
        Err(Error::MissingBlock(id)) => assert_eq!(id, 9),
        other => panic!("expected a missing block, got {:?}", other.is_ok()),
    }
}

#[test]
fn test_file_definition_round_trip() {
    let fd = FileDefinition { major: 3, minor: 0, file_id: vec![7; 20] };
    let mut buf = Vec::new();
    write_file_definition(&mut buf, &fd);
    assert_eq!(&buf[..4], b"CRAM");
    let (parsed, n) = read_file_definition(&buf, 0).unwrap();
    assert_eq!(n, 26);
    assert_eq!(parsed.major, 3);
    assert_eq!(parsed.minor, 0);
    assert_eq!(parsed.file_id, vec![7; 20]);
}

#[test]
fn test_file_definition_rejects_wrong_magic() {
    let mut buf = Vec::new();
    write_file_definition(
        &mut buf,
        &FileDefinition { major: 3, minor: 0, file_id: vec![0; 20] },
    );
    buf[0] = b'B';
    assert_eq!(
        read_file_definition(&buf, 0),
        Err(Error::InvalidFileDefinition)
    );
}

#[test]
fn test_negative_size_field_is_invalid_size() {
    // a block whose compressed-size field decodes to a negative value
    let mut buf = Vec::new();
    buf.push(4); // external data
    encode_itf8(&mut buf, 1); // content id
    encode_itf8(&mut buf, -1); // compressed size
    match read_block(&buf, 0) {
        Err(e) => assert_eq!(e, Error::InvalidSize),
        Ok(_) => panic!("accepted a negative size field"),
    }
}

#[test]
fn test_compression_header_record_round_trip() {
    // preservation map: two entries, then the end marker
    let mut buf = Vec::new();
    write_preservation(
        &mut buf,
        &vec![
            PreservationEntry { k0: b'R', k1: b'N', value: 1 },
            PreservationEntry { k0: b'A', k1: b'P', value: 0 },
        ],
    );

    // data series map: two entries
    encode_itf8(&mut buf, 2);
    buf.push(b'B');
    buf.push(b'F');
    write_encoding(&mut buf, &Encoding::External(1));
    buf.push(b'A');
    buf.push(b'P');
    write_encoding(
        &mut buf,
        &Encoding::ByteArrayLen(
            Box::new(Encoding::Huffman(vec![4], vec![0])),
            Box::new(Encoding::External(2)),
        ),
    );

    // tag map: one entry
    encode_itf8(&mut buf, 1);
    encode_itf8(&mut buf, 0x584159);
    write_encoding(&mut buf, &Encoding::ByteArrayStop(b'\t', 3));

    let (record, n) = read_compression_header_record(&buf, 0).unwrap();
    assert_eq!(n, buf.len());
    assert_eq!(record.preservation.len(), 2);
    assert_eq!(record.preservation[0], PreservationEntry { k0: b'R', k1: b'N', value: 1 });
    assert_eq!(record.data_series.len(), 2);
    assert_eq!(record.data_series[0].s0, b'B');
    assert_eq!(record.data_series[0].encoding, Encoding::External(1));
    assert_eq!(
        record.data_series[1].encoding,
        Encoding::ByteArrayLen(
            Box::new(Encoding::Huffman(vec![4], vec![0])),
            Box::new(Encoding::External(2)),
        )
    );
    assert_eq!(record.tag_encodings.len(), 1);
    assert_eq!(record.tag_encodings[0].key, 0x584159);
    assert_eq!(record.tag_encodings[0].encoding, Encoding::ByteArrayStop(b'\t', 3));

    // each encoding alone round-trips as well
    let mut one = Vec::new();
    write_encoding(&mut one, &Encoding::Gamma(-2));
    let (e, m) = read_encoding(&one, 0).unwrap();
    assert_eq!(m, one.len());
    assert_eq!(e, Encoding::Gamma(-2));
}

#[test]
fn test_unsupported_encoding_codec_id() {
    match read_encoding(&[42, 0x00], 0) {
        Err(e) => assert_eq!(e, Error::UnsupportedEncoding(42)),
        Ok(_) => panic!("accepted an unregistered codec id"),
    }
}

#[test]
fn test_landmarks_consistent() {
    let mut c = sample_container(4, 2, 2);
    assert!(c.landmarks_consistent());
    c.header.landmarks[1] += 1;
    assert!(!c.landmarks_consistent());
    c.header.landmarks.pop();
    assert!(!c.landmarks_consistent());
}
