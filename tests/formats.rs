use cassette_tape::error::Error;
use cassette_tape::formats::{checksum, name, FileType, Header};
use cassette_tape::parser::BinParser;
use cassette_tape::text::{parse_text, TextSection};

fn test_header(check: u8) -> Vec<u8> {
    let mut h = vec![0x9C, b'T', b'E', b'S', b'T', 0x20, 0x20];
    h.extend([0u8; 10]);
    h.push(check);
    h.extend([0u8; 20]);
    h
}

fn header_checksum() -> u8 {
    // the byte that makes name, misc and checksum sum to zero mod 256
    0u8.wrapping_sub(checksum(&test_header(0)[1..17]))
}

fn record(payload: &[u8]) -> Vec<u8> {
    TextSection::new(payload.to_vec()).encode().to_vec()
}

#[test]
fn header_parses_to_its_name() {
    let h = test_header(header_checksum());
    assert_eq!(header_checksum(), 128);
    let file = parse_text(&[h.clone()], false).unwrap();
    assert_eq!(file.name, "TEST");
    assert!(file.data.is_empty());
    let parsed = Header::parse(&h).unwrap();
    assert_eq!(parsed.file_type, FileType::Text);
    assert_eq!(parsed.checksum, 0);
    assert_eq!(Header::parse(&test_header(0)).unwrap().checksum, 128);
}

#[test]
fn flipped_header_checksum_fails_unless_ignored() {
    let h = test_header(!header_checksum());
    assert_eq!(parse_text(&[h.clone()], false).err(), Some(Error::InvalidChecksum(0)));
    assert_eq!(parse_text(&[h], true).unwrap().name, "TEST");
}

#[test]
fn header_new_balances_the_checksum() {
    let h = Header::new(FileType::Text, name(b"TEST"), [0; 10]);
    assert_eq!(h.checksum, 128);
    assert_eq!(Header::parse(&h.encode()).unwrap().checksum, 0);
    let bytes = h.encode();
    assert_eq!(bytes.to_vec(), test_header(128));
    assert_eq!(checksum(&bytes[1..18]), 0);
}

#[test]
fn name_pads_and_cuts() {
    assert_eq!(name(b"AB"), [b'A', b'B', 0x20, 0x20, 0x20, 0x20]);
    assert_eq!(name(b"ABCDEFGH"), *b"ABCDEF");
    let h = Header::new(FileType::Basic, name(b"AB"), [7; 10]);
    assert_eq!(h.name(), "AB");
    let full = Header::new(FileType::Basic, name(b"ABCDEFGH"), [7; 10]);
    assert_eq!(full.name(), "ABCDEF");
}

#[test]
fn name_bytes_become_latin1_characters() {
    let h = Header::new(FileType::Text, [0xC9, b'X', 0x20, b'Y', 0x20, 0x20], [0; 10]);
    assert_eq!(h.name(), "\u{C9}X");
}

#[test]
fn checksum_values() {
    assert_eq!(checksum(&[]), 0);
    assert_eq!(checksum(&[1, 2, 3]), 6);
    assert_eq!(checksum(&[0xFF, 0x02]), 1);
}

#[test]
fn changing_one_byte_breaks_a_valid_record() {
    let rec = record(b"some text");
    assert_eq!(checksum(&rec[1..258]), 0);
    for k in 1..258 {
        let mut bad = rec.clone();
        bad[k] ^= 0x01;
        assert_ne!(checksum(&bad[1..258]), 0);
    }
}

#[test]
fn file_types() {
    assert_eq!(FileType::from_u8(0x9C), Ok(FileType::Text));
    assert_eq!(FileType::from_u8(0xD0), Ok(FileType::Compiled));
    assert_eq!(FileType::from_u8(0xD3), Ok(FileType::Basic));
    assert_eq!(FileType::from_u8(0x00), Err(Error::InvalidFileType));
    assert_eq!(FileType::Compiled.to_u8(), 0xD0);
}

#[test]
fn header_errors() {
    assert_eq!(Header::parse(&[0x9C; 10]).err(), Some(Error::InvalidBufferLength));
    let mut h = test_header(header_checksum());
    h[0] = 0x12;
    assert_eq!(Header::parse(&h).err(), Some(Error::InvalidFileType));
    h[0] = 0xD0;
    assert_eq!(parse_text(&[h], true).err(), Some(Error::InvalidFileType));
    assert_eq!(parse_text(&[], false).err(), Some(Error::InvalidBufferLength));
}

#[test]
fn records_concatenate_their_payloads() {
    let h = test_header(header_checksum());
    let file = parse_text(&[h, record(b"abc"), record(b"def\x1A\x1A")], false).unwrap();
    assert_eq!(file.data, b"abcdef".to_vec());
}

#[test]
fn parsed_record_checksum_is_the_sum() {
    let rec = record(b"abc");
    assert_eq!(TextSection::parse(&rec).unwrap().checksum, 0);
    let mut bad = rec.clone();
    bad[257] = bad[257].wrapping_add(3);
    assert_eq!(TextSection::parse(&bad).unwrap().checksum, 3);
}

#[test]
fn all_filler_record_holds_nothing() {
    let mut rec = vec![0x8D];
    rec.extend([0x1A; 256]);
    rec.push(0); // 256 * 0x1A = 0x1A00 sums to zero mod 256
    rec.extend([0u8; 20]);
    assert_eq!(rec.len(), 278);
    let section = TextSection::parse(&rec).unwrap();
    assert!(section.data.is_empty());
    let file = parse_text(&[test_header(header_checksum()), rec, record(b"x")], false).unwrap();
    assert_eq!(file.data, b"x".to_vec());
}

#[test]
fn record_errors() {
    let h = test_header(header_checksum());
    let mut bad_marker = record(b"abc");
    bad_marker[0] = 0x8C;
    assert_eq!(TextSection::parse(&bad_marker).err(), Some(Error::MissingStartByte(0x8D)));
    assert_eq!(parse_text(&[h.clone(), bad_marker.clone()], true).err(), Some(Error::MissingStartByte(0x8D)));
    let short = vec![0x8D; 100];
    assert_eq!(parse_text(&[h.clone(), short.clone()], true).err(), Some(Error::InvalidBufferLength));
    assert_eq!(parse_text(&[h.clone(), short], false).err(), Some(Error::InvalidBufferLength));
}

#[test]
fn ignoring_checksums_keeps_structural_errors() {
    let h = test_header(header_checksum());
    let mut bad_sum = record(b"abc");
    bad_sum[257] ^= 0xFF;
    assert_eq!(parse_text(&[h.clone(), record(b"x"), bad_sum.clone()], false).err(), Some(Error::InvalidChecksum(2)));
    assert_eq!(parse_text(&[h.clone(), record(b"x"), bad_sum.clone()], true).unwrap().data, b"xabc".to_vec());
    let short = vec![0x8D; 277];
    assert_eq!(parse_text(&[h.clone(), bad_sum.clone(), short.clone()], false).err(), Some(Error::InvalidChecksum(1)));
    assert_eq!(parse_text(&[h, bad_sum, short], true).err(), Some(Error::InvalidBufferLength));
}

#[test]
fn sections_split_and_pad() {
    let data: Vec<u8> = (0..300u32).map(|i| (i % 200) as u8).collect();
    let sections = TextSection::new_multiple(&data);
    assert_eq!(sections.len(), 2);
    assert_eq!(sections[0].data, data[..256].to_vec());
    let mut tail = data[256..].to_vec();
    tail.resize(256, 0x1A);
    assert_eq!(sections[1].data, tail);
    let abc = TextSection::new_multiple(b"ABC");
    assert_eq!(abc.len(), 1);
    assert_eq!(abc[0].data.len(), 256);
    assert_eq!(&abc[0].data[..3], b"ABC");
    assert!(abc[0].data[3..].iter().all(|&b| b == 0x1A));
    let two = TextSection::new_multiple(&[0u8; 257]);
    assert_eq!(two.len(), 2);
    let mut second = vec![0x1A; 256];
    second[0] = 0;
    assert_eq!(two[1].data, second);
    let enc = sections[1].encode();
    assert_eq!(enc[0], 0x8D);
    assert_eq!(enc[1 + 44], 0x1A);
    assert_eq!(enc[256], 0x1A);
    assert_eq!(checksum(&enc[1..258]), 0);
    assert_eq!(TextSection::parse(&enc).unwrap().data, data[256..].to_vec());
    assert!(TextSection::new_multiple(&[]).is_empty());
}

#[test]
fn bin_parser_reads_in_order() {
    let bytes = [1u8, 2, 3, 4, 5, 6, 7];
    let mut p = BinParser::new(&bytes);
    assert_eq!(p.read_u8(), 1);
    let arr: [u8; 3] = p.read_array();
    assert_eq!(arr, [2, 3, 4]);
    p.skip(1);
    assert_eq!(p.read_u8(), 6);
    assert_eq!(p.get(0), 1);
}
