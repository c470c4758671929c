use cassette_tape::cassette::{decode, decode_raw, decode_text};
use cassette_tape::error::Error;
use cassette_tape::formats::{name, FileType, Header};
use cassette_tape::modulate::{encode, encode_segment, tone};
use cassette_tape::pulse::Spec;
use cassette_tape::text::TextSection;

fn cd_spec() -> Spec {
    Spec {
        sample_rate: 44100,
        channels: 1,
        bits_per_sample: 16,
    }
}

#[test]
fn cassette_test_encode_segment() {
    let spec = Spec {
        sample_rate: 44100,
        channels: 1,
        bits_per_sample: 16,
    };

    let data = vec![b"Hello, world!".to_vec()];
    let encoded = encode(&data, &spec).unwrap();

    let mut wav = hound::WavWriter::new(
        std::io::Cursor::new(Vec::new()),
        hound::WavSpec {
            channels: 1,
            sample_rate: 44100,
            bits_per_sample: 16,
            sample_format: hound::SampleFormat::Int,
        },
    )
    .unwrap();

    for sample in encoded {
        wav.write_sample(sample).unwrap();
    }

    wav.finalize().unwrap();
}

#[test]
fn text_test_encode_segment() {
    let header = Header::new(FileType::Text, name(b"TEST"), [0; 10]).encode();
    let raw_data: Vec<u8> = (0..600u32).map(|i| b"Cassette text file. "[(i % 20) as usize]).collect();
    let inner_data = TextSection::new_multiple(&raw_data)
        .into_iter()
        .map(|e| e.encode())
        .collect::<Vec<_>>();

    let mut data = Vec::new();
    data.push(header.to_vec());
    for i in 0..inner_data.len() {
        data.push(inner_data[i].to_vec());
    }

    let spec = Spec {
        sample_rate: 44100,
        channels: 1,
        bits_per_sample: 16,
    };

    let encoded = encode(&data, &spec).unwrap();

    let mut wav = hound::WavWriter::new(
        std::io::Cursor::new(Vec::new()),
        hound::WavSpec {
            channels: 1,
            sample_rate: 44100,
            bits_per_sample: 16,
            sample_format: hound::SampleFormat::Int,
        },
    )
    .unwrap();

    for sample in encoded.iter() {
        wav.write_sample(*sample).unwrap();
    }

    wav.finalize().unwrap();

    let file = decode_text(&encoded, spec, false).unwrap();
    assert_eq!(file.name, "TEST");
    assert_eq!(file.data, raw_data);
}

#[test]
fn hi_round_trips_in_raw_mode() {
    let spec = cd_spec();
    let samples = encode(&[b"HI".to_vec()], &spec).unwrap();
    let out = decode_raw(&samples, spec).unwrap();
    assert_eq!(out, vec![b"HI".to_vec()]);
}

#[test]
fn several_payloads_round_trip() {
    let spec = cd_spec();
    let payloads = vec![b"Hello, world!".to_vec(), vec![0x00, 0xFF, 0x7F, 0x55], vec![0x1A]];
    let samples = encode(&payloads, &spec).unwrap();
    assert_eq!(decode_raw(&samples, spec).unwrap(), payloads);
    assert_eq!(decode(&samples, spec).unwrap().len(), 3);
}

#[test]
fn every_byte_value_round_trips() {
    let spec = cd_spec();
    let payload: Vec<u8> = (0..=255u8).collect();
    let samples = encode(&[payload.clone()], &spec).unwrap();
    assert_eq!(decode_raw(&samples, spec).unwrap(), vec![payload]);
}

#[test]
fn round_trip_at_48000() {
    let spec = Spec {
        sample_rate: 48000,
        channels: 1,
        bits_per_sample: 16,
    };
    let samples = encode(&[b"tape".to_vec()], &spec).unwrap();
    assert_eq!(decode_raw(&samples, spec).unwrap(), vec![b"tape".to_vec()]);
}

#[test]
fn no_payload_gives_no_samples() {
    let spec = cd_spec();
    assert_eq!(encode(&[], &spec).unwrap(), Vec::<i32>::new());
    assert_eq!(decode_raw(&[], spec), Err(Error::StartSequenceNotFound));
}

#[test]
fn burst_length_is_exact() {
    let spec = cd_spec();
    let one = tone(true, &spec);
    let zero = tone(false, &spec);
    assert_eq!(one.len(), 16);
    assert_eq!(zero.len(), 37);
    // 0x55 has four ones and four zeros; 0x7F has seven ones and one zero.
    let preamble = 255 * (4 * 16 + 4 * 37) + (7 * 16 + 37);
    // 'H' = 0x48 has two ones, 'I' = 0x49 has three.
    let payload = (2 * 16 + 6 * 37) + (3 * 16 + 5 * 37);
    let samples = encode(&[b"HI".to_vec()], &spec).unwrap();
    assert_eq!(samples.len(), preamble + payload + 16);
    let two = encode(&[b"HI".to_vec(), b"HI".to_vec()], &spec).unwrap();
    assert_eq!(two.len(), 2 * samples.len() + 33075);
}

#[test]
fn segment_is_one_cycle_per_bit() {
    let spec = cd_spec();
    let seg = encode_segment(&[0x80], &spec);
    assert_eq!(seg.len(), 16 + 7 * 37);
    assert_eq!(seg[..16].to_vec(), tone(true, &spec));
    assert_eq!(seg[16..53].to_vec(), tone(false, &spec));
}

#[test]
fn tone_values() {
    let spec = cd_spec();
    let one = tone(true, &spec);
    assert_eq!(one[0], 0);
    // 32767 * 16 * 7 / (5 * 64 - 4 * 7)
    assert_eq!(one[1], 12568);
    assert_eq!(one[4], 32767);
    assert_eq!(one[8], 0);
    assert_eq!(one[9], -12568);
    assert_eq!(one[12], -32767);
}

#[test]
fn every_rate_renders() {
    for rate in [8000u32, 11025, 22050, 44100, 48000, 96000] {
        for bits in [8u16, 16, 24, 32] {
            let spec = Spec {
                sample_rate: rate,
                channels: 1,
                bits_per_sample: bits,
            };
            let samples = encode(&[b"HI".to_vec()], &spec).unwrap();
            let max = ((1i64 << (bits - 1)) - 1) as i32;
            assert!(!samples.is_empty());
            assert!(samples.iter().all(|&x| -max <= x && x <= max));
        }
    }
}

#[test]
fn pulseless_stream_fails_without_marker() {
    let spec = cd_spec();
    assert_eq!(decode_raw(&[0; 1000], spec), Err(Error::StartSequenceNotFound));
    assert_eq!(decode_raw(&[-9000, 9000, -9000], spec), Err(Error::StartSequenceNotFound));
    assert_eq!(decode(&[], spec).err(), Some(Error::StartSequenceNotFound));
    assert_eq!(decode_text(&[0; 10], spec, true).err(), Some(Error::StartSequenceNotFound));
}

#[test]
fn partial_byte_keeps_its_bits() {
    let spec = cd_spec();
    let one = tone(true, &spec);
    // a lead byte, the marker, then two one bits and the closing cycle
    let mut samples = encode_segment(&[0x00, 0x7F], &spec);
    for _ in 0..3 {
        samples.extend(one.iter());
    }
    let bufs = decode(&samples, spec).unwrap();
    assert_eq!(bufs.len(), 1);
    assert_eq!(bufs[0].len(), 2);
    let out = decode_raw(&samples, spec).unwrap();
    assert_eq!(out.len(), 1);
    assert_eq!(out[0].len(), 1);
    assert_eq!(out[0][0] & 0xC0, 0xC0);
}

#[test]
fn text_decode_flag_changes_only_checksum_outcomes() {
    let spec = cd_spec();
    let header = Header::new(FileType::Text, name(b"TEST"), [0; 10]).encode().to_vec();
    let mut bad = TextSection::new(b"abc".to_vec()).encode().to_vec();
    bad[257] ^= 0x01;
    let samples = encode(&[header.clone(), bad], &spec).unwrap();
    assert_eq!(decode_text(&samples, spec, false).err(), Some(Error::InvalidChecksum(1)));
    let file = decode_text(&samples, spec, true).unwrap();
    assert_eq!(file.name, "TEST");
    assert_eq!(file.data, b"abc".to_vec());

    let mut bad_header = header.clone();
    bad_header[17] ^= 0xFF;
    let samples = encode(&[bad_header], &spec).unwrap();
    assert_eq!(decode_text(&samples, spec, false).err(), Some(Error::InvalidChecksum(0)));
    let file = decode_text(&samples, spec, true).unwrap();
    assert_eq!(file.name, "TEST");
    assert!(file.data.is_empty());

    let samples = encode(&[header, vec![0x8D; 100]], &spec).unwrap();
    assert_eq!(decode_text(&samples, spec, true).err(), Some(Error::InvalidBufferLength));
    assert_eq!(decode_text(&samples, spec, false).err(), Some(Error::InvalidBufferLength));
}

#[test]
fn stretched_stream_decodes_alike() {
    let spec = Spec {
        sample_rate: 22050,
        channels: 1,
        bits_per_sample: 16,
    };
    let samples = encode(&[b"tape".to_vec(), b"deck".to_vec()], &spec).unwrap();
    let doubled: Vec<i32> = samples.iter().flat_map(|&x| [x, x]).collect();
    let spec2 = Spec {
        sample_rate: 44100,
        channels: 1,
        bits_per_sample: 16,
    };
    let once = decode_raw(&samples, spec).unwrap();
    assert_eq!(once, vec![b"tape".to_vec(), b"deck".to_vec()]);
    assert_eq!(decode_raw(&doubled, spec2).unwrap(), once);
}
