use cassette_tape::error::Error;
use cassette_tape::frame::{assemble, frame};
use cassette_tape::pulse::{amplitude, classify, crossings, noise_threshold, pulse_kind, PulseKind, Spec};
use cassette_tape::args::Format;

fn cd_spec() -> Spec {
    Spec {
        sample_rate: 44100,
        channels: 1,
        bits_per_sample: 16,
    }
}

/// A square wave with one negative-to-positive crossing at each given index.
fn wave(crossing_at: &[usize], len: usize) -> Vec<i32> {
    let mut s = vec![-10000; len];
    for &c in crossing_at {
        s[c] = 10000;
    }
    s
}

#[test]
fn pulse_windows() {
    assert_eq!(pulse_kind(14, 44100), None);
    assert_eq!(pulse_kind(15, 44100), Some(PulseKind::One));
    assert_eq!(pulse_kind(19, 44100), Some(PulseKind::One));
    assert_eq!(pulse_kind(20, 44100), None);
    assert_eq!(pulse_kind(35, 44100), Some(PulseKind::Zero));
    assert_eq!(pulse_kind(38, 44100), Some(PulseKind::Zero));
    assert_eq!(pulse_kind(39, 44100), None);
    assert_eq!(pulse_kind(41, 44100), Some(PulseKind::Start));
    assert_eq!(pulse_kind(46, 44100), None);
    assert_eq!(pulse_kind(20000, 44100), None);
    assert_eq!(pulse_kind(20001, 44100), Some(PulseKind::Gap));
}

#[test]
fn pulse_windows_scale_with_rate() {
    for (d, kind) in [(16, PulseKind::One), (37, PulseKind::Zero), (43, PulseKind::Start), (30000, PulseKind::Gap)] {
        assert_eq!(pulse_kind(d, 44100), Some(kind));
        assert_eq!(pulse_kind(2 * d, 88200), Some(kind));
        assert_eq!(pulse_kind(3 * d, 132300), Some(kind));
    }
    assert_eq!(pulse_kind(25, 44100), None);
    assert_eq!(pulse_kind(50, 88200), None);
}

#[test]
fn amplitude_and_threshold() {
    assert_eq!(amplitude(16), 32767);
    assert_eq!(noise_threshold(16), 3277);
    assert_eq!(amplitude(8), 127);
    assert_eq!(noise_threshold(8), 13);
    assert_eq!(amplitude(32), i32::MAX);
}

#[test]
fn crossings_need_a_loud_negative_before() {
    let spec = cd_spec();
    // quiet samples do not count; a positive after a positive is no crossing
    let s = vec![5000, -5000, 100, 5000, 6000, -3000, 5000, -4000, 200, 4000];
    assert_eq!(crossings(&s, &spec), vec![3, 9]);
}

#[test]
fn only_the_first_channel_is_read() {
    let spec = Spec {
        sample_rate: 44100,
        channels: 2,
        bits_per_sample: 16,
    };
    let s = vec![-5000, 9000, 5000, -9000, -5000, 9000, 5000, -9000];
    assert_eq!(crossings(&s, &spec), vec![2, 6]);
}

#[test]
fn gaps_split_groups() {
    let spec = cd_spec();
    let s = wave(&[1, 17, 54, 30054, 30070, 30086], 30100);
    let groups = classify(&s, &spec).unwrap();
    assert_eq!(groups, vec![vec![PulseKind::One, PulseKind::Zero], vec![PulseKind::One, PulseKind::One]]);
}

#[test]
fn bad_pulse_length_is_reported() {
    let spec = cd_spec();
    let s = wave(&[1, 17, 67], 100);
    assert_eq!(
        classify(&s, &spec),
        Err(Error::InvalidPulseLength { samples: 50, sample_rate: 44100 })
    );
}

fn bits(byte: u8) -> Vec<PulseKind> {
    (0..8).map(|j| if byte >> (7 - j) & 1 == 1 { PulseKind::One } else { PulseKind::Zero }).collect()
}

#[test]
fn marker_locks_the_group() {
    let mut g = bits(0x55);
    g.extend(bits(0x7F));
    g.extend(bits(0xC3));
    let buf = frame(&g).unwrap();
    assert_eq!(buf.len(), 8);
    assert_eq!(buf.to_bytes(), vec![0xC3]);
    let out = assemble(&vec![g.clone(), g]).unwrap();
    assert_eq!(out.len(), 2);
    assert_eq!(out[1].to_bytes(), vec![0xC3]);
}

#[test]
fn start_pulse_seeks_as_zero() {
    let mut g = vec![PulseKind::Start];
    g.extend(bits(0x7F).into_iter().skip(1));
    g.extend(bits(0xAA));
    g.push(PulseKind::Start);
    let buf = frame(&g).unwrap();
    assert_eq!(buf.to_bytes(), vec![0xAA]);
}

#[test]
fn start_pulse_inside_a_byte_fails() {
    let mut g = bits(0x7F);
    g.extend([PulseKind::One, PulseKind::Start]);
    assert_eq!(frame(&g).err(), Some(Error::InvalidStartPulse));
}

#[test]
fn no_marker_no_buffer() {
    let mut g = Vec::new();
    for _ in 0..40 {
        g.extend(bits(0x55));
    }
    g.extend(bits(0x3F));
    assert_eq!(frame(&g).err(), Some(Error::StartSequenceNotFound));
    let mut ok = bits(0x7F);
    ok.extend(bits(0x01));
    assert_eq!(assemble(&vec![ok, g]).err(), Some(Error::StartSequenceNotFound));
    assert_eq!(frame(&vec![]).err(), Some(Error::StartSequenceNotFound));
}

#[test]
fn format_names() {
    assert_eq!(Format::Raw.as_str(), "raw");
    assert_eq!(Format::Text.as_str(), "text");
}

#[test]
fn scaled_stream_classifies_alike() {
    let spec = cd_spec();
    let s = wave(&[1, 17, 54, 30054, 30070], 30100);
    let doubled = wave(&[2, 34, 108, 60108, 60140], 60200);
    let spec2 = Spec {
        sample_rate: 88200,
        channels: 1,
        bits_per_sample: 16,
    };
    assert_eq!(classify(&s, &spec).unwrap(), classify(&doubled, &spec2).unwrap());
}

#[test]
fn scaled_stream_fails_alike() {
    let spec = cd_spec();
    let s = wave(&[1, 17, 67], 100);
    let doubled: Vec<i32> = s.iter().flat_map(|&x| [x, x]).collect();
    let spec2 = Spec {
        sample_rate: 88200,
        channels: 1,
        bits_per_sample: 16,
    };
    assert_eq!(classify(&s, &spec), Err(Error::InvalidPulseLength { samples: 50, sample_rate: 44100 }));
    assert_eq!(
        classify(&doubled, &spec2),
        Err(Error::InvalidPulseLength { samples: 100, sample_rate: 88200 })
    );
}
