use cassette_tape::capture::Capture;
use cassette_tape::cassette::decode;
use cassette_tape::modulate::encode;
use cassette_tape::pulse::Spec;

const SECOND: u64 = 1_000_000_000;

#[test]
fn quiet_samples_do_not_start() {
    let mut c = Capture::new();
    assert!(!c.step(1000, 0));
    assert!(!c.started);
    // ten percent of i32::MAX, rounded, is the threshold
    assert!(!c.step(214_748_365, 5 * SECOND));
    assert!(!c.started);
    assert!(!c.step(-214_748_366, 6 * SECOND));
    assert!(c.started);
    assert_eq!(c.last_loud_ns, 6 * SECOND);
}

#[test]
fn three_quiet_seconds_stop() {
    let mut c = Capture::new();
    assert!(!c.step(i32::MAX, SECOND));
    assert!(!c.step(0, 4 * SECOND));
    assert!(!c.step(i32::MIN, 4 * SECOND));
    assert_eq!(c.last_loud_ns, 4 * SECOND);
    assert!(!c.step(0, 7 * SECOND));
    assert!(c.step(0, 7 * SECOND + 1));
}

#[test]
fn one_second_is_kept_before_start() {
    let mut c = Capture::new();
    assert_eq!(c.excess(44100, 44100), 0);
    assert_eq!(c.excess(44150, 44100), 50);
    c.step(i32::MAX, 0);
    assert_eq!(c.excess(44150, 44100), 0);
}

#[test]
fn bit_buffers_hold_the_payload_bits() {
    let spec = Spec {
        sample_rate: 44100,
        channels: 1,
        bits_per_sample: 16,
    };
    let samples = encode(&[vec![0xA5]], &spec).unwrap();
    let bufs = decode(&samples, spec).unwrap();
    assert_eq!(bufs.len(), 1);
    assert_eq!(bufs[0].len(), 8);
    let bits: Vec<bool> = (0..8).map(|i| bufs[0].get(i)).collect();
    assert_eq!(bits, vec![true, false, true, false, false, true, false, true]);
    assert_eq!(bufs[0].to_bytes(), vec![0xA5]);
}

#[test]
fn plural_suffix() {
    assert_eq!(cassette_tape::misc::plural(1), "");
    assert_eq!(cassette_tape::misc::plural(0), "s");
    assert_eq!(cassette_tape::misc::plural(2), "s");
}
