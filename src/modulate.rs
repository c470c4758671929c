use crate::bits::{bits_of_bytes, byte_bit, msb_bit};
use crate::error::Error;
use crate::pulse::{amplitude, kind_of, max_amplitude, threshold, PulseKind, Spec};
use vstd::prelude::*;

verus! {

/// The carrier for a zero bit, in Hz. One cycle lasts 36.75 samples at
/// 44100 Hz, inside the Zero window of 35 to 39 samples.
pub const ZERO_TONE_HZ: u32 = 1200;

/// The carrier for a one bit, in Hz. One cycle lasts 16.46 samples at
/// 44100 Hz, inside the One window of 15 to 20 samples.
pub const ONE_TONE_HZ: u32 = 2680;

/// Number of 0x55 bytes before the marker in every burst.
pub const PREAMBLE_LEN: usize = 255;

/// The marker byte that ends the preamble.
pub const MARKER: u8 = 0x7F;

/// Samples in one cycle of the tone for `bit`: the sample rate over the
/// carrier frequency, rounded to the nearest integer.
pub open spec fn tone_len(bit: bool, rate: int) -> int {
    if bit {
        (rate + 1340) / 2680
    } else {
        (rate + 600) / 1200
    }
}

/// Half a sine wave of `h` samples at amplitude `a`, sample `j`, by
/// Bhaskara's rational approximation 16x(pi - x) / (5 pi^2 - 4x(pi - x)).
pub open spec fn half_wave(j: int, h: int, a: int) -> int {
    if h <= 0 {
        0
    } else {
        (a * (16 * (j * (h - j)))) / (5 * (h * h) - 4 * (j * (h - j)))
    }
}

/// Sample `i` of one sine cycle of `n` samples: a positive half of `n / 2`
/// samples, then a negative half.
pub open spec fn tone_sample(i: int, n: int, a: int) -> int {
    let h = n / 2;
    if i < h {
        half_wave(i, h, a)
    } else {
        -half_wave(i - h, n - h, a)
    }
}

/// One cycle of the tone for `bit`, at full amplitude.
pub open spec fn tone_spec(bit: bool, spec: Spec) -> Seq<i32> {
    let n = tone_len(bit, spec.sample_rate as int);
    let a = max_amplitude(spec.bits_per_sample as int);
    Seq::new(n as nat, |i: int| tone_sample(i, n, a) as i32)
}

/// A cycle that the classifier reads as one crossing at its second sample:
/// a quiet first sample, a loud positive second one, no loud positive sample
/// after a loud negative one, and a loud negative last sample.
pub open spec fn cycle_shape(b: Seq<i32>, thr: int) -> bool {
    &&& b.len() >= 3
    &&& -thr <= b[0] <= thr
    &&& b[1] > thr
    &&& b[b.len() - 1] < -thr
    &&& forall|j: int, k: int| 1 <= j < k < b.len() && #[trigger] b[j] < -thr ==> #[trigger] b[k] <= thr
}

/// Samples of silence between two bursts: three quarters of a second.
pub open spec fn silence_len(rate: int) -> int {
    rate * 3 / 4
}

/// The tones of this format decode again: each cycle has the shape, a zero
/// cycle and a one cycle fall in the Zero and One windows, and a pause of
/// silence after a cycle is a Gap.
pub open spec fn tones_decodable(spec: Spec) -> bool {
    let rate = spec.sample_rate as int;
    let thr = threshold(spec.bits_per_sample as int);
    &&& spec.valid()
    &&& cycle_shape(tone_spec(false, spec), thr)
    &&& cycle_shape(tone_spec(true, spec), thr)
    &&& kind_of(tone_len(false, rate), rate) == Some(PulseKind::Zero)
    &&& kind_of(tone_len(true, rate), rate) == Some(PulseKind::One)
    &&& kind_of(tone_len(true, rate) + silence_len(rate), rate) == Some(PulseKind::Gap)
}

/// Every sample lies within plus or minus `a`.
pub open spec fn within(s: Seq<i32>, a: int) -> bool {
    forall|i: int| 0 <= i < s.len() ==> -a <= #[trigger] s[i] <= a
}

/// The preamble: 255 bytes of 0x55, then the marker.
pub open spec fn preamble() -> Seq<u8> {
    Seq::new(255, |i: int| 0x55u8).push(0x7Fu8)
}

/// One tone cycle per bit, in order.
pub open spec fn bit_cycles(bits: Seq<bool>, spec: Spec) -> Seq<i32>
    decreases bits.len(),
{
    if bits.len() == 0 {
        Seq::empty()
    } else {
        bit_cycles(bits.drop_last(), spec) + tone_spec(bits.last(), spec)
    }
}

/// The burst for one payload: preamble, payload, and one closing one cycle
/// whose crossing ends the last bit.
pub open spec fn burst(payload: Seq<u8>, spec: Spec) -> Seq<i32> {
    bit_cycles(bits_of_bytes(preamble() + payload), spec) + tone_spec(true, spec)
}

/// The samples for a list of payloads: their bursts in order, with silence
/// between two bursts.
pub open spec fn modulate_spec(ps: Seq<Seq<u8>>, spec: Spec) -> Seq<i32>
    decreases ps.len(),
{
    if ps.len() == 0 {
        Seq::empty()
    } else {
        let prev = modulate_spec(ps.drop_last(), spec);
        let gap = if ps.len() > 1 {
            Seq::new(silence_len(spec.sample_rate as int) as nat, |i: int| 0i32)
        } else {
            Seq::empty()
        };
        prev + gap + burst(ps.last(), spec)
    }
}

pub(crate) proof fn lemma_half_wave_bounds(j: int, h: int, a: int)
    requires
        0 <= j <= h,
        1 <= h,
        0 <= a,
    ensures
        0 <= half_wave(j, h, a) <= a,
        5 * (h * h) - 4 * (j * (h - j)) >= 4 * (h * h),
        j * (h - j) <= h * h,
        h * h >= 1,
{
    let p = j * (h - j);
    assert(0 <= p) by (nonlinear_arith)
        requires 0 <= j <= h, p == j * (h - j);
    assert(4 * p <= h * h) by (nonlinear_arith)
        requires p == j * (h - j);
    let den = 5 * (h * h) - 4 * p;
    assert(h * h >= 1) by (nonlinear_arith)
        requires 1 <= h;
    assert(a * (16 * p) <= a * den) by (nonlinear_arith)
        requires 0 <= a, 16 * p <= den;
    assert(0 <= a * (16 * p)) by (nonlinear_arith)
        requires 0 <= a, 0 <= p;
    vstd::arithmetic::div_mod::lemma_div_is_ordered(a * (16 * p), a * den, den);
    vstd::arithmetic::div_mod::lemma_div_by_multiple(a, den);
    vstd::arithmetic::div_mod::lemma_div_pos_is_pos(a * (16 * p), den);
}

/// The sample `j` of a half wave of `h` samples at amplitude `a`.
fn half_wave_value(j: u64, h: u64, a: u64) -> (r: u64)
    requires
        j <= h,
        1 <= h < 0x1_0000_0000,
        a < 0x1_0000_0000,
    ensures
        r as int == half_wave(j as int, h as int, a as int),
        r <= a,
{
    proof {
        lemma_half_wave_bounds(j as int, h as int, a as int);
    }
    assert((j as int) * ((h - j) as int) < 0x1_0000_0000_0000_0000) by (nonlinear_arith)
        requires j <= h, h < 0x1_0000_0000;
    assert((h as int) * (h as int) < 0x1_0000_0000_0000_0000) by (nonlinear_arith)
        requires h < 0x1_0000_0000;
    let p: u128 = (j as u128) * ((h - j) as u128);
    let hh: u128 = (h as u128) * (h as u128);
    assert((a as int) * (16 * p) <= 0x1_0000_0000 * (16 * 0x1_0000_0000_0000_0000)) by (nonlinear_arith)
        requires a < 0x1_0000_0000, 0 <= p, p < 0x1_0000_0000_0000_0000;
    let num: u128 = (a as u128) * (16 * p);
    let den: u128 = 5 * hh - 4 * p;
    assert(den > 0);
    (num / den) as u64
}

/// One cycle of the tone for `bit` at full amplitude.
pub fn tone(bit: bool, spec: &Spec) -> (r: Vec<i32>)
    requires
        spec.valid(),
    ensures
        r@ == tone_spec(bit, *spec),
        within(r@, max_amplitude(spec.bits_per_sample as int)),
{
    let rate = spec.sample_rate as u64;
    let f: u64 = if bit { ONE_TONE_HZ as u64 } else { ZERO_TONE_HZ as u64 };
    let n: u64 = (rate + f / 2) / f;
    let a = amplitude(spec.bits_per_sample);
    let h: u64 = n / 2;
    let g: u64 = n - h;
    let ghost want = tone_spec(bit, *spec);
    let mut out: Vec<i32> = Vec::new();
    let mut i: u64 = 0;
    while i < n
        invariant
            n as int == tone_len(bit, spec.sample_rate as int),
            n < 0x1_0000_0000,
            h == n / 2,
            g == n - h,
            a as int == max_amplitude(spec.bits_per_sample as int),
            0 <= a,
            want == tone_spec(bit, *spec),
            i <= n,
            out@.len() == i,
            forall|t: int| 0 <= t < i ==> out@[t] == #[trigger] want[t],
            within(out@, a as int),
        decreases n - i,
    {
        let v: i32 = if i < h {
            half_wave_value(i, h, a as u64) as i32
        } else {
            -(half_wave_value(i - h, g, a as u64) as i32)
        };
        assert(v == tone_sample(i as int, n as int, a as int) as i32);
        out.push(v);
        i += 1;
    }
    assert(out@ =~= want);
    out
}

/// Appends `t` to `out`.
fn append(out: &mut Vec<i32>, t: &Vec<i32>)
    ensures
        final(out)@ == old(out)@ + t@,
        forall|a: int| within(old(out)@, a) && within(t@, a) ==> #[trigger] within(final(out)@, a),
{
    let ghost start = out@;
    let mut i: usize = 0;
    while i < t.len()
        invariant
            i <= t@.len(),
            out@ == start + t@.subrange(0, i as int),
        decreases t.len() - i,
    {
        out.push(t[i]);
        i += 1;
        assert(out@ =~= start + t@.subrange(0, i as int));
    }
    assert(t@.subrange(0, i as int) =~= t@);
    assert forall|a: int| within(start, a) && within(t@, a) implies #[trigger] within(out@, a) by {
        assert forall|k: int| 0 <= k < out@.len() implies -a <= #[trigger] out@[k] <= a by {
            if k >= start.len() {
                assert(out@[k] == t@[k - start.len()]);
            }
        }
    }
}

proof fn lemma_bits_of_bytes_step(s: Seq<u8>, k: int)
    requires
        0 <= k < 8 * s.len(),
    ensures
        bits_of_bytes(s).subrange(0, k + 1) == bits_of_bytes(s).subrange(0, k).push(msb_bit(s[k / 8], k % 8)),
{
    assert(bits_of_bytes(s).subrange(0, k + 1) =~= bits_of_bytes(s).subrange(0, k).push(msb_bit(s[k / 8], k % 8)));
}

/// The tone cycles for the bits of `data`, most significant bit of each byte
/// first.
pub fn encode_segment(data: &[u8], spec: &Spec) -> (r: Vec<i32>)
    requires
        spec.valid(),
    ensures
        r@ == bit_cycles(bits_of_bytes(data@), *spec),
        within(r@, max_amplitude(spec.bits_per_sample as int)),
{
    let ghost a = max_amplitude(spec.bits_per_sample as int);
    let zero = tone(false, spec);
    let one = tone(true, spec);
    let ghost bits = bits_of_bytes(data@);
    let mut out: Vec<i32> = Vec::new();
    let mut i: usize = 0;
    assert(bits.subrange(0, 0) =~= Seq::<bool>::empty());
    while i < data.len()
        invariant
            i <= data@.len(),
            bits == bits_of_bytes(data@),
            zero@ == tone_spec(false, *spec),
            one@ == tone_spec(true, *spec),
            out@ == bit_cycles(bits.subrange(0, 8 * i), *spec),
            a == max_amplitude(spec.bits_per_sample as int),
            within(zero@, a),
            within(one@, a),
            within(out@, a),
        decreases data.len() - i,
    {
        let byte = data[i];
        let mut j: usize = 0;
        while j < 8
            invariant
                i < data@.len(),
                byte == data@[i as int],
                j <= 8,
                bits == bits_of_bytes(data@),
                zero@ == tone_spec(false, *spec),
                one@ == tone_spec(true, *spec),
                out@ == bit_cycles(bits.subrange(0, 8 * i + j), *spec),
                within(zero@, a),
                within(one@, a),
                within(out@, a),
            decreases 8 - j,
        {
            let b = byte_bit(byte, j);
            proof {
                let k = 8 * i + j;
                lemma_bits_of_bytes_step(data@, k as int);
                assert(k / 8 == i as int && k % 8 == j as int);
                let next = bits.subrange(0, k + 1);
                assert(next.drop_last() =~= bits.subrange(0, k as int));
                assert(next.last() == b);
            }
            if b {
                append(&mut out, &one);
            } else {
                append(&mut out, &zero);
            }
            j += 1;
        }
        i += 1;
    }
    assert(bits.subrange(0, 8 * i) =~= bits);
    out
}

/// The preamble bytes.
fn preamble_bytes() -> (r: Vec<u8>)
    ensures
        r@ == preamble(),
{
    let mut out: Vec<u8> = Vec::new();
    let mut i: usize = 0;
    while i < PREAMBLE_LEN
        invariant
            i <= 255,
            out@ == Seq::new(i as nat, |t: int| 0x55u8),
        decreases 255 - i,
    {
        out.push(0x55);
        i += 1;
        assert(out@ =~= Seq::new(i as nat, |t: int| 0x55u8));
    }
    out.push(MARKER);
    assert(out@ =~= preamble());
    out
}

/// Renders payloads as samples: each one a burst of preamble, payload and a
/// closing cycle, with three quarters of a second of silence between bursts.
/// Every format gives samples; whether they decode again is
/// `tones_decodable`, which the mono 16-bit format at 44100 Hz meets.
///
/// Two choices make the samples decode again. A zero bit is one cycle at
/// 1200 Hz rather than 1320 Hz: a 1320 Hz cycle lasts 33 samples at
/// 44100 Hz, outside the Zero window of 35 to 39 samples. And each burst
/// ends with one closing one cycle: a bit is read from the crossing at its
/// start to the next one, so without it the last payload bit would be lost.
pub fn encode(data: &[Vec<u8>], spec: &Spec) -> (r: Result<Vec<i32>, Error>)
    requires
        spec.valid(),
    ensures
        r is Ok,
        r->Ok_0@ == modulate_spec(data@.map_values(|p: Vec<u8>| p@), *spec),
        within(r->Ok_0@, max_amplitude(spec.bits_per_sample as int)),
{
    let ghost a = max_amplitude(spec.bits_per_sample as int);
    proof {
        vstd::arithmetic::power2::lemma_pow2_pos((spec.bits_per_sample - 1) as nat);
    }
    let ghost ps = data@.map_values(|p: Vec<u8>| p@);
    let pre = preamble_bytes();
    let one = tone(true, spec);
    let silence_n = (spec.sample_rate as u64 * 3 / 4) as usize;
    let mut out: Vec<i32> = Vec::new();
    let mut k: usize = 0;
    assert(ps.subrange(0, 0) =~= Seq::<Seq<u8>>::empty());
    while k < data.len()
        invariant
            k <= data@.len(),
            ps == data@.map_values(|p: Vec<u8>| p@),
            pre@ == preamble(),
            one@ == tone_spec(true, *spec),
            silence_n as int == silence_len(spec.sample_rate as int),
            spec.valid(),
            out@ == modulate_spec(ps.subrange(0, k as int), *spec),
            a == max_amplitude(spec.bits_per_sample as int),
            a >= 0,
            within(one@, a),
            within(out@, a),
        decreases data.len() - k,
    {
        let ghost before = out@;
        if k > 0 {
            let mut t: usize = 0;
            while t < silence_n
                invariant
                    t <= silence_n,
                    out@ == before + Seq::new(t as nat, |i: int| 0i32),
                    a >= 0,
                    within(before, a),
                    within(out@, a),
                decreases silence_n - t,
            {
                let ghost prev = out@;
                out.push(0);
                t += 1;
                assert(out@ =~= before + Seq::new(t as nat, |i: int| 0i32));
                assert(within(out@, a)) by {
                    assert forall|k: int| 0 <= k < out@.len() implies -a <= #[trigger] out@[k] <= a by {
                        if k < prev.len() {
                            assert(out@[k] == prev[k]);
                        }
                    }
                }
            }
        }
        let mut bytes = pre.clone();
        let mut j: usize = 0;
        while j < data[k].len()
            invariant
                k < data@.len(),
                j <= data@[k as int]@.len(),
                bytes@ == preamble() + data@[k as int]@.subrange(0, j as int),
            decreases data@[k as int]@.len() - j,
        {
            bytes.push(data[k][j]);
            j += 1;
            assert(bytes@ =~= preamble() + data@[k as int]@.subrange(0, j as int));
        }
        let seg = encode_segment(bytes.as_slice(), spec);
        append(&mut out, &seg);
        append(&mut out, &one);
        proof {
            let sub = ps.subrange(0, k + 1);
            assert(sub.drop_last() =~= ps.subrange(0, k as int));
            assert(data@[k as int]@.subrange(0, j as int) =~= data@[k as int]@);
            assert(sub.last() == data@[k as int]@);
            assert(out@ =~= modulate_spec(sub, *spec));
        }
        k += 1;
    }
    assert(ps.subrange(0, k as int) =~= ps);
    Ok(out)
}

} // verus!
