use crate::error::Error;
use vstd::prelude::*;

verus! {

/// The sample rate at which the pulse windows are given.
pub const BASE_RATE: u64 = 44100;

/// The format of a stream of PCM samples.
#[derive(Debug, Clone, Copy, PartialEq, Eq, Structural)]
pub struct Spec {
    pub sample_rate: u32,
    pub channels: u16,
    pub bits_per_sample: u16,
}

impl Spec {
    /// Positive rate and channel count, and a sample width that fits `i32`.
    pub open spec fn valid(self) -> bool {
        &&& self.sample_rate > 0
        &&& self.channels > 0
        &&& 1 <= self.bits_per_sample <= 32
    }
}

/// The timing class of the interval between two crossings.
#[derive(Debug, Clone, Copy, PartialEq, Eq, Structural)]
pub enum PulseKind {
    One,
    Zero,
    Start,
    Gap,
}

/// The largest amplitude of a signed sample of `bits` bits.
pub open spec fn max_amplitude(bits: int) -> int {
    vstd::arithmetic::power2::pow2((bits - 1) as nat) - 1
}

/// Ten percent of the largest amplitude, rounded to the nearest integer.
pub open spec fn threshold(bits: int) -> int {
    (max_amplitude(bits) + 5) / 10
}

/// The class of an interval of `d` samples at `rate` samples per second:
/// One in [15, 20), Zero in [35, 39), Start in [41, 46) samples at 44100 Hz,
/// Gap beyond 20000; each bound scales with the rate.
pub open spec fn kind_of(d: int, rate: int) -> Option<PulseKind> {
    let t = d * 44100;
    if 15 * rate <= t < 20 * rate {
        Some(PulseKind::One)
    } else if 35 * rate <= t < 39 * rate {
        Some(PulseKind::Zero)
    } else if 41 * rate <= t < 46 * rate {
        Some(PulseKind::Start)
    } else if t > 20000 * rate {
        Some(PulseKind::Gap)
    } else {
        None
    }
}

/// The class of an interval depends only on its length in seconds:
/// scaling the interval and the sample rate by the same positive factor
/// leaves the class unchanged.
pub proof fn lemma_kind_scale_invariant(d: int, rate: int, k: int)
    requires
        k > 0,
    ensures
        kind_of(k * d, k * rate) == kind_of(d, rate),
{
    assert forall|a: int| #![trigger a * (k * rate)]
        (a * (k * rate) <= (k * d) * 44100) == (a * rate <= d * 44100)
        && (a * (k * rate) < (k * d) * 44100) == (a * rate < d * 44100) by {
        assert((a * (k * rate) <= (k * d) * 44100) == (a * rate <= d * 44100)) by (nonlinear_arith)
            requires k > 0;
        assert((a * (k * rate) < (k * d) * 44100) == (a * rate < d * 44100)) by (nonlinear_arith)
            requires k > 0;
    }
    let t = (k * d) * 44100;
    assert((15 * (k * rate) <= t) == (15 * rate <= d * 44100));
    assert((20 * (k * rate) <= t) == (20 * rate <= d * 44100));
    assert((35 * (k * rate) <= t) == (35 * rate <= d * 44100));
    assert((39 * (k * rate) <= t) == (39 * rate <= d * 44100));
    assert((41 * (k * rate) <= t) == (41 * rate <= d * 44100));
    assert((46 * (k * rate) <= t) == (46 * rate <= d * 44100));
    assert((20000 * (k * rate) < t) == (20000 * rate < d * 44100));
}

/// Classifies an interval of `d` samples at `rate` samples per second.
pub fn pulse_kind(d: usize, rate: u32) -> (r: Option<PulseKind>)
    ensures
        r == kind_of(d as int, rate as int),
{
    let t: u128 = d as u128 * BASE_RATE as u128;
    let rate = rate as u128;
    if 15 * rate <= t && t < 20 * rate {
        Some(PulseKind::One)
    } else if 35 * rate <= t && t < 39 * rate {
        Some(PulseKind::Zero)
    } else if 41 * rate <= t && t < 46 * rate {
        Some(PulseKind::Start)
    } else if t > 20000 * rate {
        Some(PulseKind::Gap)
    } else {
        None
    }
}

/// The amplitude computed for `bits` bits, with its value.
pub fn amplitude(bits: u16) -> (r: i32)
    requires
        1 <= bits <= 32,
    ensures
        r as int == max_amplitude(bits as int),
        r >= 0,
{
    proof {
        vstd::arithmetic::power2::lemma_pow2_pos((bits - 1) as nat);
        vstd::arithmetic::power2::lemma2_to64();
        vstd::arithmetic::power2::lemma2_to64_rest();
        vstd::bits::lemma_u64_shl_is_mul(1, (bits - 1) as u64);
        if bits < 32 {
            vstd::arithmetic::power2::lemma_pow2_strictly_increases((bits - 1) as nat, 31);
        }
    }
    let r: u64 = (1u64 << ((bits - 1) as u64)) - 1;
    r as i32
}

/// The noise threshold computed for `bits` bits.
pub fn noise_threshold(bits: u16) -> (r: i32)
    requires
        1 <= bits <= 32,
    ensures
        r as int == threshold(bits as int),
        r >= 0,
{
    let a = amplitude(bits);
    ((a as i64 + 5) / 10) as i32
}

/// A sample that is loud enough to count.
pub open spec fn loud(v: i32, thr: int) -> bool {
    v > thr || v < -thr
}

/// Whether the last loud sample among the first `n` that are read (those at a
/// multiple of `ch`) was negative.
pub open spec fn last_negative(s: Seq<i32>, ch: int, thr: int, n: int) -> bool
    decreases n,
{
    if n <= 0 {
        false
    } else if (n - 1) % ch == 0 && loud(s[n - 1], thr) {
        s[n - 1] < 0
    } else {
        last_negative(s, ch, thr, n - 1)
    }
}

/// The crossings among the first `n` samples: each index of a read sample
/// above the threshold whose previous loud sample was negative.
pub open spec fn crossings_upto(s: Seq<i32>, ch: int, thr: int, n: int) -> Seq<int>
    decreases n,
{
    if n <= 0 {
        Seq::empty()
    } else {
        let prev = crossings_upto(s, ch, thr, n - 1);
        if (n - 1) % ch == 0 && s[n - 1] > thr && last_negative(s, ch, thr, n - 1) {
            prev.push(n - 1)
        } else {
            prev
        }
    }
}

/// The crossings of a whole sample stream.
pub open spec fn crossings_of(s: Seq<i32>, spec: Spec) -> Seq<int> {
    crossings_upto(s, spec.channels as int, threshold(spec.bits_per_sample as int), s.len() as int)
}

/// The sample indices at which the first channel crosses from a loud
/// negative sample to a loud positive one.
pub fn crossings(samples: &[i32], spec: &Spec) -> (r: Vec<usize>)
    requires
        spec.valid(),
    ensures
        r@.len() == crossings_of(samples@, *spec).len(),
        forall|k: int| 0 <= k < r@.len() ==> r@[k] as int == #[trigger] crossings_of(samples@, *spec)[k],
        forall|k: int, l: int| 0 <= k < l < r@.len() ==> r@[k] < r@[l],
{
    let thr = noise_threshold(spec.bits_per_sample);
    let ch = spec.channels as usize;
    let ghost s = samples@;
    let ghost ch_i = spec.channels as int;
    let ghost thr_i = thr as int;
    let mut out: Vec<usize> = Vec::new();
    let mut negative = false;
    let mut i: usize = 0;
    while i < samples.len()
        invariant
            i <= samples.len(),
            s == samples@,
            ch as int == ch_i,
            ch_i > 0,
            thr_i == thr,
            thr_i == threshold(spec.bits_per_sample as int),
            negative == last_negative(s, ch_i, thr_i, i as int),
            out@.len() == crossings_upto(s, ch_i, thr_i, i as int).len(),
            forall|k: int| 0 <= k < out@.len() ==> out@[k] as int == #[trigger] crossings_upto(s, ch_i, thr_i, i as int)[k],
            forall|k: int| 0 <= k < out@.len() ==> out@[k] < i,
            forall|k: int, l: int| 0 <= k < l < out@.len() ==> out@[k] < out@[l],
        decreases samples.len() - i,
    {
        let v = samples[i];
        if i % ch == 0 && (v > thr || v < -thr) {
            if v > 0 && negative {
                out.push(i);
            }
            negative = v < 0;
        }
        i += 1;
    }
    out
}

/// The pulse groups after the first `n` intervals between crossings, with
/// the group still being filled.
pub open spec fn group_upto(c: Seq<int>, rate: int, n: int) -> Result<(Seq<Seq<PulseKind>>, Seq<PulseKind>), Error>
    decreases n,
{
    if n <= 0 {
        Ok((Seq::empty(), Seq::empty()))
    } else {
        match group_upto(c, rate, n - 1) {
            Err(e) => Err(e),
            Ok((gs, cur)) => {
                let d = c[n] - c[n - 1];
                match kind_of(d, rate) {
                    None => Err(Error::InvalidPulseLength { samples: d as usize, sample_rate: rate as u32 }),
                    Some(PulseKind::Gap) => Ok((gs.push(cur), Seq::empty())),
                    Some(k) => Ok((gs, cur.push(k))),
                }
            }
        }
    }
}

proof fn lemma_group_error_stays(c: Seq<int>, rate: int, n: int, m: int)
    requires
        0 <= n <= m,
        group_upto(c, rate, n) is Err,
    ensures
        group_upto(c, rate, m) == group_upto(c, rate, n),
    decreases m - n,
{
    if m > n {
        lemma_group_error_stays(c, rate, n, m - 1);
    }
}

/// The pulse groups of a sequence of crossings: a Gap closes a group, and a
/// last group that is not empty is closed at the end.
pub open spec fn groups_of(c: Seq<int>, rate: int) -> Result<Seq<Seq<PulseKind>>, Error> {
    let m = if c.len() > 0 { c.len() - 1 } else { 0 };
    match group_upto(c, rate, m as int) {
        Err(e) => Err(e),
        Ok((gs, cur)) => Ok(if cur.len() > 0 { gs.push(cur) } else { gs }),
    }
}

/// An error as read from a stream stretched by `k`: a pulse of the wrong
/// length counts `k` times the samples at `k` times the rate, the same
/// duration; every other error stays as it is.
pub open spec fn scaled_error(e: Error, k: int) -> Error {
    match e {
        Error::InvalidPulseLength { samples, sample_rate } => Error::InvalidPulseLength {
            samples: (k * samples) as usize,
            sample_rate: (k * sample_rate) as u32,
        },
        _ => e,
    }
}

/// Crossing indices that increase and lie within `0..=bound`.
pub open spec fn ordered_within(c: Seq<int>, bound: int) -> bool {
    &&& forall|i: int| 0 <= i < c.len() ==> 0 <= #[trigger] c[i] <= bound
    &&& forall|i: int| 0 < i < c.len() ==> c[i - 1] < #[trigger] c[i]
}

proof fn lemma_group_upto_scaled(c: Seq<int>, rate: int, k: int, bound: int, n: int)
    requires
        k > 0,
        0 <= rate,
        k * rate <= u32::MAX,
        ordered_within(c, bound),
        k * bound <= usize::MAX,
        0 <= n < c.len(),
    ensures
        group_upto(c.map_values(|x: int| k * x), k * rate, n) == match group_upto(c, rate, n) {
            Ok(x) => Ok::<(Seq<Seq<PulseKind>>, Seq<PulseKind>), Error>(x),
            Err(e) => Err(scaled_error(e, k)),
        },
    decreases n,
{
    if n > 0 {
        lemma_group_upto_scaled(c, rate, k, bound, n - 1);
        let sc = c.map_values(|x: int| k * x);
        let d = c[n] - c[n - 1];
        assert(sc[n] - sc[n - 1] == k * d) by (nonlinear_arith)
            requires sc[n] == k * c[n], sc[n - 1] == k * c[n - 1], d == c[n] - c[n - 1];
        lemma_kind_scale_invariant(d, rate, k);
        assert(0 < d <= bound);
        assert(k * d <= k * bound) by (nonlinear_arith)
            requires k > 0, d <= bound;
        assert(rate <= k * rate) by (nonlinear_arith)
            requires k > 0, rate >= 0;
    }
}

/// Scaling every crossing index and the sample rate by the same positive
/// factor leaves the pulse groups unchanged, and a sequence that fails to
/// classify fails alike: a pulse of the wrong length with the same duration.
pub proof fn lemma_groups_scale_invariant(c: Seq<int>, rate: int, k: int, bound: int)
    requires
        k > 0,
        0 <= rate,
        k * rate <= u32::MAX,
        ordered_within(c, bound),
        k * bound <= usize::MAX,
    ensures
        groups_of(c.map_values(|x: int| k * x), k * rate) == match groups_of(c, rate) {
            Ok(g) => Ok::<Seq<Seq<PulseKind>>, Error>(g),
            Err(e) => Err(scaled_error(e, k)),
        },
{
    if c.len() > 0 {
        lemma_group_upto_scaled(c, rate, k, bound, c.len() - 1);
    }
}

proof fn lemma_crossings_ordered(s: Seq<i32>, ch: int, thr: int, n: int)
    requires
        0 <= n,
    ensures
        ordered_within(crossings_upto(s, ch, thr, n), n - 1),
    decreases n,
{
    if n > 0 {
        lemma_crossings_ordered(s, ch, thr, n - 1);
    }
}

/// Each sample repeated `k` times in place: the same signal at `k` times
/// the sample rate.
pub open spec fn stretched(s: Seq<i32>, k: int) -> Seq<i32> {
    Seq::new((s.len() * k) as nat, |i: int| s[i / k])
}

proof fn lemma_stretched_at(s: Seq<i32>, k: int, m: int, r: int)
    requires
        k > 0,
        0 <= m < s.len(),
        0 <= r < k,
    ensures
        0 <= k * m + r < s.len() * k,
        stretched(s, k)[k * m + r] == s[m],
{
    assert(k * m == m * k) by (nonlinear_arith);
    vstd::arithmetic::div_mod::lemma_fundamental_div_mod_converse(k * m + r, k, m, r);
    assert(k * m + r < s.len() * k) by (nonlinear_arith)
        requires 0 <= m < s.len(), 0 <= r < k;
    assert(0 <= k * m) by (nonlinear_arith)
        requires k > 0, m >= 0;
}

proof fn lemma_scan_run(s: Seq<i32>, k: int, thr: int, m: int, r: int)
    requires
        k > 0,
        thr >= 0,
        0 <= m < s.len(),
        1 <= r <= k,
        crossings_upto(stretched(s, k), 1, thr, k * m) == crossings_upto(s, 1, thr, m).map_values(|x: int| k * x),
        last_negative(stretched(s, k), 1, thr, k * m) == last_negative(s, 1, thr, m),
    ensures
        crossings_upto(stretched(s, k), 1, thr, k * m + r) == crossings_upto(s, 1, thr, m + 1).map_values(|x: int| k * x),
        last_negative(stretched(s, k), 1, thr, k * m + r) == last_negative(s, 1, thr, m + 1),
    decreases r,
{
    let t = stretched(s, k);
    let n = k * m + r;
    lemma_stretched_at(s, k, m, r - 1);
    assert(t[n - 1] == s[m]);
    assert((n - 1) % 1 == 0);
    assert(m % 1 == 0);
    let v = s[m];
    let loud = v > thr || v < -thr;
    assert(last_negative(s, 1, thr, m + 1) == if loud { v < 0 } else { last_negative(s, 1, thr, m) });
    assert(last_negative(t, 1, thr, n) == if loud { v < 0 } else { last_negative(t, 1, thr, n - 1) });
    assert(crossings_upto(t, 1, thr, n) == if v > thr && last_negative(t, 1, thr, n - 1) {
        crossings_upto(t, 1, thr, n - 1).push(n - 1)
    } else {
        crossings_upto(t, 1, thr, n - 1)
    });
    assert(crossings_upto(s, 1, thr, m + 1) == if v > thr && last_negative(s, 1, thr, m) {
        crossings_upto(s, 1, thr, m).push(m)
    } else {
        crossings_upto(s, 1, thr, m)
    });
    if r == 1 {
        assert(n - 1 == k * m);
        assert(crossings_upto(s, 1, thr, m).map_values(|x: int| k * x).push(k * m)
            =~= crossings_upto(s, 1, thr, m).push(m).map_values(|x: int| k * x));
    } else {
        lemma_scan_run(s, k, thr, m, r - 1);
        assert(n - 1 == k * m + (r - 1));
        assert(crossings_upto(t, 1, thr, n - 1) == crossings_upto(s, 1, thr, m + 1).map_values(|x: int| k * x));
        if v > thr {
            assert(!last_negative(s, 1, thr, m + 1));
        }
    }
}

proof fn lemma_scan_stretched(s: Seq<i32>, k: int, thr: int, m: int)
    requires
        k > 0,
        thr >= 0,
        0 <= m <= s.len(),
    ensures
        crossings_upto(stretched(s, k), 1, thr, k * m) == crossings_upto(s, 1, thr, m).map_values(|x: int| k * x),
        last_negative(stretched(s, k), 1, thr, k * m) == last_negative(s, 1, thr, m),
    decreases m,
{
    if m == 0 {
        assert(k * 0 == 0);
        assert(Seq::<int>::empty().map_values(|x: int| k * x) =~= Seq::<int>::empty());
    } else {
        lemma_scan_stretched(s, k, thr, m - 1);
        lemma_scan_run(s, k, thr, m - 1, k);
        assert(k * (m - 1) + k == k * m) by (nonlinear_arith);
    }
}

/// A mono stream stretched by `k`, read at `k` times the rate, has every
/// crossing at `k` times its index.
pub proof fn lemma_crossings_stretched(s: Seq<i32>, spec: Spec, k: int)
    requires
        spec.channels == 1,
        k > 0,
        k * spec.sample_rate <= u32::MAX,
    ensures
        crossings_of(stretched(s, k), Spec { sample_rate: (k * spec.sample_rate) as u32, ..spec })
            == crossings_of(s, spec).map_values(|x: int| k * x),
        ordered_within(crossings_of(s, spec), s.len() - 1),
{
    lemma_crossings_ordered(s, spec.channels as int, threshold(spec.bits_per_sample as int), s.len() as int);
    vstd::arithmetic::power2::lemma_pow2_pos((spec.bits_per_sample - 1) as nat);
    lemma_scan_stretched(s, k, threshold(spec.bits_per_sample as int), s.len() as int);
    assert(stretched(s, k).len() == k * s.len()) by (nonlinear_arith)
        requires stretched(s, k).len() == s.len() * k;
}

/// The pulse groups of a sample stream.
pub open spec fn classify_spec(s: Seq<i32>, spec: Spec) -> Result<Seq<Seq<PulseKind>>, Error> {
    groups_of(crossings_of(s, spec), spec.sample_rate as int)
}

proof fn lemma_crossings_len(s: Seq<i32>, ch: int, thr: int, n: int)
    requires
        0 <= n,
    ensures
        crossings_upto(s, ch, thr, n).len() <= n,
    decreases n,
{
    if n > 0 {
        lemma_crossings_len(s, ch, thr, n - 1);
    }
}

proof fn lemma_group_upto_len(c: Seq<int>, rate: int, n: int)
    requires
        0 <= n,
        group_upto(c, rate, n) is Ok,
    ensures
        group_upto(c, rate, n)->Ok_0.1.len() <= n,
        forall|k: int| 0 <= k < group_upto(c, rate, n)->Ok_0.0.len()
            ==> (#[trigger] group_upto(c, rate, n)->Ok_0.0[k]).len() <= n,
    decreases n,
{
    if n > 0 {
        lemma_group_upto_len(c, rate, n - 1);
    }
}

/// No pulse group of a stream is longer than the stream.
pub proof fn lemma_groups_shorter(s: Seq<i32>, spec: Spec)
    requires
        classify_spec(s, spec) is Ok,
    ensures
        forall|k: int| 0 <= k < classify_spec(s, spec)->Ok_0.len()
            ==> (#[trigger] classify_spec(s, spec)->Ok_0[k]).len() <= s.len(),
{
    let c = crossings_of(s, spec);
    lemma_crossings_len(s, spec.channels as int, threshold(spec.bits_per_sample as int), s.len() as int);
    let m = if c.len() > 0 { c.len() - 1 } else { 0 };
    lemma_group_upto_len(c, spec.sample_rate as int, m as int);
}

/// What a vector of pulse groups holds.
pub open spec fn groups_view(v: Seq<Vec<PulseKind>>) -> Seq<Seq<PulseKind>> {
    v.map_values(|g: Vec<PulseKind>| g@)
}

/// What a result of pulse groups holds.
pub open spec fn groups_result(r: Result<Vec<Vec<PulseKind>>, Error>) -> Result<Seq<Seq<PulseKind>>, Error> {
    match r {
        Ok(g) => Ok(groups_view(g@)),
        Err(e) => Err(e),
    }
}

/// Splits a sample stream into groups of classified pulses, one group per
/// burst between Gaps.
pub fn classify(samples: &[i32], spec: &Spec) -> (r: Result<Vec<Vec<PulseKind>>, Error>)
    requires
        spec.valid(),
    ensures
        classify_spec(samples@, *spec) == groups_result(r),
{
    let c = crossings(samples, spec);
    let ghost cs = crossings_of(samples@, *spec);
    let ghost rate = spec.sample_rate as int;
    let mut groups: Vec<Vec<PulseKind>> = Vec::new();
    let mut cur: Vec<PulseKind> = Vec::new();
    let mut j: usize = 0;
    assert(groups_view(groups@) =~= Seq::<Seq<PulseKind>>::empty());
    while c.len() > 0 && j < c.len() - 1
        invariant
            cs == crossings_of(samples@, *spec),
            c@.len() == cs.len(),
            forall|k: int| 0 <= k < c@.len() ==> c@[k] as int == #[trigger] cs[k],
            forall|k: int, l: int| 0 <= k < l < c@.len() ==> c@[k] < c@[l],
            rate == spec.sample_rate,
            j < c@.len() || j == 0,
            group_upto(cs, rate, j as int) == Ok::<(Seq<Seq<PulseKind>>, Seq<PulseKind>), Error>((groups_view(groups@), cur@)),
        decreases c.len() - j,
    {
        let d = c[j + 1] - c[j];
        assert(cs[j + 1] - cs[j as int] == d);
        match pulse_kind(d, spec.sample_rate) {
            None => {
                let e = Error::InvalidPulseLength { samples: d, sample_rate: spec.sample_rate };
                assert(group_upto(cs, rate, j + 1) == Err::<(Seq<Seq<PulseKind>>, Seq<PulseKind>), Error>(e));
                proof {
                    lemma_group_error_stays(cs, rate, j + 1, cs.len() - 1);
                    assert(groups_of(cs, rate) == Err::<Seq<Seq<PulseKind>>, Error>(e));
                }
                return Err(e);
            },
            Some(PulseKind::Gap) => {
                let ghost old_groups = groups@;
                groups.push(cur);
                cur = Vec::new();
                assert(groups_view(groups@) =~= groups_view(old_groups).push(groups@.last()@));
            },
            Some(k) => {
                cur.push(k);
            },
        }
        j += 1;
    }
    assert(j as int == if cs.len() > 0 { cs.len() - 1 } else { 0 });
    if cur.len() > 0 {
        let ghost old_groups = groups@;
        groups.push(cur);
        assert(groups_view(groups@) =~= groups_view(old_groups).push(groups@.last()@));
    }
    Ok(groups)
}

} // verus!
