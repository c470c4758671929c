use crate::bits::{bits_of_bytes, lemma_byte_from_bits, msb_bit, packs};
use crate::cassette::{decode_spec, packs_all};
use crate::error::Error;
use crate::formats::{latin1, trimmed_name};
use crate::frame::{ends_with_marker, frame_all, frame_group, frame_upto, marker_bits};
use crate::modulate::{
    bit_cycles, burst, cycle_shape, half_wave, lemma_half_wave_bounds, modulate_spec, preamble, silence_len,
    tone_len, tone_sample, tone_spec, tones_decodable,
};
use crate::pulse::{
    classify_spec, crossings_of, crossings_upto, group_upto, groups_of, kind_of, last_negative, max_amplitude,
    threshold, PulseKind, Spec,
};
use crate::text::{chunk, lemma_text_round_trip, parse_text_spec, text_records};
use vstd::prelude::*;

verus! {

proof fn lemma_scan_prefix(s: Seq<i32>, t: Seq<i32>, ch: int, thr: int, n: int)
    requires
        0 <= n <= s.len(),
        n <= t.len(),
        s.subrange(0, n) == t.subrange(0, n),
    ensures
        crossings_upto(s, ch, thr, n) == crossings_upto(t, ch, thr, n),
        last_negative(s, ch, thr, n) == last_negative(t, ch, thr, n),
    decreases n,
{
    if n > 0 {
        assert(s[n - 1] == s.subrange(0, n)[n - 1]);
        assert(t[n - 1] == t.subrange(0, n)[n - 1]);
        assert(s.subrange(0, n - 1) =~= t.subrange(0, n - 1)) by {
            assert forall|i: int| 0 <= i < n - 1 implies #[trigger] s.subrange(0, n - 1)[i] == t.subrange(0, n - 1)[i] by {
                assert(s[i] == s.subrange(0, n)[i]);
                assert(t[i] == t.subrange(0, n)[i]);
            }
        }
        lemma_scan_prefix(s, t, ch, thr, n - 1);
    }
}

proof fn lemma_scan_silence(s: Seq<i32>, thr: int, p: int, n: int)
    requires
        0 <= p <= n <= s.len(),
        thr >= 0,
        forall|i: int| p <= i < n ==> s[i] == 0,
    ensures
        crossings_upto(s, 1, thr, n) == crossings_upto(s, 1, thr, p),
        last_negative(s, 1, thr, n) == last_negative(s, 1, thr, p),
    decreases n,
{
    if n > p {
        lemma_scan_silence(s, thr, p, n - 1);
    }
}

/// Some sample of a cycle from the third up to `m` is loud and negative.
spec fn seen(b: Seq<i32>, thr: int, m: int) -> bool
    decreases m,
{
    if m <= 2 {
        false
    } else {
        seen(b, thr, m - 1) || b[m - 1] < -thr
    }
}

proof fn lemma_seen_quiets(b: Seq<i32>, thr: int, m: int, k: int)
    requires
        cycle_shape(b, thr),
        2 <= m <= k < b.len(),
        seen(b, thr, m),
    ensures
        b[k] <= thr,
    decreases m,
{
    if seen(b, thr, m - 1) {
        lemma_seen_quiets(b, thr, m - 1, k);
    } else {
        assert(b[m - 1] < -thr);
        assert(1 <= m - 1 < k);
    }
}

proof fn lemma_scan_cycle_rest(s: Seq<i32>, thr: int, p: int, b: Seq<i32>, n: int)
    requires
        0 <= p,
        p + b.len() <= s.len(),
        s.subrange(p, p + b.len()) == b,
        cycle_shape(b, thr),
        thr >= 0,
        p + 2 <= n <= p + b.len(),
    ensures
        crossings_upto(s, 1, thr, n) == crossings_upto(s, 1, thr, p + 2),
        last_negative(s, 1, thr, n) == seen(b, thr, n - p),
    decreases n,
{
    if n > p + 2 {
        lemma_scan_cycle_rest(s, thr, p, b, n - 1);
        let t = n - 1 - p;
        assert(s[n - 1] == s.subrange(p, p + b.len())[t]);
        assert((n - 1) % 1 == 0);
        if b[t] > thr && seen(b, thr, t) {
            lemma_seen_quiets(b, thr, t, t);
        }
    } else {
        assert(!seen(b, thr, 2));
        assert(s[p + 1] == s.subrange(p, p + b.len())[1]);
        assert(s[p] == s.subrange(p, p + b.len())[0]);
        assert((p + 1) % 1 == 0);
        assert(p % 1 == 0);
    }
}

/// One cycle of the right shape adds one crossing, at its second sample, if
/// the last loud sample before it was negative; after it, the last loud
/// sample is negative.
proof fn lemma_scan_cycle(s: Seq<i32>, thr: int, p: int, b: Seq<i32>)
    requires
        0 <= p,
        p + b.len() <= s.len(),
        s.subrange(p, p + b.len()) == b,
        cycle_shape(b, thr),
        thr >= 0,
    ensures
        last_negative(s, 1, thr, p + b.len()),
        crossings_upto(s, 1, thr, p + b.len()) == if last_negative(s, 1, thr, p) {
            crossings_upto(s, 1, thr, p).push(p + 1)
        } else {
            crossings_upto(s, 1, thr, p)
        },
{
    lemma_scan_cycle_rest(s, thr, p, b, p + b.len());
    let n = p + b.len();
    assert(s[n - 1] == s.subrange(p, p + b.len())[b.len() - 1]);
    assert((n - 1) % 1 == 0);
    assert(s[p + 1] == s.subrange(p, p + b.len())[1]);
    assert(s[p] == s.subrange(p, p + b.len())[0]);
    assert((p + 1) % 1 == 0);
    assert(p % 1 == 0);
    assert(!(s[p] > thr || s[p] < -thr));
    assert(last_negative(s, 1, thr, p + 1) == last_negative(s, 1, thr, p));
    assert(crossings_upto(s, 1, thr, p + 1) == crossings_upto(s, 1, thr, p));
    assert(s[p + 1] > thr);
    assert(crossings_upto(s, 1, thr, p + 2) == if last_negative(s, 1, thr, p + 1) {
        crossings_upto(s, 1, thr, p + 1).push(p + 1)
    } else {
        crossings_upto(s, 1, thr, p + 1)
    });
}

/// Where the cycle of bit `i` starts, from the start of the cycles of `bits`.
spec fn off(bits: Seq<bool>, spec: Spec, i: int) -> int {
    bit_cycles(bits.subrange(0, i), spec).len() as int
}

/// The crossings of the cycles of `bits` laid down from `p`: one at the
/// second sample of each cycle, but for the first cycle when the last loud
/// sample before it was not negative.
spec fn cyc_cross(bits: Seq<bool>, spec: Spec, p: int, neg0: bool) -> Seq<int> {
    let st: int = if neg0 || bits.len() == 0 { 0 } else { 1 };
    Seq::new((bits.len() - st) as nat, |i: int| p + off(bits, spec, i + st) + 1)
}

proof fn lemma_tone_len(b: bool, spec: Spec)
    ensures
        tone_spec(b, spec).len() == tone_len(b, spec.sample_rate as int),
        tone_len(b, spec.sample_rate as int) >= 0,
{
}

proof fn lemma_cycles_last(bits: Seq<bool>, spec: Spec)
    requires
        bits.len() > 0,
    ensures
        bit_cycles(bits, spec) == bit_cycles(bits.drop_last(), spec) + tone_spec(bits.last(), spec),
        off(bits, spec, bits.len() - 1) == bit_cycles(bits.drop_last(), spec).len(),
        forall|i: int| 0 <= i <= bits.len() - 1 ==> #[trigger] off(bits, spec, i) == off(bits.drop_last(), spec, i),
{
    assert(bits.subrange(0, bits.len() - 1) =~= bits.drop_last());
    assert forall|i: int| 0 <= i <= bits.len() - 1 implies #[trigger] off(bits, spec, i) == off(bits.drop_last(), spec, i) by {
        assert(bits.subrange(0, i) =~= bits.drop_last().subrange(0, i));
    }
}

proof fn lemma_off_step(bits: Seq<bool>, spec: Spec, i: int)
    requires
        0 <= i < bits.len(),
    ensures
        off(bits, spec, i + 1) == off(bits, spec, i) + tone_len(bits[i], spec.sample_rate as int),
{
    let sub = bits.subrange(0, i + 1);
    assert(sub.drop_last() =~= bits.subrange(0, i));
    lemma_tone_len(bits[i], spec);
}

proof fn lemma_scan_cycles(s: Seq<i32>, spec: Spec, p: int, bits: Seq<bool>)
    requires
        tones_decodable(spec),
        0 <= p,
        p + bit_cycles(bits, spec).len() <= s.len(),
        s.subrange(p, p + bit_cycles(bits, spec).len()) == bit_cycles(bits, spec),
    ensures
        ({
            let thr = threshold(spec.bits_per_sample as int);
            let end = p + bit_cycles(bits, spec).len();
            &&& crossings_upto(s, 1, thr, end) == crossings_upto(s, 1, thr, p)
                + cyc_cross(bits, spec, p, last_negative(s, 1, thr, p))
            &&& last_negative(s, 1, thr, end) == (bits.len() > 0 || last_negative(s, 1, thr, p))
        }),
    decreases bits.len(),
{
    let thr = threshold(spec.bits_per_sample as int);
    let neg0 = last_negative(s, 1, thr, p);
    assert(thr >= 0) by {
        vstd::arithmetic::power2::lemma_pow2_pos((spec.bits_per_sample - 1) as nat);
    }
    if bits.len() == 0 {
        assert(cyc_cross(bits, spec, p, neg0) =~= Seq::<int>::empty());
        assert(crossings_upto(s, 1, thr, p) + Seq::<int>::empty() =~= crossings_upto(s, 1, thr, p));
    } else {
        let d = bits.drop_last();
        lemma_cycles_last(bits, spec);
        let bd = bit_cycles(d, spec);
        let t = tone_spec(bits.last(), spec);
        let q = p + bd.len();
        assert(s.subrange(p, p + bd.len()) =~= bd) by {
            assert forall|i: int| 0 <= i < bd.len() implies #[trigger] s.subrange(p, p + bd.len())[i] == bd[i] by {
                assert(s.subrange(p, p + bit_cycles(bits, spec).len())[i] == bit_cycles(bits, spec)[i]);
            }
        }
        lemma_scan_cycles(s, spec, p, d);
        assert(s.subrange(q, q + t.len()) =~= t) by {
            assert forall|i: int| 0 <= i < t.len() implies #[trigger] s.subrange(q, q + t.len())[i] == t[i] by {
                assert(s.subrange(p, p + bit_cycles(bits, spec).len())[bd.len() + i] == bit_cycles(bits, spec)[bd.len() + i]);
            }
        }
        lemma_scan_cycle(s, thr, q, t);
        let neg_q = last_negative(s, 1, thr, q);
        assert(neg_q == (d.len() > 0 || neg0));
        let cd = cyc_cross(d, spec, p, neg0);
        let cb = cyc_cross(bits, spec, p, neg0);
        if neg_q {
            assert(cb =~= cd.push(q + 1));
            assert(crossings_upto(s, 1, thr, p) + cb =~= (crossings_upto(s, 1, thr, p) + cd).push(q + 1));
        } else {
            assert(cb =~= cd);
        }
    }
}

/// The bits of a burst: preamble and payload.
spec fn burst_bits(p: Seq<u8>) -> Seq<bool> {
    bits_of_bytes(preamble() + p)
}

/// The bits of a burst with its closing one.
spec fn closed_bits(p: Seq<u8>) -> Seq<bool> {
    burst_bits(p).push(true)
}

/// Where the burst of the last payload starts.
spec fn burst_start(ps: Seq<Seq<u8>>, spec: Spec) -> int {
    modulate_spec(ps.drop_last(), spec).len() + if ps.len() > 1 { silence_len(spec.sample_rate as int) } else { 0 }
}

/// The crossings of the modulated payloads.
spec fn expected_crossings(ps: Seq<Seq<u8>>, spec: Spec) -> Seq<int>
    decreases ps.len(),
{
    if ps.len() == 0 {
        Seq::empty()
    } else {
        expected_crossings(ps.drop_last(), spec) + cyc_cross(closed_bits(ps.last()), spec, burst_start(ps, spec), ps.len() > 1)
    }
}

proof fn lemma_burst_cycles(p: Seq<u8>, spec: Spec)
    ensures
        burst(p, spec) == bit_cycles(closed_bits(p), spec),
{
    assert(closed_bits(p).drop_last() =~= burst_bits(p));
}

proof fn lemma_modulate_last(ps: Seq<Seq<u8>>, spec: Spec)
    requires
        ps.len() > 0,
        spec.valid(),
    ensures
        ({
            let prev = modulate_spec(ps.drop_last(), spec);
            let st = burst_start(ps, spec);
            let all = modulate_spec(ps, spec);
            let b = bit_cycles(closed_bits(ps.last()), spec);
            &&& all.len() == st + b.len()
            &&& all.subrange(0, prev.len() as int) == prev
            &&& forall|i: int| prev.len() <= i < st ==> all[i] == 0
            &&& all.subrange(st, st + b.len()) == b
            &&& st >= prev.len()
        }),
{
    lemma_burst_cycles(ps.last(), spec);
    let prev = modulate_spec(ps.drop_last(), spec);
    let st = burst_start(ps, spec);
    let all = modulate_spec(ps, spec);
    let b = bit_cycles(closed_bits(ps.last()), spec);
    assert(silence_len(spec.sample_rate as int) >= 0);
    assert(all.subrange(0, prev.len() as int) =~= prev);
    assert(all.subrange(st, st + b.len()) =~= b);
}

proof fn lemma_stream_crossings(ps: Seq<Seq<u8>>, spec: Spec)
    requires
        tones_decodable(spec),
        spec.channels == 1,
    ensures
        crossings_of(modulate_spec(ps, spec), spec) == expected_crossings(ps, spec),
        last_negative(modulate_spec(ps, spec), 1, threshold(spec.bits_per_sample as int),
            modulate_spec(ps, spec).len() as int) == (ps.len() > 0),
    decreases ps.len(),
{
    let thr = threshold(spec.bits_per_sample as int);
    assert(thr >= 0) by {
        vstd::arithmetic::power2::lemma_pow2_pos((spec.bits_per_sample - 1) as nat);
    }
    if ps.len() > 0 {
        let d = ps.drop_last();
        lemma_stream_crossings(d, spec);
        lemma_modulate_last(ps, spec);
        let prev = modulate_spec(d, spec);
        let all = modulate_spec(ps, spec);
        let st = burst_start(ps, spec);
        assert(prev.subrange(0, prev.len() as int) =~= prev);
        lemma_scan_prefix(all, prev, 1, thr, prev.len() as int);
        lemma_scan_silence(all, thr, prev.len() as int, st);
        lemma_scan_cycles(all, spec, st, closed_bits(ps.last()));
    }
}

/// The pulse kinds that a run of bits stands for.
spec fn kinds(q: Seq<bool>) -> Seq<PulseKind> {
    q.map_values(|b: bool| if b { PulseKind::One } else { PulseKind::Zero })
}

/// The bits whose pulses the group of payload `i` holds: the first burst
/// loses its first bit, which no crossing precedes.
spec fn group_bits(p: Seq<u8>, first: bool) -> Seq<bool> {
    if first { burst_bits(p).drop_first() } else { burst_bits(p) }
}

/// The pulse groups of the modulated payloads.
spec fn expected_groups(ps: Seq<Seq<u8>>) -> Seq<Seq<PulseKind>> {
    Seq::new(ps.len(), |i: int| kinds(group_bits(ps[i], i == 0)))
}

proof fn lemma_group_prefix(c: Seq<int>, c2: Seq<int>, rate: int, n: int)
    requires
        0 <= n,
        n < c.len(),
        n < c2.len(),
        c.subrange(0, n + 1) == c2.subrange(0, n + 1),
    ensures
        group_upto(c, rate, n) == group_upto(c2, rate, n),
    decreases n,
{
    if n > 0 {
        assert(c[n] == c.subrange(0, n + 1)[n]);
        assert(c2[n] == c2.subrange(0, n + 1)[n]);
        assert(c[n - 1] == c.subrange(0, n + 1)[n - 1]);
        assert(c2[n - 1] == c2.subrange(0, n + 1)[n - 1]);
        assert(c.subrange(0, n) =~= c2.subrange(0, n)) by {
            assert forall|i: int| 0 <= i < n implies #[trigger] c.subrange(0, n)[i] == c2.subrange(0, n)[i] by {
                assert(c[i] == c.subrange(0, n + 1)[i]);
                assert(c2[i] == c2.subrange(0, n + 1)[i]);
            }
        }
        lemma_group_prefix(c, c2, rate, n - 1);
    }
}

proof fn lemma_group_run(
    c: Seq<int>,
    rate: int,
    a: int,
    b: int,
    q: Seq<bool>,
    gs: Seq<Seq<PulseKind>>,
    cur: Seq<PulseKind>,
)
    requires
        0 <= a <= b < c.len(),
        b - a <= q.len(),
        forall|j: int| a <= j < b ==> #[trigger] kind_of(c[j + 1] - c[j], rate) == Some(kinds(q)[j - a]),
        group_upto(c, rate, a) == Ok::<(Seq<Seq<PulseKind>>, Seq<PulseKind>), Error>((gs, cur)),
    ensures
        group_upto(c, rate, b) == Ok::<(Seq<Seq<PulseKind>>, Seq<PulseKind>), Error>((gs, cur + kinds(q).subrange(0, b - a))),
    decreases b - a,
{
    if b == a {
        assert(cur + kinds(q).subrange(0, 0) =~= cur);
    } else {
        lemma_group_run(c, rate, a, b - 1, q, gs, cur);
        let j = b - 1;
        assert(a <= j < b);
        assert(kind_of(c[j + 1] - c[j], rate) == Some(kinds(q)[j - a]));
        assert(cur + kinds(q).subrange(0, b - a) =~= (cur + kinds(q).subrange(0, b - 1 - a)).push(kinds(q)[b - 1 - a]));
    }
}

proof fn lemma_cross_steps(bits: Seq<bool>, spec: Spec, p: int, neg0: bool)
    ensures
        ({
            let x = cyc_cross(bits, spec, p, neg0);
            let st: int = if neg0 || bits.len() == 0 { 0 } else { 1 };
            forall|i: int| 0 <= i < x.len() - 1 ==> #[trigger] x[i + 1] - x[i] == tone_len(bits[i + st], spec.sample_rate as int)
        }),
{
    let x = cyc_cross(bits, spec, p, neg0);
    let st: int = if neg0 || bits.len() == 0 { 0 } else { 1 };
    assert forall|i: int| 0 <= i < x.len() - 1 implies #[trigger] x[i + 1] - x[i] == tone_len(bits[i + st], spec.sample_rate as int) by {
        lemma_off_step(bits, spec, i + st);
    }
}

proof fn lemma_tone_kinds(spec: Spec, b: bool)
    requires
        tones_decodable(spec),
    ensures
        kind_of(tone_len(b, spec.sample_rate as int), spec.sample_rate as int)
            == Some(if b { PulseKind::One } else { PulseKind::Zero }),
{
}

proof fn lemma_burst_bits_len(p: Seq<u8>)
    ensures
        burst_bits(p).len() == 8 * (256 + p.len()),
        burst_bits(p).len() >= 2048,
{
}

proof fn lemma_last_burst(ps: Seq<Seq<u8>>, spec: Spec)
    requires
        tones_decodable(spec),
        ps.len() > 0,
    ensures
        ({
            let cb = closed_bits(ps.last());
            let bb = burst_bits(ps.last());
            let st = burst_start(ps, spec);
            let x = cyc_cross(cb, spec, st, ps.len() > 1);
            let s0: int = if ps.len() > 1 { 0 } else { 1 };
            let l1 = tone_len(true, spec.sample_rate as int);
            &&& x.len() == cb.len() - s0
            &&& x.len() >= 2
            &&& x[0] == st + 1 + if ps.len() > 1 { 0 } else { tone_len(bb[0], spec.sample_rate as int) }
            &&& x.last() == modulate_spec(ps, spec).len() - l1 + 1
            &&& forall|i: int| 0 <= i < x.len() - 1 ==> #[trigger] kind_of(x[i + 1] - x[i], spec.sample_rate as int)
                == Some(kinds(group_bits(ps.last(), ps.len() == 1))[i])
        }),
{
    let cb = closed_bits(ps.last());
    let bb = burst_bits(ps.last());
    let st = burst_start(ps, spec);
    let neg0 = ps.len() > 1;
    let x = cyc_cross(cb, spec, st, neg0);
    let s0: int = if neg0 { 0 } else { 1 };
    let rate = spec.sample_rate as int;
    lemma_burst_bits_len(ps.last());
    lemma_modulate_last(ps, spec);
    lemma_cross_steps(cb, spec, st, neg0);
    lemma_off_step(cb, spec, bb.len() as int);
    lemma_off_step(cb, spec, 0);
    assert(cb.subrange(0, cb.len() as int) =~= cb);
    assert(cb.subrange(0, 0) =~= Seq::<bool>::empty());
    assert(off(cb, spec, 0) == 0);
    let g = group_bits(ps.last(), ps.len() == 1);
    assert forall|i: int| 0 <= i < x.len() - 1 implies #[trigger] kind_of(x[i + 1] - x[i], rate) == Some(kinds(g)[i]) by {
        assert(x[i + 1] - x[i] == tone_len(cb[i + s0], rate));
        assert(cb[i + s0] == bb[i + s0]);
        assert(g[i] == bb[i + s0]);
        lemma_tone_kinds(spec, cb[i + s0]);
    }
}

#[verifier::rlimit(40)]
proof fn lemma_stream_groups(ps: Seq<Seq<u8>>, spec: Spec)
    requires
        tones_decodable(spec),
        ps.len() > 0,
    ensures
        ({
            let c = expected_crossings(ps, spec);
            let rate = spec.sample_rate as int;
            &&& c.len() > 0
            &&& c.last() == modulate_spec(ps, spec).len() - tone_len(true, rate) + 1
            &&& group_upto(c, rate, c.len() - 1) == Ok::<(Seq<Seq<PulseKind>>, Seq<PulseKind>), Error>(
                (expected_groups(ps.drop_last()), kinds(group_bits(ps.last(), ps.len() == 1))))
        }),
    decreases ps.len(),
{
    let rate = spec.sample_rate as int;
    let c = expected_crossings(ps, spec);
    let cb = closed_bits(ps.last());
    let bb = burst_bits(ps.last());
    let st = burst_start(ps, spec);
    let x = cyc_cross(cb, spec, st, ps.len() > 1);
    let g = group_bits(ps.last(), ps.len() == 1);
    lemma_last_burst(ps, spec);
    lemma_burst_bits_len(ps.last());
    if ps.len() == 1 {
        assert(expected_crossings(ps.drop_last(), spec) =~= Seq::<int>::empty());
        assert(c =~= x);
        assert(group_upto(c, rate, 0) == Ok::<(Seq<Seq<PulseKind>>, Seq<PulseKind>), Error>((Seq::empty(), Seq::empty())));
        lemma_group_run(c, rate, 0, c.len() - 1, g, Seq::empty(), Seq::empty());
        assert(Seq::<PulseKind>::empty() + kinds(g).subrange(0, c.len() - 1) =~= kinds(g));
        assert(expected_groups(ps.drop_last()) =~= Seq::<Seq<PulseKind>>::empty());
    } else {
        let d = ps.drop_last();
        let ep = expected_crossings(d, spec);
        lemma_stream_groups(d, spec);
        assert(c == ep + x);
        assert(c.subrange(0, ep.len() as int) =~= ep);
        assert(ep.subrange(0, ep.len() as int) =~= ep);
        lemma_group_prefix(c, ep, rate, ep.len() - 1);
        let j0 = ep.len() - 1;
        assert(c[j0] == ep.last());
        assert(c[j0 + 1] == x[0]);
        assert(x[0] - ep.last() == tone_len(true, rate) + silence_len(rate));
        let prev_groups = expected_groups(d.drop_last()).push(kinds(group_bits(d.last(), d.len() == 1)));
        assert(prev_groups =~= expected_groups(d));
        assert(group_upto(c, rate, ep.len() as int) == Ok::<(Seq<Seq<PulseKind>>, Seq<PulseKind>), Error>(
            (expected_groups(d), Seq::empty())));
        assert forall|j: int| ep.len() <= j < c.len() - 1 implies #[trigger] kind_of(c[j + 1] - c[j], rate)
            == Some(kinds(g)[j - ep.len()]) by {
            let i = j - ep.len();
            assert(c[j + 1] == x[i + 1]);
            assert(c[j] == x[i]);
        }
        lemma_group_run(c, rate, ep.len() as int, c.len() - 1, g, expected_groups(d), Seq::empty());
        assert(Seq::<PulseKind>::empty() + kinds(g).subrange(0, c.len() - 1 - ep.len()) =~= kinds(g));
        assert(c.last() == x.last());
    }
}

proof fn lemma_pattern_bits(j: int)
    requires
        0 <= j < 8,
    ensures
        msb_bit(0x55u8, j) == (j % 2 == 1),
        msb_bit(0x7Fu8, j) == (j != 0),
{
    assert(((0x55u8 >> 7u8) & 1u8) == 0u8 && ((0x55u8 >> 6u8) & 1u8) == 1u8
        && ((0x55u8 >> 5u8) & 1u8) == 0u8 && ((0x55u8 >> 4u8) & 1u8) == 1u8
        && ((0x55u8 >> 3u8) & 1u8) == 0u8 && ((0x55u8 >> 2u8) & 1u8) == 1u8
        && ((0x55u8 >> 1u8) & 1u8) == 0u8 && ((0x55u8 >> 0u8) & 1u8) == 1u8
        && ((0x7Fu8 >> 7u8) & 1u8) == 0u8 && ((0x7Fu8 >> 6u8) & 1u8) == 1u8
        && ((0x7Fu8 >> 5u8) & 1u8) == 1u8 && ((0x7Fu8 >> 4u8) & 1u8) == 1u8
        && ((0x7Fu8 >> 3u8) & 1u8) == 1u8 && ((0x7Fu8 >> 2u8) & 1u8) == 1u8
        && ((0x7Fu8 >> 1u8) & 1u8) == 1u8 && ((0x7Fu8 >> 0u8) & 1u8) == 1u8) by (bit_vector);
}

/// The bits of the preamble: alternating 0 and 1, then the marker.
proof fn lemma_preamble_bits(i: int)
    requires
        0 <= i < 2048,
    ensures
        bits_of_bytes(preamble()).len() == 2048,
        bits_of_bytes(preamble())[i] == if i < 2040 { i % 2 == 1 } else { i != 2040 },
{
    lemma_pattern_bits(i % 8);
    assert(i / 8 < 255 <==> i < 2040);
    assert((i % 8) % 2 == i % 2);
    if i >= 2040 {
        assert(i % 8 == i - 2040);
    }
}

proof fn lemma_bits_append(a: Seq<u8>, b: Seq<u8>)
    ensures
        bits_of_bytes(a + b) == bits_of_bytes(a) + bits_of_bytes(b),
{
    let l = bits_of_bytes(a + b);
    let r = bits_of_bytes(a) + bits_of_bytes(b);
    assert forall|i: int| 0 <= i < l.len() implies #[trigger] l[i] == r[i] by {
        if i >= 8 * a.len() {
            let k = i - 8 * a.len();
            assert(i / 8 == k / 8 + a.len()) by {
                vstd::arithmetic::div_mod::lemma_fundamental_div_mod(k, 8);
                vstd::arithmetic::div_mod::lemma_fundamental_div_mod(i, 8);
            }
            assert(i % 8 == k % 8) by {
                vstd::arithmetic::div_mod::lemma_fundamental_div_mod(k, 8);
                vstd::arithmetic::div_mod::lemma_fundamental_div_mod(i, 8);
            }
        } else {
            assert(i / 8 < a.len());
        }
    }
    assert(l =~= r);
}

proof fn lemma_burst_bits(p: Seq<u8>, i: int)
    requires
        0 <= i < 2048,
    ensures
        burst_bits(p) == bits_of_bytes(preamble()) + bits_of_bytes(p),
        burst_bits(p)[i] == if i < 2040 { i % 2 == 1 } else { i != 2040 },
{
    lemma_bits_append(preamble(), p);
    lemma_preamble_bits(i);
}

/// Before the end of the preamble no eight bits of a group are the marker;
/// at its end they are.
proof fn lemma_marker_at_end(p: Seq<u8>, first: bool, n: int)
    requires
        8 <= n <= 2048 - if first { 1int } else { 0 },
    ensures
        ends_with_marker(group_bits(p, first).subrange(0, n)) == (n == 2048 - if first { 1int } else { 0 }),
{
    let o: int = if first { 1 } else { 0 };
    let q = group_bits(p, first);
    let w = q.subrange(0, n);
    lemma_burst_bits_len(p);
    assert forall|t: int| 0 <= t < n implies #[trigger] q[t] == burst_bits(p)[t + o] by {}
    if n == 2048 - o {
        assert forall|t: int| 0 <= t < 8 implies #[trigger] w.subrange(n - 8, n)[t] == marker_bits()[t] by {
            lemma_burst_bits(p, n - 8 + t + o);
        }
        assert(w.subrange(n - 8, n) =~= marker_bits());
    } else {
        let t: int = if n - 1 + o >= 2040 {
            2040 - o
        } else if (n - 7 + o) % 2 == 0 {
            n - 7
        } else {
            n - 6
        };
        lemma_burst_bits(p, t + o);
        assert(!q[t]);
        assert(w.subrange(n - 8, n)[t - (n - 8)] == q[t]);
        assert(marker_bits()[t - (n - 8)]);
    }
}

proof fn lemma_frame_burst(p: Seq<u8>, first: bool, n: int)
    requires
        0 <= n <= group_bits(p, first).len(),
    ensures
        ({
            let q = group_bits(p, first);
            let pre: int = 2048 - if first { 1int } else { 0 };
            &&& n < pre ==> frame_upto(kinds(q), n) == Ok::<(bool, Seq<bool>), Error>((false, q.subrange(0, n)))
            &&& n >= pre ==> frame_upto(kinds(q), n) == Ok::<(bool, Seq<bool>), Error>((true, q.subrange(pre, n)))
        }),
    decreases n,
{
    let q = group_bits(p, first);
    let pre: int = 2048 - if first { 1int } else { 0 };
    lemma_burst_bits_len(p);
    if n == 0 {
        assert(q.subrange(0, 0) =~= Seq::<bool>::empty());
    } else {
        lemma_frame_burst(p, first, n - 1);
        let k = kinds(q)[n - 1];
        assert(k == if q[n - 1] { PulseKind::One } else { PulseKind::Zero });
        if n - 1 < pre {
            let next = q.subrange(0, n - 1).push(k == PulseKind::One);
            assert(next =~= q.subrange(0, n));
            if n >= 8 {
                lemma_marker_at_end(p, first, n);
            }
            if n == pre {
                assert(q.subrange(pre, n) =~= Seq::<bool>::empty());
            }
        } else {
            assert(q.subrange(pre, n - 1).push(k == PulseKind::One) =~= q.subrange(pre, n));
        }
    }
}

/// The bits of a payload follow the preamble of its group.
proof fn lemma_frame_payload(p: Seq<u8>, first: bool)
    ensures
        frame_group(kinds(group_bits(p, first))) == Ok::<Seq<bool>, Error>(bits_of_bytes(p)),
{
    let q = group_bits(p, first);
    let pre: int = 2048 - if first { 1int } else { 0 };
    lemma_burst_bits_len(p);
    lemma_frame_burst(p, first, q.len() as int);
    lemma_burst_bits(p, 0);
    assert(q.subrange(pre, q.len() as int) =~= bits_of_bytes(p));
}

proof fn lemma_frame_stream(ps: Seq<Seq<u8>>, n: int)
    requires
        0 <= n <= ps.len(),
    ensures
        frame_all(expected_groups(ps), n) == Ok::<Seq<Seq<bool>>, Error>(
            Seq::new(n as nat, |i: int| bits_of_bytes(ps[i]))),
    decreases n,
{
    if n == 0 {
        assert(Seq::new(0, |i: int| bits_of_bytes(ps[i])) =~= Seq::<Seq<bool>>::empty());
    } else {
        lemma_frame_stream(ps, n - 1);
        lemma_frame_payload(ps[n - 1], n - 1 == 0);
        assert(Seq::new((n - 1) as nat, |i: int| bits_of_bytes(ps[i])).push(bits_of_bytes(ps[n - 1]))
            =~= Seq::new(n as nat, |i: int| bits_of_bytes(ps[i])));
    }
}

/// The bytes that store the bits of a byte string are that byte string.
pub proof fn lemma_packed_bytes(r: Seq<u8>, p: Seq<u8>)
    requires
        packs(r, bits_of_bytes(p)),
    ensures
        r == p,
{
    assert((8 * p.len() + 7) / 8 == p.len());
    assert forall|k: int| 0 <= k < p.len() implies r[k] == p[k] by {
        assert forall|j: int| 0 <= j < 8 implies #[trigger] msb_bit(r[k], j) == msb_bit(p[k], j) by {
            let i = 8 * k + j;
            assert(i / 8 == k && i % 8 == j);
            assert(bits_of_bytes(p)[i] == msb_bit(p[k], j));
            assert(bits_of_bytes(p)[i] == msb_bit(r[i / 8], i % 8));
        }
        lemma_byte_from_bits(r[k], p[k]);
    }
    assert(r =~= p);
}

/// Decoding undoes encoding: the samples rendered for a list of payloads,
/// read back in the same mono format, give back the bits of each payload in
/// order, and so the bytes of each payload. No payload at all gives no
/// samples, which hold no marker.
pub proof fn lemma_decode_inverts_encode(ps: Seq<Seq<u8>>, spec: Spec)
    requires
        tones_decodable(spec),
        spec.channels == 1,
    ensures
        ps.len() > 0 ==> decode_spec(modulate_spec(ps, spec), spec) == Ok::<Seq<Seq<bool>>, Error>(
            ps.map_values(|p: Seq<u8>| bits_of_bytes(p))),
        ps.len() == 0 ==> decode_spec(modulate_spec(ps, spec), spec) == Err::<Seq<Seq<bool>>, Error>(
            Error::StartSequenceNotFound),
        forall|k: int, r: Seq<u8>| 0 <= k < ps.len() && #[trigger] packs(r, bits_of_bytes(ps[k])) ==> r == ps[k],
{
    let s = modulate_spec(ps, spec);
    let rate = spec.sample_rate as int;
    lemma_stream_crossings(ps, spec);
    let c = expected_crossings(ps, spec);
    assert(crossings_of(s, spec) == c);
    if ps.len() == 0 {
        assert(c =~= Seq::<int>::empty());
        assert(groups_of(c, rate) == Ok::<Seq<Seq<PulseKind>>, Error>(Seq::empty()));
        assert(expected_groups(ps) =~= Seq::<Seq<PulseKind>>::empty());
    } else {
        lemma_stream_groups(ps, spec);
        lemma_burst_bits_len(ps.last());
        let last = kinds(group_bits(ps.last(), ps.len() == 1));
        assert(last.len() > 0);
        assert(expected_groups(ps.drop_last()).push(last) =~= expected_groups(ps));
    }
    assert(classify_spec(s, spec) == Ok::<Seq<Seq<PulseKind>>, Error>(expected_groups(ps)));
    lemma_frame_stream(ps, ps.len() as int);
    assert(Seq::new(ps.len(), |i: int| bits_of_bytes(ps[i])) =~= ps.map_values(|p: Seq<u8>| bits_of_bytes(p)));
    assert forall|k: int, r: Seq<u8>| 0 <= k < ps.len() && #[trigger] packs(r, bits_of_bytes(ps[k])) implies r == ps[k] by {
        lemma_packed_bytes(r, ps[k]);
    }
}

proof fn lemma_tone_signs(b: bool, spec: Spec, i: int)
    requires
        spec.valid(),
        0 <= i < tone_len(b, spec.sample_rate as int),
    ensures
        ({
            let n = tone_len(b, spec.sample_rate as int);
            let a = max_amplitude(spec.bits_per_sample as int);
            let v = tone_sample(i, n, a);
            &&& tone_spec(b, spec)[i] as int == v
            &&& i < n / 2 ==> 0 <= v
            &&& i >= n / 2 ==> v <= 0
        }),
{
    let n = tone_len(b, spec.sample_rate as int);
    let a = max_amplitude(spec.bits_per_sample as int);
    let h = n / 2;
    vstd::arithmetic::power2::lemma_pow2_pos((spec.bits_per_sample - 1) as nat);
    vstd::arithmetic::power2::lemma2_to64();
    if spec.bits_per_sample < 32 {
        vstd::arithmetic::power2::lemma_pow2_strictly_increases((spec.bits_per_sample - 1) as nat, 31);
    }
    if i < h {
        lemma_half_wave_bounds(i, h, a);
    } else {
        lemma_half_wave_bounds(i - h, n - h, a);
    }
}

proof fn lemma_shape_from_ends(b: bool, spec: Spec)
    requires
        spec.valid(),
        ({
            let t = tone_spec(b, spec);
            let thr = threshold(spec.bits_per_sample as int);
            &&& t.len() >= 3
            &&& -thr <= t[0] <= thr
            &&& t[1] > thr
            &&& t[t.len() - 1] < -thr
        }),
    ensures
        cycle_shape(tone_spec(b, spec), threshold(spec.bits_per_sample as int)),
{
    let t = tone_spec(b, spec);
    let thr = threshold(spec.bits_per_sample as int);
    let n = t.len() as int;
    assert(thr >= 0) by {
        vstd::arithmetic::power2::lemma_pow2_pos((spec.bits_per_sample - 1) as nat);
    }
    assert forall|j: int, k: int| 1 <= j < k < t.len() && #[trigger] t[j] < -thr implies #[trigger] t[k] <= thr by {
        lemma_tone_signs(b, spec, j);
        lemma_tone_signs(b, spec, k);
    }
}

proof fn lemma_half_wave_value(j: int, h: int, v: int)
    requires
        0 <= j <= h,
        1 <= h,
        v * (5 * (h * h) - 4 * (j * (h - j))) <= 32767 * (16 * (j * (h - j))),
        32767 * (16 * (j * (h - j))) < (v + 1) * (5 * (h * h) - 4 * (j * (h - j))),
    ensures
        half_wave(j, h, 32767) == v,
{
    let num = 32767 * (16 * (j * (h - j)));
    let den = 5 * (h * h) - 4 * (j * (h - j));
    lemma_half_wave_bounds(j, h, 32767);
    assert(num / den == v) by (nonlinear_arith)
        requires
            den > 0,
            v * den <= num,
            num < (v + 1) * den,
    {
        vstd::arithmetic::div_mod::lemma_fundamental_div_mod(num, den);
    }
}

/// The mono 16-bit format at 44100 Hz passes the check of its tones, so
/// encoding in it never fails and decoding gives the payloads back.
pub proof fn lemma_cd_format_decodable()
    ensures
        tones_decodable(Spec { sample_rate: 44100, channels: 1, bits_per_sample: 16 }),
{
    let spec = Spec { sample_rate: 44100, channels: 1, bits_per_sample: 16 };
    vstd::arithmetic::power2::lemma2_to64();
    assert(max_amplitude(16) == 32767);
    assert(threshold(16) == 3277);
    assert(tone_len(false, 44100) == 37);
    assert(tone_len(true, 44100) == 16);
    lemma_half_wave_value(0, 18, 0);
    lemma_half_wave_value(1, 18, 5742);
    lemma_half_wave_value(18, 19, 5445);
    lemma_half_wave_value(0, 8, 0);
    lemma_half_wave_value(1, 8, 12568);
    lemma_half_wave_value(7, 8, 12568);
    lemma_tone_signs(false, spec, 0);
    lemma_tone_signs(false, spec, 1);
    lemma_tone_signs(false, spec, 36);
    lemma_tone_signs(true, spec, 0);
    lemma_tone_signs(true, spec, 1);
    lemma_tone_signs(true, spec, 15);
    lemma_shape_from_ends(false, spec);
    lemma_shape_from_ends(true, spec);
    assert(silence_len(44100) == 33075);
}

/// At 44100 Hz, mono, 16 bits, decoding gives back the bits of every
/// non-empty list of payloads.
pub proof fn lemma_round_trip_cd(ps: Seq<Seq<u8>>)
    requires
        ps.len() > 0,
    ensures
        decode_spec(modulate_spec(ps, Spec { sample_rate: 44100, channels: 1, bits_per_sample: 16 }),
            Spec { sample_rate: 44100, channels: 1, bits_per_sample: 16 })
            == Ok::<Seq<Seq<bool>>, Error>(ps.map_values(|p: Seq<u8>| bits_of_bytes(p))),
{
    lemma_cd_format_decodable();
    lemma_decode_inverts_encode(ps, Spec { sample_rate: 44100, channels: 1, bits_per_sample: 16 });
}

/// Text mode undoes encoding too: the records of a text file, rendered and
/// decoded, read back as that file, when no 256-byte chunk of its data ends
/// with the filler byte.
pub proof fn lemma_text_mode_round_trip(
    name: Seq<u8>,
    misc: Seq<u8>,
    data: Seq<u8>,
    spec: Spec,
    ignore: bool,
    raw: Seq<Seq<u8>>,
)
    requires
        tones_decodable(spec),
        spec.channels == 1,
        name.len() == 6,
        misc.len() == 10,
        forall|k: int| 0 <= k < (data.len() + 255) / 256 ==> #[trigger] chunk(data, k).last() != 0x1Au8,
        packs_all(raw, decode_spec(modulate_spec(text_records(name, misc, data), spec), spec)->Ok_0),
    ensures
        parse_text_spec(raw, ignore) == Ok::<(Seq<char>, Seq<u8>), Error>((latin1(trimmed_name(name)), data)),
{
    let recs = text_records(name, misc, data);
    lemma_decode_inverts_encode(recs, spec);
    let bufs = recs.map_values(|p: Seq<u8>| bits_of_bytes(p));
    assert forall|k: int| 0 <= k < raw.len() implies raw[k] == recs[k] by {
        assert(packs(raw[k], bufs[k]));
        lemma_packed_bytes(raw[k], recs[k]);
    }
    assert(raw =~= recs);
    lemma_text_round_trip(name, misc, data, ignore);
}

} // verus!
