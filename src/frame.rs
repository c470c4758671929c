use crate::bits::{bit_buffer, bit_capacity, bit_clear, bit_get, bit_len, bit_push, bits_of, BitBuffer};
use crate::error::Error;
use crate::pulse::{groups_view, PulseKind};
use vstd::prelude::*;

verus! {

/// The marker byte 0x7F as bits: a zero and seven ones.
pub open spec fn marker_bits() -> Seq<bool> {
    seq![false, true, true, true, true, true, true, true]
}

/// The last eight bits are the marker.
pub open spec fn ends_with_marker(acc: Seq<bool>) -> bool {
    acc.len() >= 8 && acc.subrange(acc.len() - 8, acc.len() as int) == marker_bits()
}

/// One pulse read into the state (locked, bits so far). A One appends 1, a
/// Zero 0, a Start 0 while seeking; once locked a Start must fall on a byte
/// boundary. While seeking, the marker locks and empties the bits.
pub open spec fn frame_step(locked: bool, acc: Seq<bool>, p: PulseKind) -> Result<(bool, Seq<bool>), Error> {
    if p == PulseKind::Gap {
        Ok((locked, acc))
    } else if p == PulseKind::Start && locked {
        if acc.len() % 8 == 0 {
            Ok((true, acc))
        } else {
            Err(Error::InvalidStartPulse)
        }
    } else {
        let next = acc.push(p == PulseKind::One);
        if !locked && ends_with_marker(next) {
            Ok((true, Seq::empty()))
        } else {
            Ok((locked, next))
        }
    }
}

/// The state after the first `n` pulses of a group.
pub open spec fn frame_upto(g: Seq<PulseKind>, n: int) -> Result<(bool, Seq<bool>), Error>
    decreases n,
{
    if n <= 0 {
        Ok((false, Seq::empty()))
    } else {
        match frame_upto(g, n - 1) {
            Err(e) => Err(e),
            Ok((locked, acc)) => frame_step(locked, acc, g[n - 1]),
        }
    }
}

/// The bits of one group after its marker; a group that never locks fails.
pub open spec fn frame_group(g: Seq<PulseKind>) -> Result<Seq<bool>, Error> {
    match frame_upto(g, g.len() as int) {
        Err(e) => Err(e),
        Ok((locked, acc)) => if locked { Ok(acc) } else { Err(Error::StartSequenceNotFound) },
    }
}

/// The bits of the first `n` groups; the first failure stops.
pub open spec fn frame_all(gs: Seq<Seq<PulseKind>>, n: int) -> Result<Seq<Seq<bool>>, Error>
    decreases n,
{
    if n <= 0 {
        Ok(Seq::empty())
    } else {
        match frame_all(gs, n - 1) {
            Err(e) => Err(e),
            Ok(bufs) => match frame_group(gs[n - 1]) {
                Err(e) => Err(e),
                Ok(b) => Ok(bufs.push(b)),
            },
        }
    }
}

/// The bit buffers of all groups, in order.
pub open spec fn assemble_spec(gs: Seq<Seq<PulseKind>>) -> Result<Seq<Seq<bool>>, Error> {
    frame_all(gs, gs.len() as int)
}

/// What a result of bit buffers holds.
pub open spec fn buffers_result(r: Result<Vec<BitBuffer>, Error>) -> Result<Seq<Seq<bool>>, Error> {
    match r {
        Ok(v) => Ok(v@.map_values(|b: BitBuffer| bits_of(b))),
        Err(e) => Err(e),
    }
}

/// The bits that the first `n` pulses of a group stand for while seeking:
/// 1 for a One, 0 for a Zero or a Start.
pub open spec fn pulse_bits_upto(g: Seq<PulseKind>, n: int) -> Seq<bool>
    decreases n,
{
    if n <= 0 {
        Seq::empty()
    } else if g[n - 1] == PulseKind::Gap {
        pulse_bits_upto(g, n - 1)
    } else {
        pulse_bits_upto(g, n - 1).push(g[n - 1] == PulseKind::One)
    }
}

/// Some eight consecutive bits of `s` are the marker.
pub open spec fn contains_marker(s: Seq<bool>) -> bool {
    exists|i: int| 0 <= i && i + 8 <= s.len() && #[trigger] s.subrange(i, i + 8) == marker_bits()
}

proof fn lemma_pulse_bits_prefix(g: Seq<PulseKind>, n: int, m: int)
    requires
        0 <= n <= m <= g.len(),
    ensures
        pulse_bits_upto(g, n).len() <= pulse_bits_upto(g, m).len(),
        pulse_bits_upto(g, n) == pulse_bits_upto(g, m).subrange(0, pulse_bits_upto(g, n).len() as int),
    decreases m - n,
{
    if m > n {
        lemma_pulse_bits_prefix(g, n, m - 1);
        let a = pulse_bits_upto(g, n);
        let b = pulse_bits_upto(g, m - 1);
        let c = pulse_bits_upto(g, m);
        assert(b =~= c.subrange(0, b.len() as int));
        assert(a =~= c.subrange(0, a.len() as int));
    }
}

proof fn lemma_unlocked_without_marker(g: Seq<PulseKind>, n: int)
    requires
        0 <= n <= g.len(),
        !contains_marker(pulse_bits_upto(g, g.len() as int)),
    ensures
        frame_upto(g, n) == Ok::<(bool, Seq<bool>), Error>((false, pulse_bits_upto(g, n))),
    decreases n,
{
    if n > 0 {
        lemma_unlocked_without_marker(g, n - 1);
        if g[n - 1] != PulseKind::Gap {
            let next = pulse_bits_upto(g, n);
            let full = pulse_bits_upto(g, g.len() as int);
            lemma_pulse_bits_prefix(g, n, g.len() as int);
            if ends_with_marker(next) {
                let i = next.len() - 8;
                assert(full.subrange(i, i + 8) =~= next.subrange(i, i + 8));
                assert(contains_marker(full));
            }
        }
    }
}

/// A group whose bits never hold the marker byte fails with
/// `StartSequenceNotFound` and gives no buffer; so does every list of groups
/// that holds such a group, wherever it stands.
pub proof fn lemma_no_marker_no_buffer(gs: Seq<Seq<PulseKind>>, k: int)
    requires
        0 <= k < gs.len(),
        !contains_marker(pulse_bits_upto(gs[k], gs[k].len() as int)),
    ensures
        frame_group(gs[k]) == Err::<Seq<bool>, Error>(Error::StartSequenceNotFound),
        assemble_spec(gs) is Err,
{
    lemma_unlocked_without_marker(gs[k], gs[k].len() as int);
    lemma_frame_all_fails_from(gs, k, gs.len() as int);
}

proof fn lemma_frame_all_fails_from(gs: Seq<Seq<PulseKind>>, k: int, m: int)
    requires
        0 <= k < m <= gs.len(),
        frame_group(gs[k]) is Err,
    ensures
        frame_all(gs, m) is Err,
    decreases m,
{
    if m - 1 > k {
        lemma_frame_all_fails_from(gs, k, m - 1);
    }
}

proof fn lemma_frame_upto_errors(g: Seq<PulseKind>, n: int)
    ensures
        frame_upto(g, n) is Err ==> frame_upto(g, n)->Err_0 == Error::InvalidStartPulse,
    decreases n,
{
    if n > 0 {
        lemma_frame_upto_errors(g, n - 1);
    }
}

proof fn lemma_frame_all_errors(gs: Seq<Seq<PulseKind>>, n: int)
    ensures
        frame_all(gs, n) is Err ==> frame_all(gs, n)->Err_0 == Error::InvalidStartPulse
            || frame_all(gs, n)->Err_0 == Error::StartSequenceNotFound,
    decreases n,
{
    if n > 0 {
        lemma_frame_all_errors(gs, n - 1);
        lemma_frame_upto_errors(gs[n - 1], gs[n - 1].len() as int);
    }
}

/// Framing fails only on a misplaced Start pulse or a missing marker.
pub proof fn lemma_assemble_errors(gs: Seq<Seq<PulseKind>>)
    ensures
        assemble_spec(gs) is Err ==> assemble_spec(gs)->Err_0 == Error::InvalidStartPulse
            || assemble_spec(gs)->Err_0 == Error::StartSequenceNotFound,
{
    lemma_frame_all_errors(gs, gs.len() as int);
}

/// Whether the last eight bits of the buffer are the marker.
fn holds_marker(v: &BitBuffer) -> (r: bool)
    ensures
        r == ends_with_marker(bits_of(*v)),
{
    let n = bit_len(v);
    if n < 8 {
        return false;
    }
    let ghost bits = bits_of(*v);
    let mut j: usize = 0;
    while j < 8
        invariant
            n == bits.len(),
            bits == bits_of(*v),
            n >= 8,
            j <= 8,
            forall|t: int| 0 <= t < j ==> bits[n - 8 + t] == #[trigger] marker_bits()[t],
        decreases 8 - j,
    {
        if bit_get(v, n - 8 + j) != (j != 0) {
            assert(bits.subrange(n - 8, n as int)[j as int] != marker_bits()[j as int]);
            return false;
        }
        j += 1;
    }
    assert(bits.subrange(n - 8, n as int) =~= marker_bits());
    true
}

proof fn lemma_frame_error_stays(g: Seq<PulseKind>, n: int, m: int)
    requires
        0 <= n <= m,
        frame_upto(g, n) is Err,
    ensures
        frame_upto(g, m) == frame_upto(g, n),
    decreases m - n,
{
    if m > n {
        lemma_frame_error_stays(g, n, m - 1);
    }
}

proof fn lemma_frame_len(g: Seq<PulseKind>, n: int)
    requires
        0 <= n,
        frame_upto(g, n) is Ok,
    ensures
        frame_upto(g, n)->Ok_0.1.len() <= n,
    decreases n,
{
    if n > 0 {
        lemma_frame_len(g, n - 1);
    }
}

/// Reads one group of pulses into the bits that follow its marker.
pub fn frame(g: &Vec<PulseKind>) -> (r: Result<BitBuffer, Error>)
    requires
        g@.len() <= bit_capacity(),
    ensures
        match r {
            Ok(b) => frame_group(g@) == Ok::<Seq<bool>, Error>(bits_of(b)),
            Err(e) => frame_group(g@) == Err::<Seq<bool>, Error>(e),
        },
{
    let mut acc = bit_buffer();
    let mut locked = false;
    let mut i: usize = 0;
    while i < g.len()
        invariant
            i <= g@.len(),
            g@.len() <= bit_capacity(),
            frame_upto(g@, i as int) == Ok::<(bool, Seq<bool>), Error>((locked, bits_of(acc))),
        decreases g.len() - i,
    {
        proof {
            lemma_frame_len(g@, i as int);
        }
        let p = g[i];
        if p == PulseKind::Gap {
        } else if p == PulseKind::Start && locked {
            if bit_len(&acc) % 8 != 0 {
                proof {
                    lemma_frame_error_stays(g@, i + 1, g@.len() as int);
                }
                return Err(Error::InvalidStartPulse);
            }
        } else {
            bit_push(&mut acc, p == PulseKind::One);
            if !locked && holds_marker(&acc) {
                bit_clear(&mut acc);
                locked = true;
            }
        }
        i += 1;
    }
    if locked {
        Ok(acc)
    } else {
        Err(Error::StartSequenceNotFound)
    }
}

/// Reads every group into its bit buffer, in order; the first failing group
/// stops the whole.
pub fn assemble(groups: &Vec<Vec<PulseKind>>) -> (r: Result<Vec<BitBuffer>, Error>)
    requires
        forall|k: int| 0 <= k < groups@.len() ==> #[trigger] groups@[k]@.len() <= bit_capacity(),
    ensures
        assemble_spec(groups_view(groups@)) == buffers_result(r),
{
    let ghost gs = groups_view(groups@);
    let mut out: Vec<BitBuffer> = Vec::new();
    let mut k: usize = 0;
    assert(out@.map_values(|b: BitBuffer| bits_of(b)) =~= Seq::<Seq<bool>>::empty());
    while k < groups.len()
        invariant
            k <= groups@.len(),
            gs == groups_view(groups@),
            forall|k: int| 0 <= k < groups@.len() ==> #[trigger] groups@[k]@.len() <= bit_capacity(),
            frame_all(gs, k as int) == Ok::<Seq<Seq<bool>>, Error>(out@.map_values(|b: BitBuffer| bits_of(b))),
        decreases groups.len() - k,
    {
        assert(gs[k as int] == groups@[k as int]@);
        match frame(&groups[k]) {
            Ok(b) => {
                let ghost before = out@;
                out.push(b);
                assert(out@.map_values(|b: BitBuffer| bits_of(b)) =~= before.map_values(|b: BitBuffer| bits_of(b)).push(bits_of(b)));
            },
            Err(e) => {
                proof {
                    lemma_frame_all_error_stays(gs, k + 1, gs.len() as int);
                }
                return Err(e);
            },
        }
        k += 1;
    }
    Ok(out)
}

proof fn lemma_frame_all_error_stays(gs: Seq<Seq<PulseKind>>, n: int, m: int)
    requires
        0 <= n <= m,
        frame_all(gs, n) is Err,
    ensures
        frame_all(gs, m) == frame_all(gs, n),
    decreases m - n,
{
    if m > n {
        lemma_frame_all_error_stays(gs, n, m - 1);
    }
}

} // verus!
