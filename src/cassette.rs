use crate::bits::{bit_capacity, bits_of, lemma_packs_agree, packs, raw_bytes, BitBuffer};
use crate::error::Error;
use crate::frame::{assemble, assemble_spec, buffers_result, lemma_assemble_errors};
use crate::pulse::{
    classify, classify_spec, crossings_of, groups_view, lemma_crossings_stretched, lemma_groups_scale_invariant,
    crossings_upto, groups_of, lemma_groups_shorter, ordered_within, scaled_error, stretched, threshold, Spec,
};
use crate::text::{agree_but_last, lemma_parse_ignores_last_byte, parse_text, parse_text_spec, text_result, TextFile};
use vstd::prelude::*;

verus! {

/// The bit buffers that a sample stream holds: its pulse groups, each read
/// after its marker. A stream without a single pulse group holds no marker
/// either, and fails as a group without one does.
pub open spec fn decode_spec(s: Seq<i32>, spec: Spec) -> Result<Seq<Seq<bool>>, Error> {
    match classify_spec(s, spec) {
        Err(e) => Err(e),
        Ok(gs) => if gs.len() == 0 { Err(Error::StartSequenceNotFound) } else { assemble_spec(gs) },
    }
}

/// Decoding depends on time alone: a mono stream with every sample repeated
/// `k` times, read at `k` times the sample rate, decodes to the same
/// buffers, and fails with the same error, a pulse of the wrong length
/// keeping its duration.
pub proof fn lemma_decode_scale_invariant(s: Seq<i32>, spec: Spec, k: int)
    requires
        spec.channels == 1,
        k > 0,
        k * spec.sample_rate <= u32::MAX,
        k * s.len() <= usize::MAX,
    ensures
        decode_spec(stretched(s, k), Spec { sample_rate: (k * spec.sample_rate) as u32, ..spec })
            == match decode_spec(s, spec) {
            Ok(b) => Ok::<Seq<Seq<bool>>, Error>(b),
            Err(e) => Err(scaled_error(e, k)),
        },
{
    let spec2 = Spec { sample_rate: (k * spec.sample_rate) as u32, ..spec };
    lemma_crossings_stretched(s, spec, k);
    let c = crossings_of(s, spec);
    if s.len() == 0 {
        assert(c.len() == 0) by {
            assert(c == crossings_upto(s, spec.channels as int, threshold(spec.bits_per_sample as int), 0));
        }
        assert(ordered_within(c, 0));
        lemma_groups_scale_invariant(c, spec.sample_rate as int, k, 0);
    } else {
        assert(k * (s.len() - 1) <= k * s.len()) by (nonlinear_arith)
            requires k > 0;
        lemma_groups_scale_invariant(c, spec.sample_rate as int, k, s.len() - 1);
    }
    assert(spec2.sample_rate as int == k * spec.sample_rate);
    assert(classify_spec(stretched(s, k), spec2) == groups_of(c.map_values(|x: int| k * x), k * spec.sample_rate));
    if let Ok(gs) = classify_spec(s, spec) {
        lemma_assemble_errors(gs);
    }
}

/// Decodes a stream of interleaved samples into one bit buffer per burst.
/// A stream with no pulse group (fewer than two crossings, as an empty or
/// silent recording has) holds no marker, and fails with
/// `StartSequenceNotFound` rather than giving no buffers.
///
/// The bound on the number of samples is the capacity of a bit buffer; no
/// slice of `i32` exceeds it, as an allocation holds at most `isize::MAX`
/// bytes.
pub fn decode(samples: &[i32], spec: Spec) -> (r: Result<Vec<BitBuffer>, Error>)
    requires
        spec.valid(),
        samples@.len() <= bit_capacity(),
    ensures
        buffers_result(r) == decode_spec(samples@, spec),
{
    let groups = classify(samples, &spec)?;
    if groups.len() == 0 {
        return Err(Error::StartSequenceNotFound);
    }
    proof {
        lemma_groups_shorter(samples@, spec);
        assert(classify_spec(samples@, spec)->Ok_0 == groups_view(groups@));
        assert forall|k: int| 0 <= k < groups@.len() implies #[trigger] groups@[k]@.len() <= bit_capacity() by {
            assert(groups_view(groups@)[k] == groups@[k]@);
        }
    }
    assemble(&groups)
}

/// Decodes a stream of interleaved samples into the bytes of each burst,
/// eight bits to a byte, most significant bit first.
pub fn decode_raw(samples: &[i32], spec: Spec) -> (r: Result<Vec<Vec<u8>>, Error>)
    requires
        spec.valid(),
        samples@.len() <= bit_capacity(),
    ensures
        match decode_spec(samples@, spec) {
            Err(e) => r == Err::<Vec<Vec<u8>>, Error>(e),
            Ok(bufs) => r is Ok && r->Ok_0@.len() == bufs.len() && forall|k: int|
                0 <= k < bufs.len() ==> packs(#[trigger] r->Ok_0@[k]@, bufs[k]),
        },
{
    let bufs = decode(samples, spec)?;
    let mut out: Vec<Vec<u8>> = Vec::new();
    let mut k: usize = 0;
    while k < bufs.len()
        invariant
            k <= bufs@.len(),
            out@.len() == k,
            forall|t: int| 0 <= t < k ==> packs(#[trigger] out@[t]@, bits_of(bufs@[t])),
        decreases bufs.len() - k,
    {
        out.push(raw_bytes(&bufs[k]));
        k += 1;
    }
    proof {
        let v = bufs@.map_values(|b: BitBuffer| bits_of(b));
        assert forall|t: int| 0 <= t < v.len() implies packs(#[trigger] out@[t]@, v[t]) by {}
    }
    Ok(out)
}

/// Each byte string stores the bit buffer at the same index.
pub open spec fn packs_all(raw: Seq<Seq<u8>>, bufs: Seq<Seq<bool>>) -> bool {
    raw.len() == bufs.len() && forall|k: int| 0 <= k < bufs.len() ==> packs(#[trigger] raw[k], bufs[k])
}

/// Byte strings that store the same bit buffers agree on every byte but the
/// last of each.
pub proof fn lemma_packs_all_agree(a: Seq<Seq<u8>>, b: Seq<Seq<u8>>, bufs: Seq<Seq<bool>>)
    requires
        packs_all(a, bufs),
        packs_all(b, bufs),
    ensures
        agree_but_last(a, b),
{
    assert forall|k: int| 0 <= k < a.len() implies (#[trigger] a[k]).len() == b[k].len() by {
        lemma_packs_agree(a[k], b[k], bufs[k]);
    }
    assert forall|k: int, i: int| 0 <= k < a.len() && 0 <= i < a[k].len() - 1 implies #[trigger] a[k][i] == b[k][i] by {
        lemma_packs_agree(a[k], b[k], bufs[k]);
    }
}

/// Decodes a stream of samples in text mode: the bursts are the header and
/// data records of one text file.
pub fn decode_text(samples: &[i32], spec: Spec, ignore_checksums: bool) -> (r: Result<TextFile, Error>)
    requires
        spec.valid(),
        samples@.len() <= bit_capacity(),
    ensures
        match decode_spec(samples@, spec) {
            Err(e) => r == Err::<TextFile, Error>(e),
            Ok(bufs) => (exists|raw: Seq<Seq<u8>>| #[trigger] packs_all(raw, bufs))
                && forall|raw: Seq<Seq<u8>>| #[trigger] packs_all(raw, bufs)
                    ==> text_result(r) == parse_text_spec(raw, ignore_checksums),
        },
{
    let raw = decode_raw(samples, spec)?;
    let r = parse_text(raw.as_slice(), ignore_checksums);
    proof {
        let v = raw@.map_values(|b: Vec<u8>| b@);
        assert(crate::text::buffers_view(raw@) == v);
        if let Ok(bufs) = decode_spec(samples@, spec) {
            assert forall|k: int| 0 <= k < bufs.len() implies packs(#[trigger] v[k], bufs[k]) by {
                assert(v[k] == raw@[k]@);
            }
            assert(packs_all(v, bufs));
            assert forall|raw: Seq<Seq<u8>>| #[trigger] packs_all(raw, bufs)
                implies text_result(r) == parse_text_spec(raw, ignore_checksums) by {
                lemma_packs_all_agree(v, raw, bufs);
                lemma_parse_ignores_last_byte(v, raw, ignore_checksums);
            }
        }
    }
    r
}

} // verus!
