use crate::error::Error;
use crate::formats::{
    balancing_byte, byte_sum, checksum, file_type_of, header_bytes, header_summed, latin1, lemma_checksum_law,
    sums_to_zero, trimmed_name, FileType, Header,
};
use vstd::prelude::*;

verus! {

/// Length of a data record.
pub const RECORD_LEN: usize = 278;

/// Length of the payload window of a data record.
pub const WINDOW_LEN: usize = 256;

/// First byte of every data record.
pub const RECORD_MARKER: u8 = 0x8D;

/// The byte that pads a payload to the full window.
pub const FILLER: u8 = 0x1A;

/// The payload padded with filler to the full window.
pub open spec fn padded(d: Seq<u8>) -> Seq<u8> {
    d + Seq::new((256 - d.len()) as nat, |i: int| 0x1Au8)
}

/// The first `k` bytes of a window, less the filler at their end.
pub open spec fn payload_len(w: Seq<u8>, k: int) -> int
    decreases k,
{
    if k <= 0 {
        0
    } else if w[k - 1] != 0x1Au8 {
        k
    } else {
        payload_len(w, k - 1)
    }
}

/// The payload window of a record.
pub open spec fn window(rec: Seq<u8>) -> Seq<u8> {
    rec.subrange(1, 257)
}

/// The payload of a record: its window up to the last byte that is not
/// filler; a window of filler alone holds no payload.
pub open spec fn payload_of(rec: Seq<u8>) -> Seq<u8> {
    rec.subrange(1, 1 + payload_len(window(rec), 256))
}

/// The bytes of a record that its checksum covers: window and checksum.
pub open spec fn record_summed(rec: Seq<u8>) -> Seq<u8> {
    rec.subrange(1, 258)
}

/// The 278 bytes of a data record: marker, window, checksum, zeros.
pub open spec fn record_bytes(d: Seq<u8>, checksum: u8) -> Seq<u8> {
    seq![0x8Du8] + padded(d) + seq![checksum] + Seq::new(20, |i: int| 0u8)
}

/// The first failure of a header record, if any.
pub open spec fn header_check(b: Seq<u8>, ignore: bool) -> Option<Error> {
    if b.len() != 38 {
        Some(Error::InvalidBufferLength)
    } else if file_type_of(b[0]) != Some(FileType::Text) {
        Some(Error::InvalidFileType)
    } else if !ignore && !sums_to_zero(b.subrange(1, 18)) {
        Some(Error::InvalidChecksum(0))
    } else {
        None
    }
}

/// The first failure of the data record at index `i`, if any.
pub open spec fn record_check(b: Seq<u8>, i: int, ignore: bool) -> Option<Error> {
    if b.len() != 278 {
        Some(Error::InvalidBufferLength)
    } else if b[0] != 0x8D {
        Some(Error::MissingStartByte(0x8D))
    } else if !ignore && !sums_to_zero(record_summed(b)) {
        Some(Error::InvalidChecksum(i as usize))
    } else {
        None
    }
}

/// The content of the data records among the first `n` buffers (the first
/// buffer is the header); the first failing record stops.
pub open spec fn records_upto(bufs: Seq<Seq<u8>>, n: int, ignore: bool) -> Result<Seq<u8>, Error>
    decreases n,
{
    if n <= 1 {
        Ok(Seq::empty())
    } else {
        match records_upto(bufs, n - 1, ignore) {
            Err(e) => Err(e),
            Ok(c) => match record_check(bufs[n - 1], n - 1, ignore) {
                Some(e) => Err(e),
                None => Ok(c + payload_of(bufs[n - 1])),
            },
        }
    }
}

/// A text file read from its records: the name of the header and the
/// payloads of the data records in order.
pub open spec fn parse_text_spec(bufs: Seq<Seq<u8>>, ignore: bool) -> Result<(Seq<char>, Seq<u8>), Error> {
    if bufs.len() == 0 {
        Err(Error::InvalidBufferLength)
    } else {
        match header_check(bufs[0], ignore) {
            Some(e) => Err(e),
            None => match records_upto(bufs, bufs.len() as int, ignore) {
                Err(e) => Err(e),
                Ok(c) => Ok((latin1(trimmed_name(bufs[0].subrange(1, 7))), c)),
            },
        }
    }
}

/// A file recovered in text mode.
pub struct TextFile {
    pub name: String,
    pub data: Vec<u8>,
}

/// What a result of a text file holds.
pub open spec fn text_result(r: Result<TextFile, Error>) -> Result<(Seq<char>, Seq<u8>), Error> {
    match r {
        Ok(f) => Ok((f.name@, f.data@)),
        Err(e) => Err(e),
    }
}

/// A data record: its payload and its checksum.
pub struct TextSection {
    /// The payload, padded with filler or not; read by `parse`, without its
    /// trailing filler.
    pub data: Vec<u8>,
    /// As built by `new`, the byte to store, which balances the padded
    /// window; as read by `parse`, the wrapping sum of the window and the
    /// stored byte, which is zero exactly when the record is intact.
    pub checksum: u8,
}

impl TextSection {
    /// A record for a payload of at most 256 bytes, with the checksum byte
    /// that makes the padded window and the checksum sum to zero mod 256:
    /// (0x100 - sum) mod 256, as the rule "valid when the bytes sum to zero"
    /// asks (0xFF - sum would leave a sum of 0xFF).
    pub fn new(data: Vec<u8>) -> (r: TextSection)
        requires
            data@.len() <= 256,
        ensures
            r.data@ == data@,
            r.checksum as int == balancing_byte(padded(data@)),
            r.checksum_ok(),
    {
        let mut sum = checksum(data.as_slice());
        let mut i: usize = data.len();
        let ghost w = padded(data@);
        proof {
            assert(w.subrange(0, data@.len() as int) =~= data@);
        }
        while i < WINDOW_LEN
            invariant
                data@.len() <= i <= 256,
                w == padded(data@),
                w.len() == 256,
                sum as int == byte_sum(w.subrange(0, i as int)) % 256,
            decreases 256 - i,
        {
            assert(w.subrange(0, i as int + 1).drop_last() == w.subrange(0, i as int));
            sum = sum.wrapping_add(FILLER);
            i += 1;
        }
        assert(w.subrange(0, 256) == w);
        let checksum = 0u8.wrapping_sub(sum);
        proof {
            lemma_checksum_law(seq![0u8], 0, 1, w);
        }
        TextSection { data, checksum }
    }

    /// Read as a record to store, as `new` builds it: the padded window and
    /// the checksum byte sum to zero mod 256.
    pub open spec fn checksum_ok(self) -> bool {
        sums_to_zero(padded(self.data@).push(self.checksum))
    }

    /// Cuts data into records of 256 bytes each, the last one padded with
    /// filler.
    pub fn new_multiple(data: &[u8]) -> (r: Vec<TextSection>)
        ensures
            r@.len() == (data@.len() + 255) / 256,
            forall|k: int| 0 <= k < r@.len() ==> {
                &&& #[trigger] r@[k].data@ == padded(chunk(data@, k))
                &&& r@[k].checksum_ok()
                &&& r@[k].checksum as int == balancing_byte(padded(chunk(data@, k)))
            },
    {
        let n = data.len();
        let count: usize = n / 256 + if n % 256 == 0 { 0 } else { 1 };
        assert(count as int == (n as int + 255) / 256);
        let mut out: Vec<TextSection> = Vec::new();
        let mut k: usize = 0;
        while k < count
            invariant
                n == data@.len(),
                count as int == (n as int + 255) / 256,
                k <= count,
                out@.len() == k,
                forall|t: int| 0 <= t < out@.len() ==> {
                    &&& #[trigger] out@[t].data@ == padded(chunk(data@, t))
                    &&& out@[t].checksum_ok()
                    &&& out@[t].checksum as int == balancing_byte(padded(chunk(data@, t)))
                },
            decreases count - k,
        {
            assert(256 * (k as int) < n) by {
                vstd::arithmetic::div_mod::lemma_fundamental_div_mod(n as int + 255, 256);
                assert(256 * (k as int + 1) <= 256 * ((n as int + 255) / 256)) by (nonlinear_arith)
                    requires k as int + 1 <= (n as int + 255) / 256;
            }
            let start: usize = 256 * k;
            let end: usize = if n - start > WINDOW_LEN { start + WINDOW_LEN } else { n };
            let ghost part = chunk(data@, k as int);
            assert(part =~= data@.subrange(start as int, end as int));
            let mut window: Vec<u8> = Vec::new();
            let mut i: usize = start;
            while i < end
                invariant
                    start <= i <= end,
                    end <= data@.len(),
                    window@ == data@.subrange(start as int, i as int),
                decreases end - i,
            {
                window.push(data[i]);
                i += 1;
                assert(window@ =~= data@.subrange(start as int, i as int));
            }
            while window.len() < WINDOW_LEN
                invariant
                    part.len() <= window@.len() <= 256,
                    window@ == part + Seq::new((window@.len() - part.len()) as nat, |t: int| 0x1Au8),
                decreases 256 - window@.len(),
            {
                window.push(FILLER);
                assert(window@ =~= part + Seq::new((window@.len() - part.len()) as nat, |t: int| 0x1Au8));
            }
            assert(window@ =~= padded(part));
            assert(padded(padded(part)) =~= padded(part));
            out.push(TextSection::new(window));
            k += 1;
        }
        out
    }

    /// The 278 bytes of this record, its payload padded with filler.
    pub fn encode(&self) -> (r: [u8; 278])
        requires
            self.data@.len() <= 256,
        ensures
            r@ == record_bytes(self.data@, self.checksum),
    {
        let mut out = [0u8; 278];
        out[0] = RECORD_MARKER;
        let mut i: usize = 0;
        while i < WINDOW_LEN
            invariant
                i <= 256,
                self.data@.len() <= 256,
                out@.len() == 278,
                out@[0] == 0x8Du8,
                forall|t: int| 0 <= t < i ==> #[trigger] out@[1 + t] == padded(self.data@)[t],
                forall|t: int| 257 <= t < 278 ==> #[trigger] out@[t] == 0,
            decreases 256 - i,
        {
            out[1 + i] = if i < self.data.len() { self.data[i] } else { FILLER };
            i += 1;
        }
        let ghost before = out@;
        out[257] = self.checksum;
        proof {
            let rb = record_bytes(self.data@, self.checksum);
            assert(out@ == before.update(257, self.checksum));
            assert forall|t: int| 0 <= t < 278 implies out@[t] == rb[t] by {
                if 1 <= t < 257 {
                    assert(before[1 + (t - 1)] == padded(self.data@)[t - 1]);
                }
            }
            assert(out@ =~= rb);
        }
        out
    }

    /// Reads a data record: 278 bytes, else `InvalidBufferLength`; the
    /// marker first, else `MissingStartByte`. The payload loses its filler;
    /// the checksum field is the wrapping sum of bytes 1 to 257, zero exactly
    /// when the record is intact.
    pub fn parse(bin: &[u8]) -> (r: Result<TextSection, Error>)
        ensures
            bin@.len() != 278 ==> r == Err::<TextSection, Error>(Error::InvalidBufferLength),
            bin@.len() == 278 && bin@[0] != 0x8D ==> r == Err::<TextSection, Error>(Error::MissingStartByte(0x8D)),
            bin@.len() == 278 && bin@[0] == 0x8D ==> r is Ok && r->Ok_0.data@ == payload_of(bin@)
                && r->Ok_0.checksum as int == byte_sum(record_summed(bin@)) % 256,
    {
        if bin.len() != RECORD_LEN {
            return Err(Error::InvalidBufferLength);
        }
        if bin[0] != RECORD_MARKER {
            return Err(Error::MissingStartByte(RECORD_MARKER));
        }
        let ghost w = window(bin@);
        let mut k: usize = WINDOW_LEN;
        while k > 0 && bin[k] == FILLER
            invariant
                k <= 256,
                bin@.len() == 278,
                w == window(bin@),
                payload_len(w, 256) == payload_len(w, k as int),
            decreases k,
        {
            assert(w[k - 1] == bin@[k as int]);
            k -= 1;
        }
        proof {
            if k > 0 {
                assert(w[k - 1] == bin@[k as int]);
            }
        }
        let mut data: Vec<u8> = Vec::new();
        let mut i: usize = 1;
        while i < 1 + k
            invariant
                1 <= i <= 1 + k,
                k <= 256,
                bin@.len() == 278,
                data@ == bin@.subrange(1, i as int),
            decreases 1 + k - i,
        {
            data.push(bin[i]);
            i += 1;
            assert(data@ =~= bin@.subrange(1, i as int));
        }
        let checksum = checksum(&bin[1..258]);
        Ok(TextSection { data, checksum })
    }
}

proof fn lemma_records_error_stays(bufs: Seq<Seq<u8>>, n: int, m: int, ignore: bool)
    requires
        1 <= n <= m,
        records_upto(bufs, n, ignore) is Err,
    ensures
        records_upto(bufs, m, ignore) == records_upto(bufs, n, ignore),
    decreases m - n,
{
    if m > n {
        lemma_records_error_stays(bufs, n, m - 1, ignore);
    }
}

/// The `k`-th chunk of 256 bytes of `data`; the last one holds the rest.
pub open spec fn chunk(data: Seq<u8>, k: int) -> Seq<u8> {
    data.subrange(256 * k, if 256 * (k + 1) < data.len() { 256 * (k + 1) } else { data.len() as int })
}

/// The records of a text file: its header, then one data record per chunk,
/// each with the checksum byte that balances it.
pub open spec fn text_records(name: Seq<u8>, misc: Seq<u8>, data: Seq<u8>) -> Seq<Seq<u8>> {
    seq![header_bytes(FileType::Text, name, misc, balancing_byte(name + misc) as u8)] + Seq::new(
        ((data.len() + 255) / 256) as nat,
        |k: int| record_bytes(chunk(data, k), balancing_byte(padded(chunk(data, k))) as u8),
    )
}

proof fn lemma_payload_of_record(d: Seq<u8>, c: u8, k: int)
    requires
        d.len() <= 256,
        d.len() == 0 || d.last() != 0x1Au8,
        d.len() <= k <= 256,
    ensures
        payload_len(window(record_bytes(d, c)), k) == d.len(),
    decreases k,
{
    let w = window(record_bytes(d, c));
    assert(w =~= padded(d));
    if k > d.len() {
        lemma_payload_of_record(d, c, k - 1);
    } else if d.len() > 0 {
        assert(w[k - 1] == d.last());
    }
}

proof fn lemma_record_reads_back(d: Seq<u8>, i: int, ignore: bool)
    requires
        d.len() <= 256,
        d.len() == 0 || d.last() != 0x1Au8,
    ensures
        ({
            let rec = record_bytes(d, balancing_byte(padded(d)) as u8);
            &&& record_check(rec, i, ignore) is None
            &&& payload_of(rec) == d
        }),
{
    let c = balancing_byte(padded(d));
    let rec = record_bytes(d, c as u8);
    lemma_checksum_law(seq![0u8], 0, 1, padded(d));
    assert(record_summed(rec) =~= padded(d).push(c as u8));
    lemma_payload_of_record(d, c as u8, 256);
    assert(payload_of(rec) =~= d);
}

proof fn lemma_records_read_back(name: Seq<u8>, misc: Seq<u8>, data: Seq<u8>, n: int, ignore: bool)
    requires
        0 <= n <= (data.len() + 255) / 256,
        forall|k: int| 0 <= k < (data.len() + 255) / 256 ==> #[trigger] chunk(data, k).last() != 0x1Au8,
    ensures
        records_upto(text_records(name, misc, data), n + 1, ignore) == Ok::<Seq<u8>, Error>(
            data.subrange(0, if 256 * n < data.len() { 256 * n } else { data.len() as int })),
    decreases n,
{
    let bufs = text_records(name, misc, data);
    if n == 0 {
        assert(data.subrange(0, 0) =~= Seq::<u8>::empty());
    } else {
        lemma_records_read_back(name, misc, data, n - 1, ignore);
        let k = n - 1;
        let d = chunk(data, k);
        assert(256 * k < data.len()) by {
            vstd::arithmetic::div_mod::lemma_fundamental_div_mod(data.len() as int + 255, 256);
            assert(256 * (k + 1) <= 256 * ((data.len() as int + 255) / 256)) by (nonlinear_arith)
                requires k + 1 <= (data.len() as int + 255) / 256;
        }
        assert(d.len() > 0);
        assert(chunk(data, k).last() != 0x1Au8);
        assert(bufs[n] == record_bytes(d, balancing_byte(padded(d)) as u8));
        lemma_record_reads_back(d, n, ignore);
        let before = data.subrange(0, 256 * k);
        let end = if 256 * n < data.len() { 256 * n } else { data.len() as int };
        assert(before + d =~= data.subrange(0, end));
    }
}

/// The records that make up a text file read back as that file, with or
/// without checksums, when no 256-byte chunk of its data ends with the
/// filler byte (a window's trailing filler is not payload).
pub proof fn lemma_text_round_trip(name: Seq<u8>, misc: Seq<u8>, data: Seq<u8>, ignore: bool)
    requires
        name.len() == 6,
        misc.len() == 10,
        forall|k: int| 0 <= k < (data.len() + 255) / 256 ==> #[trigger] chunk(data, k).last() != 0x1Au8,
    ensures
        parse_text_spec(text_records(name, misc, data), ignore) == Ok::<(Seq<char>, Seq<u8>), Error>(
            (latin1(trimmed_name(name)), data)),
{
    let bufs = text_records(name, misc, data);
    let c = balancing_byte(name + misc);
    let h = bufs[0];
    lemma_checksum_law(seq![0u8], 0, 1, name + misc);
    assert(h.subrange(1, 18) =~= header_summed(name, misc, c as u8));
    assert(h.subrange(1, 7) =~= name);
    assert(header_check(h, ignore) is None);
    let n = (data.len() + 255) / 256;
    lemma_records_read_back(name, misc, data, n as int, ignore);
    assert(256 * n >= data.len()) by {
        vstd::arithmetic::div_mod::lemma_fundamental_div_mod(data.len() as int + 255, 256);
    }
    assert(data.subrange(0, data.len() as int) =~= data);
}

/// A failure that is not a checksum failure.
pub open spec fn structural(r: Result<Seq<u8>, Error>) -> bool {
    r is Err && !(r->Err_0 is InvalidChecksum)
}

proof fn lemma_records_ignore(bufs: Seq<Seq<u8>>, n: int)
    ensures
        !(records_upto(bufs, n, true) is Err && records_upto(bufs, n, true)->Err_0 is InvalidChecksum),
        records_upto(bufs, n, false) is Ok ==> records_upto(bufs, n, true) == records_upto(bufs, n, false),
        structural(records_upto(bufs, n, false)) ==> records_upto(bufs, n, true) == records_upto(bufs, n, false),
        records_upto(bufs, n, true) is Ok ==> records_upto(bufs, n, false) == records_upto(bufs, n, true)
            || (records_upto(bufs, n, false) is Err && records_upto(bufs, n, false)->Err_0 is InvalidChecksum),
    decreases n,
{
    if n > 1 {
        lemma_records_ignore(bufs, n - 1);
    }
}

/// Ignoring checksums drops `InvalidChecksum` and nothing else: with the
/// option that error never comes; a failure of length, file type or marker
/// comes with the option as without it; a file that reads without the option
/// reads the same with it; and a file that reads with the option reads the
/// same without it, or fails there on a checksum.
pub proof fn lemma_ignore_checksums(bufs: Seq<Seq<u8>>)
    ensures
        !(parse_text_spec(bufs, true) is Err && parse_text_spec(bufs, true)->Err_0 is InvalidChecksum),
        parse_text_spec(bufs, false) is Err && !(parse_text_spec(bufs, false)->Err_0 is InvalidChecksum)
            ==> parse_text_spec(bufs, true) == parse_text_spec(bufs, false),
        parse_text_spec(bufs, false) is Ok ==> parse_text_spec(bufs, true) == parse_text_spec(bufs, false),
        parse_text_spec(bufs, true) is Ok ==> parse_text_spec(bufs, false) == parse_text_spec(bufs, true)
            || (parse_text_spec(bufs, false) is Err && parse_text_spec(bufs, false)->Err_0 is InvalidChecksum),
{
    lemma_records_ignore(bufs, bufs.len() as int);
}

/// Two lists of records of the same lengths that agree on every byte but
/// the last of each record.
pub open spec fn agree_but_last(a: Seq<Seq<u8>>, b: Seq<Seq<u8>>) -> bool {
    &&& a.len() == b.len()
    &&& forall|k: int| 0 <= k < a.len() ==> (#[trigger] a[k]).len() == b[k].len()
    &&& forall|k: int, i: int| 0 <= k < a.len() && 0 <= i < a[k].len() - 1 ==> #[trigger] a[k][i] == b[k][i]
}

proof fn lemma_payload_len_bounds(w: Seq<u8>, k: int)
    requires
        0 <= k,
    ensures
        0 <= payload_len(w, k) <= k,
    decreases k,
{
    if k > 0 {
        lemma_payload_len_bounds(w, k - 1);
    }
}

proof fn lemma_records_ignore_last(a: Seq<Seq<u8>>, b: Seq<Seq<u8>>, n: int, ignore: bool)
    requires
        agree_but_last(a, b),
        n <= a.len(),
    ensures
        records_upto(a, n, ignore) == records_upto(b, n, ignore),
    decreases n,
{
    if n > 1 {
        lemma_records_ignore_last(a, b, n - 1, ignore);
        let x = a[n - 1];
        let y = b[n - 1];
        assert(x.len() == y.len());
        if x.len() == 278 {
            assert(x[0] == y[0]);
            assert(record_summed(x) =~= record_summed(y)) by {
                assert forall|i: int| 0 <= i < 257 implies #[trigger] record_summed(x)[i] == record_summed(y)[i] by {
                    assert(x[i + 1] == y[i + 1]);
                }
            }
            assert(window(x) =~= window(y)) by {
                assert forall|i: int| 0 <= i < 256 implies #[trigger] window(x)[i] == window(y)[i] by {
                    assert(x[i + 1] == y[i + 1]);
                }
            }
            lemma_payload_len_bounds(window(x), 256);
            assert(payload_of(x) =~= payload_of(y)) by {
                assert forall|i: int| 0 <= i < payload_of(x).len() implies #[trigger] payload_of(x)[i] == payload_of(y)[i] by {
                    assert(x[i + 1] == y[i + 1]);
                }
            }
        }
    }
}

/// Reading a text file never looks at the last byte of a record: the
/// header ends with unused bytes after its checksum, and so does every data
/// record. Records that differ only there read alike.
pub proof fn lemma_parse_ignores_last_byte(a: Seq<Seq<u8>>, b: Seq<Seq<u8>>, ignore: bool)
    requires
        agree_but_last(a, b),
    ensures
        parse_text_spec(a, ignore) == parse_text_spec(b, ignore),
{
    lemma_records_ignore_last(a, b, a.len() as int, ignore);
    if a.len() > 0 && a[0].len() == 38 {
        let x = a[0];
        let y = b[0];
        assert(x[0] == y[0]);
        assert(x.subrange(1, 18) =~= y.subrange(1, 18)) by {
            assert forall|i: int| 0 <= i < 17 implies #[trigger] x.subrange(1, 18)[i] == y.subrange(1, 18)[i] by {
                assert(x[i + 1] == y[i + 1]);
            }
        }
        assert(x.subrange(1, 7) =~= y.subrange(1, 7)) by {
            assert forall|i: int| 0 <= i < 6 implies #[trigger] x.subrange(1, 7)[i] == y.subrange(1, 7)[i] by {
                assert(x[i + 1] == y[i + 1]);
            }
        }
    }
}

/// The buffers as byte strings.
pub open spec fn buffers_view(bufs: Seq<Vec<u8>>) -> Seq<Seq<u8>> {
    bufs.map_values(|b: Vec<u8>| b@)
}

/// Reads a text file from its records: a header, then data records. Every
/// record must have its length and its leading byte; with
/// `ignore_checksums` a record whose checksum fails is still taken.
pub fn parse_text(buffers: &[Vec<u8>], ignore_checksums: bool) -> (r: Result<TextFile, Error>)
    ensures
        text_result(r) == parse_text_spec(buffers_view(buffers@), ignore_checksums),
{
    let ghost bufs = buffers_view(buffers@);
    if buffers.len() == 0 {
        return Err(Error::InvalidBufferLength);
    }
    assert(bufs[0] == buffers@[0]@);
    let header = Header::parse(buffers[0].as_slice())?;
    if header.file_type != FileType::Text {
        return Err(Error::InvalidFileType);
    }
    if !ignore_checksums && header.checksum != 0 {
        return Err(Error::InvalidChecksum(0));
    }
    assert(header_check(bufs[0], ignore_checksums) is None);
    let name = header.name();
    assert(header.name@ == bufs[0].subrange(1, 7));
    let mut data: Vec<u8> = Vec::new();
    let mut i: usize = 1;
    while i < buffers.len()
        invariant
            1 <= i <= buffers@.len(),
            bufs == buffers_view(buffers@),
            bufs.len() == buffers@.len(),
            header_check(bufs[0], ignore_checksums) is None,
            name@ == latin1(trimmed_name(bufs[0].subrange(1, 7))),
            records_upto(bufs, i as int, ignore_checksums) == Ok::<Seq<u8>, Error>(data@),
        decreases buffers.len() - i,
    {
        let rec = &buffers[i];
        assert(bufs[i as int] == rec@);
        let section = match TextSection::parse(rec.as_slice()) {
            Ok(s) => s,
            Err(e) => {
                proof {
                    lemma_records_error_stays(bufs, i + 1, bufs.len() as int, ignore_checksums);
                }
                return Err(e);
            },
        };
        if !ignore_checksums && section.checksum != 0 {
            proof {
                lemma_records_error_stays(bufs, i + 1, bufs.len() as int, ignore_checksums);
            }
            return Err(Error::InvalidChecksum(i));
        }
        let ghost before = data@;
        let mut j: usize = 0;
        while j < section.data.len()
            invariant
                j <= section.data@.len(),
                data@ == before + section.data@.subrange(0, j as int),
            decreases section.data.len() - j,
        {
            data.push(section.data[j]);
            j += 1;
            assert(data@ =~= before + section.data@.subrange(0, j as int));
        }
        assert(section.data@.subrange(0, j as int) =~= section.data@);
        i += 1;
    }
    Ok(TextFile { name, data })
}

} // verus!
