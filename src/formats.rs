use crate::error::Error;
use vstd::prelude::*;

verus! {

/// Length of a header record.
pub const HEADER_LEN: usize = 38;

/// The pad byte of a file name.
pub const SPACE: u8 = 0x20;

/// The kind of file that a header announces.
#[derive(Debug, Clone, Copy, PartialEq, Eq, Structural)]
pub enum FileType {
    Text,
    Compiled,
    Basic,
}

/// The byte that stands for a file type.
pub open spec fn file_type_byte(t: FileType) -> u8 {
    match t {
        FileType::Text => 0x9C,
        FileType::Compiled => 0xD0,
        FileType::Basic => 0xD3,
    }
}

/// The file type that a byte stands for, if any.
pub open spec fn file_type_of(b: u8) -> Option<FileType> {
    if b == 0x9C {
        Some(FileType::Text)
    } else if b == 0xD0 {
        Some(FileType::Compiled)
    } else if b == 0xD3 {
        Some(FileType::Basic)
    } else {
        None
    }
}

impl FileType {
    /// Reads a file type byte.
    pub fn from_u8(byte: u8) -> (r: Result<FileType, Error>)
        ensures
            match file_type_of(byte) {
                Some(t) => r == Ok::<FileType, Error>(t),
                None => r == Err::<FileType, Error>(Error::InvalidFileType),
            },
    {
        match byte {
            0x9C => Ok(FileType::Text),
            0xD0 => Ok(FileType::Compiled),
            0xD3 => Ok(FileType::Basic),
            _ => Err(Error::InvalidFileType),
        }
    }

    /// The byte of this file type.
    pub fn to_u8(self) -> (r: u8)
        ensures
            r == file_type_byte(self),
            file_type_of(r) == Some(self),
    {
        match self {
            FileType::Text => 0x9C,
            FileType::Compiled => 0xD0,
            FileType::Basic => 0xD3,
        }
    }
}

/// The sum of a byte string, as an integer.
pub open spec fn byte_sum(s: Seq<u8>) -> int
    decreases s.len(),
{
    if s.len() == 0 {
        0
    } else {
        byte_sum(s.drop_last()) + s.last()
    }
}

/// Bytes are valid under the checksum rule when they sum to zero mod 256.
pub open spec fn sums_to_zero(s: Seq<u8>) -> bool {
    byte_sum(s) % 256 == 0
}

/// The byte that makes `s` followed by it sum to zero mod 256.
pub open spec fn balancing_byte(s: Seq<u8>) -> int {
    (256 - byte_sum(s) % 256) % 256
}

/// The wrapping sum of bytes.
pub fn checksum(data: &[u8]) -> (r: u8)
    ensures
        r as int == byte_sum(data@) % 256,
{
    let mut acc: u8 = 0;
    let mut i: usize = 0;
    while i < data.len()
        invariant
            i <= data@.len(),
            acc as int == byte_sum(data@.subrange(0, i as int)) % 256,
        decreases data.len() - i,
    {
        assert(data@.subrange(0, i as int + 1).drop_last() == data@.subrange(0, i as int));
        acc = acc.wrapping_add(data[i]);
        i += 1;
    }
    assert(data@.subrange(0, i as int) == data@);
    acc
}

proof fn lemma_byte_sum_update(s: Seq<u8>, k: int, v: u8)
    requires
        0 <= k < s.len(),
    ensures
        byte_sum(s.update(k, v)) == byte_sum(s) - s[k] + v,
    decreases s.len(),
{
    let t = s.update(k, v);
    if k == s.len() - 1 {
        assert(t.drop_last() =~= s.drop_last());
    } else {
        lemma_byte_sum_update(s.drop_last(), k, v);
        assert(t.drop_last() =~= s.drop_last().update(k, v));
    }
}

/// Checksum rule: bytes that sum to zero mod 256 stop doing so when any one
/// of them changes, and the balancing byte appended to any bytes makes them
/// sum to zero.
pub proof fn lemma_checksum_law(s: Seq<u8>, k: int, v: u8, t: Seq<u8>)
    requires
        0 <= k < s.len(),
        v != s[k],
    ensures
        sums_to_zero(s) ==> !sums_to_zero(s.update(k, v)),
        sums_to_zero(t.push(balancing_byte(t) as u8)),
{
    lemma_byte_sum_update(s, k, v);
    let b = balancing_byte(t);
    assert(0 <= b < 256);
    assert(t.push(b as u8).drop_last() =~= t);
    assert((byte_sum(t) + b) % 256 == 0) by {
        vstd::arithmetic::div_mod::lemma_add_mod_noop(byte_sum(t), b, 256);
        vstd::arithmetic::div_mod::lemma_mod_twice(256 - byte_sum(t) % 256, 256);
        vstd::arithmetic::div_mod::lemma_add_mod_noop(byte_sum(t) % 256, 256 - byte_sum(t) % 256, 256);
    }
}

/// A header record: file type, name padded with spaces, ten further bytes
/// and a checksum.
#[derive(Debug, Clone, Copy, PartialEq, Eq)]
pub struct Header {
    pub file_type: FileType,
    pub name: [u8; 6],
    pub misc: [u8; 10],
    /// As built by `new`, the byte to store, which balances name and misc;
    /// as read by `parse`, the wrapping sum of name, misc and the stored
    /// byte, which is zero exactly when the header is intact.
    pub checksum: u8,
}

/// The bytes that the checksum of a header covers.
pub open spec fn header_summed(name: Seq<u8>, misc: Seq<u8>, checksum: u8) -> Seq<u8> {
    (name + misc).push(checksum)
}

/// The 38 bytes of a header record: type, name, misc, checksum, zeros.
pub open spec fn header_bytes(t: FileType, name: Seq<u8>, misc: Seq<u8>, checksum: u8) -> Seq<u8> {
    seq![file_type_byte(t)] + name + misc + seq![checksum] + Seq::new(20, |i: int| 0u8)
}

/// The name bytes up to the first space.
pub open spec fn trimmed_name(name: Seq<u8>) -> Seq<u8>
    decreases name.len(),
{
    if name.len() == 0 {
        Seq::empty()
    } else if name[0] == SPACE {
        Seq::empty()
    } else {
        seq![name[0]] + trimmed_name(name.drop_first())
    }
}

/// Each byte read as the character of the same code point.
pub open spec fn latin1(s: Seq<u8>) -> Seq<char> {
    s.map_values(|b: u8| b as char)
}

/// Relies on `String::push`: the character is appended.
#[verifier::external_body]
fn push_char(s: &mut String, c: char)
    ensures
        final(s)@ == old(s)@.push(c),
{
    s.push(c)
}

impl Header {
    /// A header for a file, with the checksum byte that makes name, misc
    /// and checksum sum to zero mod 256: (0x100 - sum) mod 256, the byte
    /// that the rule "valid when the bytes sum to zero" asks for (0xFF - sum
    /// would leave a sum of 0xFF).
    pub fn new(file_type: FileType, name: [u8; 6], misc: [u8; 10]) -> (r: Header)
        ensures
            r.file_type == file_type,
            r.name == name,
            r.misc == misc,
            r.checksum as int == balancing_byte(name@ + misc@),
            r.checksum_ok(),
    {
        let mut sum: u8 = 0;
        let mut i: usize = 0;
        let ghost all = name@ + misc@;
        while i < 16
            invariant
                i <= 16,
                all == name@ + misc@,
                all.len() == 16,
                sum as int == byte_sum(all.subrange(0, i as int)) % 256,
            decreases 16 - i,
        {
            let b = if i < 6 { name[i] } else { misc[i - 6] };
            assert(b == all[i as int]);
            assert(all.subrange(0, i as int + 1).drop_last() == all.subrange(0, i as int));
            sum = sum.wrapping_add(b);
            i += 1;
        }
        assert(all.subrange(0, 16) == all);
        let checksum = 0u8.wrapping_sub(sum);
        proof {
            lemma_checksum_law(seq![0u8], 0, 1, all);
            assert(header_summed(name@, misc@, checksum) == all.push(balancing_byte(all) as u8));
        }
        Header { file_type, name, misc, checksum }
    }

    /// Read as a header to store, as `new` builds it: name, misc and the
    /// checksum byte sum to zero mod 256.
    pub open spec fn checksum_ok(self) -> bool {
        sums_to_zero(header_summed(self.name@, self.misc@, self.checksum))
    }

    /// The 38 bytes of this header as a record.
    pub fn encode(&self) -> (r: [u8; 38])
        ensures
            r@ == header_bytes(self.file_type, self.name@, self.misc@, self.checksum),
    {
        let mut out = [0u8; 38];
        out[0] = self.file_type.to_u8();
        let mut i: usize = 0;
        while i < 16
            invariant
                i <= 16,
                out@.len() == 38,
                out@[0] == file_type_byte(self.file_type),
                forall|t: int| 0 <= t < i ==> #[trigger] out@[1 + t] == (self.name@ + self.misc@)[t],
                forall|t: int| 17 <= t < 38 ==> #[trigger] out@[t] == 0,
            decreases 16 - i,
        {
            out[1 + i] = if i < 6 { self.name[i] } else { self.misc[i - 6] };
            i += 1;
        }
        let ghost before = out@;
        out[17] = self.checksum;
        proof {
            let hb = header_bytes(self.file_type, self.name@, self.misc@, self.checksum);
            assert(out@ == before.update(17, self.checksum));
            assert forall|t: int| 0 <= t < 38 implies out@[t] == hb[t] by {
                if 1 <= t < 17 {
                    assert(before[1 + (t - 1)] == (self.name@ + self.misc@)[t - 1]);
                }
            }
            assert(out@ =~= hb);
        }
        out
    }

    /// Reads a header record: 38 bytes, else `InvalidBufferLength`; a known
    /// file type byte, else `InvalidFileType`. The checksum field is the
    /// wrapping sum of bytes 1 to 17, zero exactly when the header is intact.
    pub fn parse(data: &[u8]) -> (r: Result<Header, Error>)
        ensures
            data@.len() != 38 ==> r == Err::<Header, Error>(Error::InvalidBufferLength),
            data@.len() == 38 && file_type_of(data@[0]) is None ==> r == Err::<Header, Error>(Error::InvalidFileType),
            data@.len() == 38 && file_type_of(data@[0]) is Some ==> r is Ok && ({
                let h = r->Ok_0;
                &&& Some(h.file_type) == file_type_of(data@[0])
                &&& h.name@ == data@.subrange(1, 7)
                &&& h.misc@ == data@.subrange(7, 17)
                &&& h.checksum as int == byte_sum(data@.subrange(1, 18)) % 256
            }),
    {
        if data.len() != HEADER_LEN {
            return Err(Error::InvalidBufferLength);
        }
        let file_type = FileType::from_u8(data[0])?;
        let mut name = [0u8; 6];
        let mut misc = [0u8; 10];
        let mut i: usize = 0;
        while i < 16
            invariant
                i <= 16,
                data@.len() == 38,
                name@.len() == 6,
                misc@.len() == 10,
                forall|t: int| 0 <= t < i && t < 6 ==> #[trigger] name@[t] == data@[1 + t],
                forall|t: int| 6 <= t < i ==> #[trigger] misc@[t - 6] == data@[1 + t],
            decreases 16 - i,
        {
            if i < 6 {
                name[i] = data[1 + i];
            } else {
                misc[i - 6] = data[1 + i];
            }
            i += 1;
        }
        assert(name@ =~= data@.subrange(1, 7));
        assert(misc@ =~= data@.subrange(7, 17)) by {
            assert forall|t: int| 0 <= t < 10 implies misc@[t] == data@.subrange(7, 17)[t] by {
                assert(misc@[(t + 6) - 6] == data@[1 + (t + 6)]);
            }
        }
        let checksum = checksum(&data[1..18]);
        Ok(Header { file_type, name, misc, checksum })
    }

    /// The name up to its first space, one character per byte.
    pub fn name(&self) -> (r: String)
        ensures
            r@ == latin1(trimmed_name(self.name@)),
    {
        let mut out = String::new();
        let mut i: usize = 0;
        assert(self.name@.subrange(0, 6) =~= self.name@);
        assert(Seq::<u8>::empty() + self.name@ =~= self.name@);
        assert(out@ =~= latin1(self.name@.subrange(0, 0)));
        while i < 6 && self.name[i] != SPACE
            invariant
                i <= 6,
                forall|t: int| 0 <= t < i ==> #[trigger] self.name@[t] != SPACE,
                trimmed_name(self.name@) == self.name@.subrange(0, i as int) + trimmed_name(self.name@.subrange(i as int, 6)),
                out@ == latin1(self.name@.subrange(0, i as int)),
            decreases 6 - i,
        {
            proof {
                let rest = self.name@.subrange(i as int, 6);
                assert(rest.drop_first() =~= self.name@.subrange(i + 1, 6));
                assert(self.name@.subrange(0, i + 1) =~= self.name@.subrange(0, i as int) + seq![rest[0]]);
            }
            push_char(&mut out, self.name[i] as char);
            i += 1;
            assert(out@ =~= latin1(self.name@.subrange(0, i as int)));
        }
        proof {
            let rest = self.name@.subrange(i as int, 6);
            assert(trimmed_name(rest) =~= Seq::<u8>::empty());
            assert(self.name@.subrange(0, i as int) + Seq::<u8>::empty() =~= self.name@.subrange(0, i as int));
        }
        out
    }
}

/// A file name as six bytes: the first six bytes of `text`, padded with
/// spaces.
pub fn name(text: &[u8]) -> (r: [u8; 6])
    ensures
        forall|i: int| 0 <= i < 6 ==> #[trigger] r@[i] == if i < text@.len() { text@[i] } else { SPACE },
{
    let mut out = [SPACE; 6];
    let end = if text.len() < 6 { text.len() } else { 6 };
    let mut i: usize = 0;
    while i < end
        invariant
            i <= end,
            end <= 6,
            end == if text@.len() < 6 { text@.len() as int } else { 6 },
            out@.len() == 6,
            forall|t: int| 0 <= t < 6 ==> #[trigger] out@[t] == if t < i { text@[t] } else { SPACE },
        decreases end - i,
    {
        out[i] = text[i];
        i += 1;
    }
    out
}

} // verus!
