use vstd::prelude::*;

verus! {

/// A cursor that reads bytes in order from a borrowed buffer.
pub struct BinParser<'a> {
    raw: &'a [u8],
    idx: usize,
}

impl<'a> BinParser<'a> {
    /// The bytes being read.
    pub closed spec fn bytes(&self) -> Seq<u8> {
        self.raw@
    }

    /// The index of the next byte to read.
    pub closed spec fn pos(&self) -> int {
        self.idx as int
    }

    /// A cursor at the start of `raw`.
    pub fn new(raw: &'a [u8]) -> (r: Self)
        ensures
            r.bytes() == raw@,
            r.pos() == 0,
    {
        BinParser { raw, idx: 0 }
    }

    /// The next byte; the cursor moves past it.
    pub fn read_u8(&mut self) -> (r: u8)
        requires
            old(self).pos() < old(self).bytes().len(),
        ensures
            r == old(self).bytes()[old(self).pos()],
            final(self).bytes() == old(self).bytes(),
            final(self).pos() == old(self).pos() + 1,
    {
        let val = self.raw[self.idx];
        self.idx += 1;
        val
    }

    /// The next `N` bytes; the cursor moves past them.
    pub fn read_array<const N: usize>(&mut self) -> (r: [u8; N])
        requires
            old(self).pos() + N <= old(self).bytes().len(),
        ensures
            r@ == old(self).bytes().subrange(old(self).pos(), old(self).pos() + N),
            final(self).bytes() == old(self).bytes(),
            final(self).pos() == old(self).pos() + N,
    {
        let len = self.raw.len();
        let mut out = [0u8; N];
        let mut i: usize = 0;
        while i < N
            invariant
                i <= N,
                len == self.raw@.len(),
                self.idx + N <= self.raw@.len(),
                out@.len() == N,
                forall|t: int| 0 <= t < i ==> #[trigger] out@[t] == self.raw@[self.idx + t],
            decreases N - i,
        {
            out[i] = self.raw[self.idx + i];
            i += 1;
        }
        assert(out@ =~= self.raw@.subrange(self.idx as int, self.idx + N));
        self.idx += N;
        out
    }

    /// Moves the cursor `n` bytes on without reading them.
    pub fn skip(&mut self, n: usize)
        requires
            old(self).pos() + n <= usize::MAX,
        ensures
            final(self).bytes() == old(self).bytes(),
            final(self).pos() == old(self).pos() + n,
    {
        self.idx += n;
    }

    /// The byte at `idx`, wherever the cursor stands.
    pub fn get(&self, idx: usize) -> (r: u8)
        requires
            idx < self.bytes().len(),
        ensures
            r == self.bytes()[idx as int],
    {
        self.raw[idx]
    }
}

} // verus!
