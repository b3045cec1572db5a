use vstd::prelude::*;
use crate::error::{NdnError, NdnResult};

verus! {

/// The byte sequence an in-place write leaves behind: bytes of `b` land at
/// `pos..pos + b.len()`, a gap between the old end and `pos` is zero-filled,
/// and everything else keeps its old value.
pub open spec fn stream_write(data: Seq<u8>, pos: nat, b: Seq<u8>) -> Seq<u8> {
    let new_len = if data.len() >= pos + b.len() {
        data.len()
    } else {
        pos + b.len()
    };
    Seq::new(
        new_len,
        |i: int|
            if pos <= i < pos + b.len() {
                b[i - pos]
            } else if i < data.len() {
                data[i]
            } else {
                0u8
            },
    )
}

/// Seekable in-memory byte medium: the concrete source/sink the tree
/// components read and write. A position may be moved anywhere; reads fail
/// with `IoError` when they would pass the end, writes extend the buffer
/// (zero-filling any gap a seek left behind).
pub struct MemStream {
    data: Vec<u8>,
    pos: usize,
}

impl View for MemStream {
    type V = Seq<u8>;

    closed spec fn view(&self) -> Seq<u8> {
        self.data@
    }
}

impl MemStream {
    /// Current position, as a specification value.
    pub closed spec fn spec_pos(&self) -> nat {
        self.pos as nat
    }

    /// A fresh, empty stream positioned at the start.
    pub fn new() -> (r: Self)
        ensures
            r@ == Seq::<u8>::empty(),
            r.spec_pos() == 0,
    {
        MemStream { data: Vec::new(), pos: 0 }
    }

    /// Wraps existing bytes, positioned at the start.
    pub fn from_vec(data: Vec<u8>) -> (r: Self)
        ensures
            r@ == data@,
            r.spec_pos() == 0,
    {
        MemStream { data, pos: 0 }
    }

    /// Hands the underlying bytes back.
    pub fn into_vec(self) -> (r: Vec<u8>)
        ensures
            r@ == self@,
    {
        self.data
    }

    /// Current position.
    pub fn pos(&self) -> (r: usize)
        ensures
            r == self.spec_pos(),
    {
        self.pos
    }

    /// Number of bytes held.
    pub fn len(&self) -> (r: usize)
        ensures
            r == self@.len(),
    {
        self.data.len()
    }

    /// Moves the position to an absolute offset. Fails with `IoError` only
    /// where the offset cannot be addressed on this machine.
    pub fn seek_to(&mut self, pos: u64) -> (r: NdnResult<()>)
        ensures
            final(self)@ == old(self)@,
            match r {
                Ok(()) => pos <= usize::MAX && final(self).spec_pos() == pos,
                Err(e) => e == NdnError::IoError && pos > usize::MAX && final(self).spec_pos()
                    == old(self).spec_pos(),
            },
    {
        if pos <= usize::MAX as u64 {
            self.pos = pos as usize;
            Ok(())
        } else {
            Err(NdnError::IoError)
        }
    }

    /// Reads exactly `n` bytes at the current position, advancing it; fails
    /// with `IoError`, moving nothing, where fewer than `n` bytes remain.
    pub fn read_exact(&mut self, n: usize) -> (r: NdnResult<Vec<u8>>)
        ensures
            final(self)@ == old(self)@,
            match r {
                Ok(v) => {
                    &&& old(self).spec_pos() + n <= old(self)@.len()
                    &&& v@ == old(self)@.subrange(
                        old(self).spec_pos() as int,
                        old(self).spec_pos() + n,
                    )
                    &&& v@.len() == n
                    &&& final(self).spec_pos() == old(self).spec_pos() + n
                },
                Err(e) => {
                    &&& e == NdnError::IoError
                    &&& old(self).spec_pos() + n > old(self)@.len()
                    &&& final(self).spec_pos() == old(self).spec_pos()
                },
            },
    {
        if self.pos > self.data.len() || n > self.data.len() - self.pos {
            return Err(NdnError::IoError);
        }
        let mut v: Vec<u8> = Vec::new();
        let mut i: usize = 0;
        while i < n
            invariant
                i <= n,
                self.pos + n <= self.data.len(),
                v@ == self.data@.subrange(self.pos as int, self.pos + i),
            decreases n - i,
        {
            v.push(self.data[self.pos + i]);
            assert(v@ =~= self.data@.subrange(self.pos as int, self.pos + i + 1));
            i += 1;
        }
        self.pos = self.pos + n;
        Ok(v)
    }

    /// Writes all of `buf` at the current position, advancing it; the buffer
    /// grows as needed and a gap left by a seek past the end is zero-filled.
    /// Fails with `IoError`, moving nothing, only where the write's end
    /// cannot be addressed on this machine.
    pub fn write_all(&mut self, buf: &[u8]) -> (r: NdnResult<()>)
        ensures
            match r {
                Ok(()) => {
                    &&& final(self)@ == stream_write(old(self)@, old(self).spec_pos(), buf@)
                    &&& final(self).spec_pos() == old(self).spec_pos() + buf@.len()
                },
                Err(e) => {
                    &&& e == NdnError::IoError
                    &&& old(self).spec_pos() + buf@.len() > usize::MAX
                    &&& final(self)@ == old(self)@
                    &&& final(self).spec_pos() == old(self).spec_pos()
                },
            },
    {
        if buf.len() > usize::MAX - self.pos {
            return Err(NdnError::IoError);
        }
        let ghost orig = self.data@;
        let ghost p = self.pos as nat;
        while self.data.len() < self.pos
            invariant
                self.pos == p,
                orig.len() <= self.data.len(),
                self.data.len() <= p || self.data.len() == orig.len(),
                self.data@ == Seq::new(
                    self.data@.len(),
                    |i: int| if i < orig.len() { orig[i] } else { 0u8 },
                ),
            decreases self.pos - self.data.len(),
        {
            self.data.push(0u8);
            assert(self.data@ =~= Seq::new(
                self.data@.len(),
                |i: int| if i < orig.len() { orig[i] } else { 0u8 },
            ));
        }
        let mut i: usize = 0;
        while i < buf.len()
            invariant
                i <= buf@.len(),
                self.pos == p,
                self.pos + buf@.len() <= usize::MAX,
                p <= self.data@.len(),
                orig.len() <= self.data@.len(),
                self.data@.len() == if orig.len() >= p + i {
                    orig.len() as int
                } else {
                    p + i
                },
                forall|j: int|
                    0 <= j < self.data@.len() ==> self.data@[j] == if p <= j < p + i {
                        buf@[j - p]
                    } else if j < orig.len() {
                        orig[j]
                    } else {
                        0u8
                    },
            decreases buf@.len() - i,
    {
            if self.pos + i < self.data.len() {
                self.data[self.pos + i] = buf[i];
            } else {
                self.data.push(buf[i]);
            }
            i += 1;
        }
        assert(self.data@ =~= stream_write(orig, p, buf@));
        self.pos = self.pos + buf.len();
        Ok(())
    }
}

} // verus!
