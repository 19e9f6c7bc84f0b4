//! The two stream capabilities the tee is built on, with their models, and
//! in-memory implementations of both.

use vstd::prelude::*;

verus! {

/// A readable, seekable byte stream.
///
/// Its model is the whole of its `content` and the offset `position` that the
/// next read starts from. A `reliable` source never fails.
pub trait Source {
    type Error;

    /// Every byte of the stream, from offset 0 to its end.
    spec fn content(&self) -> Seq<u8>;

    /// The offset that the next read starts from.
    spec fn position(&self) -> int;

    /// The source never fails: every read succeeds, and so does every seek to
    /// an offset within the stream.
    spec fn reliable(&self) -> bool;

    /// Reads up to `buf.len()` bytes at `position` into the front of `buf`.
    /// `Ok(0)` on a non-empty buffer means the end of the stream; an error
    /// means nothing was read.
    fn read(&mut self, buf: &mut [u8]) -> (r: Result<usize, Self::Error>)
        ensures
            final(self).content() == old(self).content(),
            final(self).reliable() == old(self).reliable(),
            old(self).reliable() ==> r is Ok,
            final(buf)@.len() == old(buf)@.len(),
            match r {
                Ok(n) => {
                    &&& n <= old(buf)@.len()
                    &&& final(self).position() == old(self).position() + n
                    &&& final(self).position() <= final(self).content().len()
                    &&& final(buf)@.subrange(0, n as int) == old(self).content().subrange(
                        old(self).position(),
                        final(self).position(),
                    )
                    &&& n == 0 ==> (old(buf)@.len() == 0 || old(self).position()
                        >= old(self).content().len())
                },
                Err(_) => final(self).position() == old(self).position(),
            },
    ;

    /// Moves `position` to `offset`, which fails where `offset` lies beyond the
    /// end of the stream; a failed seek leaves `position` where it was.
    fn seek_to(&mut self, offset: u64) -> (r: Result<(), Self::Error>)
        ensures
            final(self).content() == old(self).content(),
            final(self).reliable() == old(self).reliable(),
            old(self).reliable() && offset <= old(self).content().len() ==> r is Ok,
            r is Ok ==> offset <= old(self).content().len() && final(self).position() == offset,
            r is Err ==> final(self).position() == old(self).position(),
    ;
}

/// A write-only byte sink. Its model is the log of every byte it has accepted.
/// A `reliable` sink never fails.
pub trait Sink {
    type Error;

    /// Every byte accepted so far, in order.
    spec fn written(&self) -> Seq<u8>;

    /// The sink accepts every write.
    spec fn reliable(&self) -> bool;

    /// Appends all of `bytes`; where it fails, a prefix of `bytes` may have
    /// been accepted.
    fn write_all(&mut self, bytes: &[u8]) -> (r: Result<(), Self::Error>)
        ensures
            final(self).reliable() == old(self).reliable(),
            old(self).reliable() ==> r is Ok,
            r is Ok ==> final(self).written() == old(self).written() + bytes@,
            r is Err ==> appended_part_of(old(self).written(), final(self).written(), bytes@),
    ;
}

/// `after` is `before` followed by some prefix of `bytes`.
pub open spec fn appended_part_of(before: Seq<u8>, after: Seq<u8>, bytes: Seq<u8>) -> bool {
    &&& before.len() <= after.len() <= before.len() + bytes.len()
    &&& after == before + bytes.subrange(0, after.len() - before.len())
}

/// A source over bytes held in memory. Each read hands out at most
/// `chunk` bytes, so callers can be exercised against short reads.
pub struct MemSource {
    data: Vec<u8>,
    pos: usize,
    chunk: usize,
}

/// Error of a [`MemSource`]: a seek past the end of its bytes.
#[derive(Debug, Clone, Copy, PartialEq, Eq, Structural)]
pub enum MemError {
    PastEnd,
}

impl MemSource {
    #[verifier::type_invariant]
    spec fn inv(&self) -> bool {
        self.pos <= self.data.len() && self.chunk > 0
    }

    /// A source over `data`, at offset 0, whose reads fill the whole buffer
    /// where the bytes allow it.
    pub fn new(data: Vec<u8>) -> (r: MemSource)
        ensures
            r.content() == data@,
            r.position() == 0,
            r.reliable(),
    {
        MemSource { data, pos: 0, chunk: usize::MAX }
    }

    /// A source over `data`, at offset 0, whose reads hand out at most `chunk`
    /// bytes each.
    pub fn with_chunk(data: Vec<u8>, chunk: usize) -> (r: MemSource)
        requires
            chunk > 0,
        ensures
            r.content() == data@,
            r.position() == 0,
            r.reliable(),
    {
        MemSource { data, pos: 0, chunk }
    }
}

impl Source for MemSource {
    type Error = MemError;

    closed spec fn content(&self) -> Seq<u8> {
        self.data@
    }

    closed spec fn position(&self) -> int {
        self.pos as int
    }

    closed spec fn reliable(&self) -> bool {
        true
    }

    fn read(&mut self, buf: &mut [u8]) -> (r: Result<usize, MemError>) {
        proof {
            use_type_invariant(&*self);
        }
        let left = self.data.len() - self.pos;
        let mut n = buf.len();
        if left < n {
            n = left;
        }
        if self.chunk < n {
            n = self.chunk;
        }
        let start = self.pos;
        let mut i: usize = 0;
        while i < n
            invariant
                i <= n <= buf@.len(),
                start + n <= self.data@.len() <= usize::MAX,
                buf@.len() == old(buf)@.len(),
                forall|j: int| 0 <= j < i ==> buf@[j] == self.data@[start + j],
            decreases n - i,
        {
            buf[i] = self.data[start + i];
            i = i + 1;
        }
        self.pos = start + n;
        assert(buf@.subrange(0, n as int) =~= self.data@.subrange(start as int, self.pos as int));
        Ok(n)
    }

    fn seek_to(&mut self, offset: u64) -> (r: Result<(), MemError>) {
        proof {
            use_type_invariant(&*self);
        }
        if offset > self.data.len() as u64 {
            return Err(MemError::PastEnd);
        }
        self.pos = offset as usize;
        Ok(())
    }
}

/// A sink that keeps every accepted byte in memory.
pub struct MemSink {
    bytes: Vec<u8>,
}

impl MemSink {
    /// An empty sink.
    pub fn new() -> (r: MemSink)
        ensures
            r.written() == Seq::<u8>::empty(),
            r.reliable(),
    {
        MemSink { bytes: Vec::new() }
    }

    /// The bytes accepted so far.
    pub fn bytes(&self) -> (r: &Vec<u8>)
        ensures
            r@ == self.written(),
    {
        &self.bytes
    }
}

impl Sink for MemSink {
    type Error = MemError;

    closed spec fn written(&self) -> Seq<u8> {
        self.bytes@
    }

    closed spec fn reliable(&self) -> bool {
        true
    }

    fn write_all(&mut self, bytes: &[u8]) -> (r: Result<(), MemError>) {
        let mut i: usize = 0;
        while i < bytes.len()
            invariant
                i <= bytes@.len(),
                self.bytes@ == old(self).bytes@ + bytes@.subrange(0, i as int),
            decreases bytes@.len() - i,
        {
            self.bytes.push(bytes[i]);
            i = i + 1;
            assert(self.bytes@ =~= old(self).bytes@ + bytes@.subrange(0, i as int));
        }
        assert(bytes@.subrange(0, i as int) =~= bytes@);
        Ok(())
    }
}

} // verus!
