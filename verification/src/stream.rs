use vstd::prelude::*;

verus! {

/// A sequential byte source with "read exactly N bytes or fail" semantics.
/// The position only moves forward, and only on a successful read: a failed
/// read leaves the reader untouched.
pub struct ByteReader {
    data: Vec<u8>,
    pos: usize,
}

impl ByteReader {
    /// The full underlying byte sequence, positions 0 through len - 1.
    pub closed spec fn bytes(&self) -> Seq<u8> {
        self.data@
    }

    /// The current read position, a byte offset into `bytes()`.
    pub closed spec fn position(&self) -> int {
        self.pos as int
    }

    /// The reader is well formed: the position never passes the end.
    pub open spec fn wf(&self) -> bool {
        0 <= self.position() <= self.bytes().len()
    }

    /// A fresh reader over the given bytes, positioned at the start.
    pub fn new(data: Vec<u8>) -> (r: ByteReader)
        ensures
            r.wf(),
            r.bytes() == data@,
            r.position() == 0,
    {
        ByteReader { data, pos: 0 }
    }

    /// The total length of the underlying bytes.
    pub fn len(&self) -> (r: usize)
        ensures
            r == self.bytes().len(),
    {
        self.data.len()
    }

    /// The current position as a count of consumed bytes.
    pub fn pos(&self) -> (r: usize)
        ensures
            r == self.position(),
    {
        self.pos
    }

    /// How many bytes remain to be read.
    pub fn remaining(&self) -> (r: usize)
        requires
            self.wf(),
        ensures
            r == self.bytes().len() - self.position(),
    {
        self.data.len() - self.pos
    }

    /// Reads exactly `len` bytes, advancing the position, or fails with
    /// `UnexpectedEof` leaving the reader unchanged. Short reads are never
    /// returned: the result is all `len` bytes or an error.
    pub fn read_exact(&mut self, len: usize) -> (r: Result<Vec<u8>, crate::error::FormatError>)
        requires
            old(self).wf(),
        ensures
            final(self).wf(),
            final(self).bytes() == old(self).bytes(),
            match r {
                Ok(v) => {
                    &&& old(self).position() + len <= final(self).bytes().len()
                    &&& v@ == final(self).bytes().subrange(
                        old(self).position(),
                        old(self).position() + len,
                    )
                    &&& final(self).position() == old(self).position() + len
                },
                Err(e) => {
                    &&& e == crate::error::FormatError::UnexpectedEof
                    &&& old(self).position() + len > final(self).bytes().len()
                    &&& final(self).position() == old(self).position()
                },
            },
    {
        if len > self.data.len() - self.pos {
            return Err(crate::error::FormatError::UnexpectedEof);
        }
        let ghost r0 = *self;
        let mut out: Vec<u8> = Vec::new();
        let mut i: usize = 0;
        while i < len
            invariant
                0 <= i <= len,
                *self == r0,
                self.pos + len <= self.data@.len(),
                self.pos + len <= usize::MAX,
                out@ == self.data@.subrange(self.pos as int, self.pos + i),
            decreases len - i,
        {
            out.push(self.data[self.pos + i]);
            i = i + 1;
            proof {
                assert(out@ == self.data@.subrange(self.pos as int, self.pos + i));
            }
        }
        self.pos = self.pos + len;
        Ok(out)
    }

    /// Moves the read position back to an earlier offset, for callers that
    /// must leave the stream where a failed parse began.
    pub fn rewind(&mut self, to: usize)
        requires
            old(self).wf(),
            to <= old(self).bytes().len(),
        ensures
            final(self).wf(),
            final(self).bytes() == old(self).bytes(),
            final(self).position() == to,
    {
        self.pos = to;
    }

    /// Discards exactly `len` bytes, or fails with `UnexpectedEof` leaving the
    /// reader unchanged. Used to skip padding without materialising it.
    pub fn skip(&mut self, len: usize) -> (r: Result<(), crate::error::FormatError>)
        requires
            old(self).wf(),
        ensures
            final(self).wf(),
            final(self).bytes() == old(self).bytes(),
            match r {
                Ok(()) => {
                    &&& old(self).position() + len <= final(self).bytes().len()
                    &&& final(self).position() == old(self).position() + len
                },
                Err(e) => {
                    &&& e == crate::error::FormatError::UnexpectedEof
                    &&& old(self).position() + len > final(self).bytes().len()
                    &&& final(self).position() == old(self).position()
                },
            },
    {
        if len > self.data.len() - self.pos {
            return Err(crate::error::FormatError::UnexpectedEof);
        }
        self.pos = self.pos + len;
        Ok(())
    }
}

/// A sequential byte sink with "write all N bytes or fail" semantics and an
/// explicit capacity: a write whose bytes would not all fit is rejected whole,
/// leaving the sink unchanged. An unbounded sink has capacity `usize::MAX`.
pub struct ByteWriter {
    buf: Vec<u8>,
    cap: usize,
}

impl ByteWriter {
    /// Everything written so far, in order.
    pub closed spec fn bytes(&self) -> Seq<u8> {
        self.buf@
    }

    /// The sink's capacity: the greatest total number of bytes it accepts.
    pub closed spec fn capacity(&self) -> int {
        self.cap as int
    }

    /// The writer is well formed: it never holds more than its capacity, and
    /// the capacity itself is a machine-representable count.
    pub open spec fn wf(&self) -> bool {
        self.bytes().len() <= self.capacity() <= usize::MAX
    }

    /// A fresh unbounded sink.
    pub fn new() -> (r: ByteWriter)
        ensures
            r.wf(),
            r.bytes() == Seq::<u8>::empty(),
            r.capacity() == usize::MAX,
    {
        ByteWriter { buf: Vec::new(), cap: usize::MAX }
    }

    /// A fresh sink that accepts at most `cap` bytes in total.
    pub fn with_capacity(cap: usize) -> (r: ByteWriter)
        ensures
            r.wf(),
            r.bytes() == Seq::<u8>::empty(),
            r.capacity() == cap,
    {
        ByteWriter { buf: Vec::new(), cap }
    }

    /// The sink's total capacity in bytes.
    pub fn cap(&self) -> (r: usize)
        ensures
            r == self.capacity(),
    {
        self.cap
    }

    /// The number of bytes written so far.
    pub fn len(&self) -> (r: usize)
        ensures
            r == self.bytes().len(),
    {
        self.buf.len()
    }

    /// Hands the written bytes to the caller, consuming the sink.
    pub fn into_bytes(self) -> (r: Vec<u8>)
        ensures
            r@ == self.bytes(),
    {
        self.buf
    }

    /// Writes all of `data`, or fails with `WriteFailure` leaving the sink
    /// unchanged. No partial write is ever kept.
    pub fn write_all(&mut self, data: &[u8]) -> (r: Result<(), crate::error::FormatError>)
        requires
            old(self).wf(),
        ensures
            final(self).wf(),
            final(self).capacity() == old(self).capacity(),
            match r {
                Ok(()) => {
                    &&& old(self).bytes().len() + data@.len() <= final(self).capacity()
                    &&& final(self).bytes() == old(self).bytes() + data@
                },
                Err(e) => {
                    &&& e == crate::error::FormatError::WriteFailure
                    &&& old(self).bytes().len() + data@.len() > final(self).capacity()
                    &&& final(self).bytes() == old(self).bytes()
                },
            },
    {
        if data.len() > self.cap - self.buf.len() {
            return Err(crate::error::FormatError::WriteFailure);
        }
        let ghost start = self.buf@;
        let ghost cap0 = self.cap;
        let mut i: usize = 0;
        while i < data.len()
            invariant
                self.cap == cap0,
                0 <= i <= data@.len(),
                start.len() + data@.len() <= self.cap,
                self.buf@ == start + data@.subrange(0, i as int),
            decreases data@.len() - i,
        {
            self.buf.push(data[i]);
            i = i + 1;
        }
        proof {
            assert(data@.subrange(0, data@.len() as int) == data@);
        }
        Ok(())
    }
}

} // verus!
