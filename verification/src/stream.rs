//! In-memory byte source and byte sink, and the codec's error type.
//!
//! The byte source contract is "read exactly one byte or fail"; the byte
//! sink contract is "append the given bytes". Both are backed by a `Vec<u8>`
//! here; adapters for other streams live outside the verified core.

use vstd::prelude::*;

verus! {

/// Everything that can go wrong while encoding or decoding.
#[derive(Debug, Clone, Copy, PartialEq, Eq, Structural)]
pub enum CodecError {
    /// The byte source ran out before the expected bytes were available.
    UnexpectedEndOfInput,
    /// A varint ran past ten bytes, or its tenth byte encoded more than one
    /// bit of magnitude, so the value would not fit in 64 bits.
    MalformedVarint,
    /// A tag byte matched none of the recognized type tags; carries the
    /// offending byte.
    UnknownTypeTag(u8),
    /// An encode was asked to write a list or map with 255 or more entries.
    ContainerTooLarge,
}

/// A byte source over an in-memory buffer: the bytes and a read position.
pub struct ByteReader {
    bytes: Vec<u8>,
    pos: usize,
}

impl ByteReader {
    /// The whole underlying buffer.
    pub closed spec fn data(&self) -> Seq<u8> {
        self.bytes@
    }

    /// The current read position.
    pub closed spec fn at(&self) -> int {
        self.pos as int
    }

    /// The position is a machine integer and never runs past the end of
    /// the buffer.
    pub open spec fn wf(&self) -> bool {
        0 <= self.at() <= self.data().len() && self.at() <= usize::MAX as int
    }

    /// A fresh reader positioned at the start of `bytes`.
    pub fn new(bytes: Vec<u8>) -> (r: ByteReader)
        ensures
            r.wf(),
            r.data() == bytes@,
            r.at() == 0,
    {
        ByteReader { bytes, pos: 0 }
    }

    /// The current read position, as a value.
    pub fn position(&self) -> (r: usize)
        ensures
            r == self.at(),
    {
        self.pos
    }

    /// How many bytes are left to read.
    pub fn remaining(&self) -> (r: usize)
        requires
            self.wf(),
        ensures
            r == self.data().len() - self.at(),
    {
        self.bytes.len() - self.pos
    }

    /// Read exactly one byte, or fail if the source is exhausted.
    pub fn read_byte(&mut self) -> (r: Result<u8, CodecError>)
        requires
            old(self).wf(),
        ensures
            final(self).wf(),
            final(self).data() == old(self).data(),
            match r {
                Ok(b) => {
                    &&& old(self).at() < final(self).data().len()
                    &&& b == final(self).data()[old(self).at()]
                    &&& final(self).at() == old(self).at() + 1
                },
                Err(e) => {
                    &&& e == CodecError::UnexpectedEndOfInput
                    &&& old(self).at() == final(self).data().len()
                    &&& final(self).at() == old(self).at()
                },
            },
    {
        if self.pos < self.bytes.len() {
            let b = self.bytes[self.pos];
            self.pos = self.pos + 1;
            Ok(b)
        } else {
            Err(CodecError::UnexpectedEndOfInput)
        }
    }

    /// Read exactly `n` bytes, or fail if fewer are left.
    pub fn read_exact(&mut self, n: usize) -> (r: Result<Vec<u8>, CodecError>)
        requires
            old(self).wf(),
        ensures
            final(self).wf(),
            final(self).data() == old(self).data(),
            match r {
                Ok(buf) => {
                    &&& old(self).at() + n <= final(self).data().len()
                    &&& buf@ == final(self).data().subrange(old(self).at(), old(self).at() + n)
                    &&& final(self).at() == old(self).at() + n
                },
                Err(e) => {
                    &&& e == CodecError::UnexpectedEndOfInput
                    &&& old(self).at() + n > final(self).data().len()
                    &&& final(self).at() == old(self).at()
                },
            },
    {
        if n > self.bytes.len() - self.pos {
            return Err(CodecError::UnexpectedEndOfInput);
        }
        let mut buf: Vec<u8> = Vec::new();
        let mut i: usize = 0;
        while i < n
            invariant
                i <= n,
                self.pos + n <= self.bytes.len(),
                buf@ == self.bytes@.subrange(self.pos as int, self.pos + i),
            decreases n - i,
        {
            buf.push(self.bytes[self.pos + i]);
            i = i + 1;
            proof {
                assert(buf@ =~= self.bytes@.subrange(self.pos as int, self.pos + i));
            }
        }
        self.pos = self.pos + n;
        Ok(buf)
    }
}

/// A byte sink over an in-memory buffer: bytes are appended at the end.
pub struct ByteWriter {
    bytes: Vec<u8>,
}

impl ByteWriter {
    /// Everything written so far.
    pub closed spec fn out(&self) -> Seq<u8> {
        self.bytes@
    }

    /// A fresh, empty sink.
    pub fn new() -> (r: ByteWriter)
        ensures
            r.out() == Seq::<u8>::empty(),
    {
        ByteWriter { bytes: Vec::new() }
    }

    /// Append one byte.
    pub fn write_byte(&mut self, b: u8)
        ensures
            final(self).out() == old(self).out().push(b),
    {
        self.bytes.push(b);
    }

    /// Append all given bytes.
    pub fn write_all(&mut self, buf: &[u8])
        ensures
            final(self).out() == old(self).out() + buf@,
    {
        let n = buf.len();
        let mut i: usize = 0;
        while i < n
            invariant
                i <= n,
                n == buf@.len(),
                self.bytes@ == old(self).bytes@ + buf@.subrange(0, i as int),
            decreases n - i,
        {
            self.bytes.push(buf[i]);
            i = i + 1;
            proof {
                assert(self.bytes@ =~= old(self).bytes@ + buf@.subrange(0, i as int));
            }
        }
        proof {
            assert(buf@.subrange(0, n as int) =~= buf@);
        }
    }

    /// Hand out the bytes written so far, consuming the sink.
    pub fn into_bytes(self) -> (r: Vec<u8>)
        ensures
            r@ == self.out(),
    {
        self.bytes
    }
}

} // verus!
