//! A cursor over the bytes of a stream.

use vstd::prelude::*;
use vstd::slice::slice_subrange;
use crate::error::FormatError;

verus! {

/// A source of bytes: a borrowed stream and how far it has been read.
#[derive(Debug)]
pub struct ByteReader<'a> {
    data: &'a [u8],
    pos: usize,
}

impl<'a> ByteReader<'a> {
    #[verifier::type_invariant]
    spec fn in_bounds(self) -> bool {
        self.pos <= self.data@.len()
    }

    /// The whole stream, read or not.
    pub closed spec fn bytes(&self) -> Seq<u8> {
        self.data@
    }

    /// How many bytes of the stream have been read.
    pub closed spec fn offset(&self) -> int {
        self.pos as int
    }

    /// The bytes that have not been read yet.
    pub open spec fn remaining(&self) -> Seq<u8> {
        self.bytes().skip(self.offset())
    }

    /// Whether this reader is `prev` moved forward by `n` bytes over the same stream.
    pub open spec fn advanced(&self, prev: &Self, n: int) -> bool {
        self.bytes() == prev.bytes() && self.offset() == prev.offset() + n
    }

    /// The error that reports the end of this reader's stream.
    pub open spec fn eof(&self) -> FormatError {
        FormatError::UnexpectedEof { offset: self.bytes().len() as usize }
    }

    /// A reader at the start of `data`.
    pub fn new(data: &'a [u8]) -> (reader: Self)
        ensures
            reader.bytes() == data@,
            reader.offset() == 0,
    {
        ByteReader { data, pos: 0 }
    }

    /// How many bytes have been read.
    pub fn position(&self) -> (pos: usize)
        ensures
            pos == self.offset(),
            0 <= self.offset() <= self.bytes().len(),
    {
        proof {
            use_type_invariant(self);
        }
        self.pos
    }

    /// How many bytes are left to read.
    pub fn available(&self) -> (n: usize)
        ensures
            n == self.bytes().len() - self.offset(),
            0 <= self.offset() <= self.bytes().len(),
    {
        proof {
            use_type_invariant(self);
        }
        self.data.len() - self.pos
    }

    /// The error that reports the end of the stream.
    pub fn end_of_stream(&self) -> (e: FormatError)
        ensures
            e == self.eof(),
    {
        FormatError::UnexpectedEof { offset: self.data.len() }
    }

    /// Whether every byte has been read.
    pub fn is_empty(&self) -> (empty: bool)
        ensures
            empty == (self.offset() == self.bytes().len()),
            0 <= self.offset() <= self.bytes().len(),
    {
        proof {
            use_type_invariant(self);
        }
        self.pos == self.data.len()
    }

    /// The next `n` bytes, which are thereby read. Where fewer are left the
    /// reader stays where it is.
    pub fn read_exact(&mut self, n: usize) -> (result: Result<&'a [u8], FormatError>)
        ensures
            match result {
                Ok(bytes) => {
                    &&& old(self).offset() + n <= old(self).bytes().len()
                    &&& bytes@ == old(self).bytes().subrange(
                        old(self).offset(),
                        old(self).offset() + n,
                    )
                    &&& final(self).advanced(old(self), n as int)
                },
                Err(e) => {
                    &&& old(self).offset() + n > old(self).bytes().len()
                    &&& e == old(self).eof()
                    &&& final(self).advanced(old(self), 0)
                },
            },
            0 <= old(self).offset() <= old(self).bytes().len(),
    {
        proof {
            use_type_invariant(&*self);
        }
        let len = self.data.len();
        if n > len - self.pos {
            return Err(FormatError::UnexpectedEof { offset: len });
        }
        let start = self.pos;
        let bytes = slice_subrange(self.data, start, start + n);
        self.pos = start + n;
        Ok(bytes)
    }

    /// Moves the reader back to `pos`, an offset that it has already passed.
    pub fn rewind(&mut self, pos: usize)
        requires
            pos <= old(self).offset(),
        ensures
            final(self).bytes() == old(self).bytes(),
            final(self).offset() == pos,
    {
        proof {
            use_type_invariant(&*self);
        }
        self.pos = pos;
    }
}

} // verus!
