//! A byte sink that counts what is written to it.

use vstd::prelude::*;

verus! {

/// A buffer of bytes together with the number of bytes that were written to
/// it since it was wrapped.
#[derive(Debug)]
pub struct TrackedWriter {
    writer: Vec<u8>,
    bytes_written: usize,
}

impl TrackedWriter {
    #[verifier::type_invariant]
    spec fn counted_within(self) -> bool {
        self.bytes_written <= self.writer@.len()
    }

    /// Everything that the sink holds.
    pub closed spec fn bytes(&self) -> Seq<u8> {
        self.writer@
    }

    /// How many bytes went through this writer.
    pub closed spec fn count(&self) -> nat {
        self.bytes_written as nat
    }

    /// Wraps a sink. What it already holds stays and is not counted.
    pub fn new(writer: Vec<u8>) -> (tracked_writer: Self)
        ensures
            tracked_writer.bytes() == writer@,
            tracked_writer.count() == 0,
    {
        TrackedWriter { writer, bytes_written: 0 }
    }

    /// The number of bytes written through this writer so far.
    pub fn bytes_written(&self) -> (n: usize)
        ensures
            n == self.count(),
    {
        self.bytes_written
    }

    /// Appends all of `buf` to the sink and returns how many bytes that was.
    pub fn write(&mut self, buf: &[u8]) -> (n: usize)
        ensures
            n == buf@.len(),
            final(self).bytes() == old(self).bytes() + buf@,
            final(self).count() == old(self).count() + buf@.len(),
    {
        proof {
            use_type_invariant(&*self);
        }
        // The sink leaves `self` for the write and comes back with the new count.
        let mut taken = TrackedWriter { writer: Vec::new(), bytes_written: 0 };
        core::mem::swap(self, &mut taken);
        let TrackedWriter { writer: mut writer, bytes_written } = taken;
        let ghost before = writer@;
        writer.extend_from_slice(buf);
        assert(writer@ =~= before + buf@);
        // The sink holds every byte that was counted, so the count stays in `usize`.
        let held = writer.len();
        assert(bytes_written + buf@.len() <= held);
        *self = TrackedWriter { writer, bytes_written: bytes_written + buf.len() };
        buf.len()
    }

    /// Hands everything on to the sink, which a buffer in memory already holds.
    pub fn flush(&mut self)
        ensures
            *final(self) == *old(self),
    {
    }

    /// Gives the sink back.
    pub fn into_inner(self) -> (writer: Vec<u8>)
        ensures
            writer@ == self.bytes(),
    {
        self.writer
    }
}

} // verus!
