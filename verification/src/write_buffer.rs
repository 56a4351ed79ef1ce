//! A fixed-capacity byte buffer with an append cursor.

use vstd::prelude::*;
use vstd::slice::slice_subrange;
use vstd::string::StringSliceAdditionalSpecFns;

verus! {

/// Capacity of every [`WriteBuffer`], in bytes: room for a sign, the
/// longest digit window with its point and separators, and the longest
/// exponent.
pub const BUFFER_SIZE: usize = 65;

/// A fixed-capacity output buffer. Bytes are only ever appended; its
/// view is what has been written so far.
pub struct WriteBuffer {
    buffer: [u8; BUFFER_SIZE],
    written: usize,
}

impl View for WriteBuffer {
    type V = Seq<u8>;

    closed spec fn view(&self) -> Seq<u8> {
        self.buffer@.subrange(0, self.written as int)
    }
}

impl WriteBuffer {
    #[verifier::type_invariant]
    closed spec fn cursor_in_bounds(&self) -> bool {
        self.written <= BUFFER_SIZE
    }

    /// An empty buffer.
    pub fn new() -> (buf: Self)
        ensures
            buf@ == Seq::<u8>::empty(),
    {
        WriteBuffer { buffer: [0u8; BUFFER_SIZE], written: 0 }
    }

    /// How many bytes have been written.
    pub fn len(&self) -> (n: usize)
        ensures
            n == self@.len(),
            n <= BUFFER_SIZE,
    {
        proof {
            use_type_invariant(self);
        }
        self.written
    }

    /// The bytes written so far.
    pub fn as_bytes(&self) -> (bytes: &[u8])
        ensures
            bytes@ == self@,
    {
        proof {
            use_type_invariant(self);
        }
        slice_subrange(self.buffer.as_slice(), 0, self.written)
    }

    /// Appends one byte.
    pub fn push_byte(&mut self, b: u8)
        requires
            old(self)@.len() < BUFFER_SIZE,
        ensures
            final(self)@ == old(self)@.push(b),
    {
        proof {
            use_type_invariant(&*self);
        }
        self.buffer[self.written] = b;
        self.written += 1;
    }

    /// Appends a run of bytes.
    pub fn write_bytes(&mut self, bytes: &[u8])
        requires
            old(self)@.len() + bytes@.len() <= BUFFER_SIZE,
        ensures
            final(self)@ == old(self)@ + bytes@,
    {
        let mut i: usize = 0;
        while i < bytes.len()
            invariant
                0 <= i <= bytes@.len(),
                old(self)@.len() + bytes@.len() <= BUFFER_SIZE,
                self@ == old(self)@ + bytes@.take(i as int),
            decreases bytes@.len() - i,
        {
            self.push_byte(bytes[i]);
            i += 1;
            assert(bytes@.take(i as int) == bytes@.take(i - 1).push(bytes@[i - 1]));
        }
        assert(bytes@.take(i as int) == bytes@);
    }

    /// Appends the UTF-8 bytes of a string.
    pub fn write_str(&mut self, s: &str)
        requires
            old(self)@.len() + s.spec_bytes().len() <= BUFFER_SIZE,
        ensures
            final(self)@ == old(self)@ + s.spec_bytes(),
    {
        self.write_bytes(s.as_bytes());
    }
}

} // verus!
