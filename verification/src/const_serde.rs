//! The transient byte buffers: an append-only write buffer and a
//! cursor-based read buffer, each owned by a single serialize or deserialize
//! call chain.

use vstd::prelude::*;

verus! {

/// A byte reader that advances a cursor over a borrowed byte slice and never
/// backtracks or re-reads.
pub struct ConstReadBuffer<'a> {
    location: usize,
    memory: &'a [u8],
}

impl<'a> ConstReadBuffer<'a> {
    /// The cursor never runs past the end of the underlying slice.
    #[verifier::type_invariant]
    pub open spec fn cursor_in_bounds(self) -> bool {
        0 <= self.loc() <= self.bytes().len() <= usize::MAX
    }

    /// The whole underlying byte sequence, cursor position included.
    pub closed spec fn bytes(&self) -> Seq<u8> {
        self.memory@
    }

    /// The cursor: how many bytes have been consumed so far.
    pub closed spec fn loc(&self) -> int {
        self.location as int
    }

    /// A reader over `memory` with the cursor at the start.
    pub fn new(memory: &'a [u8]) -> (r: Self)
        ensures
            r.bytes() == memory@,
            r.loc() == 0,
    {
        let _slice_len = memory.len();
        Self { location: 0, memory }
    }

    /// Consume one byte. Returns `None`, leaving no other trace, when the
    /// reader has run out of bytes.
    pub fn get(self) -> (r: Option<(Self, u8)>)
        ensures
            match r {
                Some((next, value)) => {
                    &&& self.loc() < self.bytes().len()
                    &&& next.bytes() == self.bytes()
                    &&& next.loc() == self.loc() + 1
                    &&& value == self.bytes()[self.loc()]
                },
                None => self.loc() >= self.bytes().len(),
            },
    {
        proof {
            use_type_invariant(&self);
        }
        if self.location < self.memory.len() {
            let value = self.memory[self.location];
            Some((Self { location: self.location + 1, memory: self.memory }, value))
        } else {
            None
        }
    }

    /// The whole underlying slice, independent of the cursor.
    pub fn as_ref(&self) -> (r: &[u8])
        ensures
            r@ == self.bytes(),
    {
        self.memory
    }
}

/// An append-only growable byte buffer: the write side of the wire.
pub struct ConstWriteBuffer {
    memory: Vec<u8>,
}

impl View for ConstWriteBuffer {
    type V = Seq<u8>;

    closed spec fn view(&self) -> Seq<u8> {
        self.memory@
    }
}

impl ConstWriteBuffer {
    /// An empty write buffer.
    pub fn new() -> (r: Self)
        ensures
            r@ == Seq::<u8>::empty(),
    {
        Self { memory: Vec::new() }
    }

    /// Append one byte, handing the grown buffer back.
    pub fn push(self, value: u8) -> (r: Self)
        ensures
            r@ == self@.push(value),
    {
        let mut memory = self.memory;
        memory.push(value);
        Self { memory }
    }

    /// The bytes written so far.
    pub fn as_ref(&self) -> (r: &[u8])
        ensures
            r@ == self@,
    {
        self.memory.as_slice()
    }

    /// Begin reading back what was written.
    pub fn read(&self) -> (r: ConstReadBuffer<'_>)
        ensures
            r.bytes() == self@,
            r.loc() == 0,
    {
        ConstReadBuffer::new(self.memory.as_slice())
    }
}

} // verus!
