//! What the parser and the writer need of the outside: a place to take bytes
//! from, one at a time, and a place to put bytes.

use vstd::prelude::*;

verus! {

/// A source of bytes that is read front to back.
pub trait ByteSource {
    /// The bytes that the source has yet to hand out. Each source says for
    /// itself what they are; of the default nothing is known.
    open spec fn remaining(&self) -> Seq<u8> {
        arbitrary()
    }

    /// Hands out the next byte, or `None` once the source is at its end.
    fn read_byte(&mut self) -> (b: Option<u8>)
        ensures
            old(self).remaining().len() == 0 ==> b.is_none()
                && final(self).remaining() == old(self).remaining(),
            old(self).remaining().len() > 0 ==> b == Some(old(self).remaining()[0])
                && final(self).remaining() == old(self).remaining().skip(1),
    ;
}

/// A sink that bytes are appended to.
pub trait ByteSink {
    /// The bytes that the sink has taken so far. Each sink says for itself
    /// what they are; of the default nothing is known.
    open spec fn written(&self) -> Seq<u8> {
        arbitrary()
    }

    /// Appends one byte.
    fn write_byte(&mut self, b: u8)
        ensures
            final(self).written() == old(self).written().push(b),
    ;

    /// Appends the bytes of `bytes`, in order.
    fn write_bytes(&mut self, bytes: &[u8])
        ensures
            final(self).written() == old(self).written() + bytes@,
    ;
}

/// A source that hands out the bytes of a buffer held in memory.
pub struct BytesReader {
    bytes: Vec<u8>,
    pos: usize,
}

impl BytesReader {
    #[verifier::type_invariant]
    spec fn pos_in_bounds(self) -> bool {
        self.pos <= self.bytes.len()
    }

    /// A source that hands out `bytes` from its first byte on.
    pub fn new(bytes: Vec<u8>) -> (r: Self)
        ensures
            r.remaining() == bytes@,
    {
        BytesReader { bytes, pos: 0 }
    }
}

impl ByteSource for BytesReader {
    closed spec fn remaining(&self) -> Seq<u8> {
        self.bytes@.skip(self.pos as int)
    }

    fn read_byte(&mut self) -> (b: Option<u8>) {
        proof {
            use_type_invariant(&*self);
        }
        if self.pos < self.bytes.len() {
            let b = self.bytes[self.pos];
            self.pos = self.pos + 1;
            assert(self.bytes@.skip(self.pos as int) =~= self.bytes@.skip(self.pos - 1).skip(1));
            Some(b)
        } else {
            None
        }
    }
}

impl ByteSink for Vec<u8> {
    open spec fn written(&self) -> Seq<u8> {
        self@
    }

    fn write_byte(&mut self, b: u8) {
        self.push(b);
    }

    fn write_bytes(&mut self, bytes: &[u8]) {
        let mut i: usize = 0;
        while i < bytes.len()
            invariant
                i <= bytes.len(),
                self@ == old(self)@ + bytes@.take(i as int),
            decreases bytes.len() - i,
        {
            self.push(bytes[i]);
            assert(bytes@.take(i as int).push(bytes@[i as int]) =~= bytes@.take(i + 1));
            i = i + 1;
        }
        assert(bytes@.take(i as int) =~= bytes@);
    }
}

} // verus!
