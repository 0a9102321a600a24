//! Where encoded bytes go, and what encodes them.
use vstd::prelude::*;

verus! {

/// The number `n` as far as a `usize` can hold it.
pub open spec fn saturated(n: nat) -> usize {
    if n > usize::MAX {
        usize::MAX
    } else {
        n as usize
    }
}

/// A sink for the bytes of an encoded document.
pub trait Writer {
    /// All bytes that were written so far.
    spec fn written(&self) -> Seq<u8>;

    /// Write the buffer.
    fn write(&mut self, buf: &[u8])
        ensures
            final(self).written() == old(self).written() + buf@,
    ;

    /// Index of the next byte that will be written; the greatest index
    /// there is where the count of the bytes written is beyond that.
    fn position(&self) -> (p: usize)
        ensures
            p == saturated(self.written().len()),
    ;
}

impl Writer for Vec<u8> {
    open spec fn written(&self) -> Seq<u8> {
        self@
    }

    fn write(&mut self, buf: &[u8]) {
        self.extend_from_slice(buf);
    }

    fn position(&self) -> (p: usize) {
        self.len()
    }
}

/// A writer that counts the bytes and drops them.
pub struct DummyWriter {
    size: usize,
    log: Ghost<Seq<u8>>,
}

impl DummyWriter {
    #[verifier::type_invariant]
    spec fn well_formed(self) -> bool {
        self.size == saturated(self.log@.len())
    }

    /// A writer to which nothing was written.
    pub fn new() -> (r: Self)
        ensures
            r.written() == Seq::<u8>::empty(),
    {
        Self { size: 0, log: Ghost(Seq::empty()) }
    }

    /// The count of the bytes that were written, as far as a `usize` can
    /// hold it.
    pub fn len(&self) -> (r: usize)
        ensures
            r == saturated(self.written().len()),
    {
        proof {
            use_type_invariant(self);
        }
        self.size
    }
}

impl Writer for DummyWriter {
    closed spec fn written(&self) -> Seq<u8> {
        self.log@
    }

    fn write(&mut self, buf: &[u8]) {
        proof {
            use_type_invariant(&*self);
        }
        let size: usize = if buf.len() > usize::MAX - self.size {
            usize::MAX
        } else {
            self.size + buf.len()
        };
        *self = DummyWriter { size, log: Ghost(self.log@ + buf@) };
    }

    fn position(&self) -> (p: usize) {
        proof {
            use_type_invariant(self);
        }
        self.size
    }
}

/// A way to write values of the type `T` as bytes.
pub trait Encoder<T> {
    /// The bytes that `o` is written as.
    spec fn encoding(o: &T) -> Seq<u8>;

    /// The count of the bytes that `o` is written as, as far as a `usize`
    /// can hold it.
    fn encoded_len(o: &T) -> (r: usize)
        ensures
            r == saturated(Self::encoding(o).len()),
    {
        let mut out = DummyWriter::new();
        Self::write_to(o, &mut out);
        out.len()
    }

    /// Writes `o` to `writer`.
    fn write_to<W: Writer>(o: &T, writer: &mut W)
        ensures
            final(writer).written() == old(writer).written() + Self::encoding(o),
    ;
}

} // verus!
