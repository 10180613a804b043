//! Output sinks: append-only byte writers that track their write position.

use vstd::prelude::*;
use crate::MAX_LEN;
use crate::bytes::{le_bytes, offset_word, zeros, back_offset_word, u32_to_le};
use crate::resolve::Archive;

verus! {

/// Errors surfaced while serializing.  The sink has no rollback: after an
/// error the caller must discard the whole in-progress buffer and restart.
#[derive(Clone, Copy, Debug, PartialEq, Eq, Structural)]
pub enum WriteError {
    /// The sink refused further bytes.
    SinkFull,
}

/// A writer that knows its current position.
pub trait Positional {
    /// The number of bytes committed so far.
    spec fn spec_pos(&self) -> int;

    /// Returns the current position of the writer.
    fn pos(&self) -> (r: usize)
        ensures
            r as int == self.spec_pos(),
    ;
}

/// A type that writes bytes to some output.
///
/// Positions, once issued, are permanent addresses: committed bytes are never
/// rewritten, so on success `write` extends the committed bytes exactly by
/// its argument, and on failure it leaves the writer unchanged.
pub trait Writer: Positional {
    /// The bytes committed so far.
    spec fn written(&self) -> Seq<u8>;

    /// Whether the sink is guaranteed to accept `n` further bytes.
    spec fn accepts(&self, n: int) -> bool;

    /// The position of a writer is the number of bytes written.
    proof fn pos_is_len(&self)
        ensures
            self.spec_pos() == self.written().len(),
    ;

    /// A guarantee of acceptance covers every smaller demand.
    proof fn accepts_mono(&self, smaller: int, larger: int)
        requires
            self.accepts(larger),
            0 <= smaller <= larger,
        ensures
            self.accepts(smaller),
    ;

    /// Attempts to append the given bytes at the current position.
    fn write(&mut self, bytes: &[u8]) -> (r: Result<(), WriteError>)
        ensures
            r is Ok ==> final(self).written() =~= old(self).written() + bytes@,
            r is Ok ==> final(self).written().len() <= MAX_LEN,
            r is Err ==> final(self).written() =~= old(self).written(),
            r is Err ==> forall|m: int|
                #[trigger] final(self).accepts(m) == old(self).accepts(m),
            r is Err ==> r == Err::<(), WriteError>(WriteError::SinkFull),
            old(self).accepts(bytes@.len() as int) ==> r is Ok,
            r is Ok ==> forall|m: int|
                0 <= m && old(self).accepts(m + bytes@.len()) ==> #[trigger] final(self).accepts(m),
    ;
}

/// The number of zero bytes that advance `len` to a multiple of `alignment`.
pub open spec fn pad_len(len: int, alignment: int) -> int
    recommends
        1 <= alignment,
{
    if len % alignment == 0 {
        0
    } else {
        alignment - len % alignment
    }
}

/// Padding to an alignment boundary lands exactly on the boundary.
pub proof fn lemma_pad_len(len: int, alignment: int)
    requires
        0 <= len,
        1 <= alignment,
    ensures
        0 <= pad_len(len, alignment) < alignment,
        (len + pad_len(len, alignment)) % alignment == 0,
{
    vstd::arithmetic::div_mod::lemma_fundamental_div_mod(len, alignment);
    if len % alignment == 0 {
    } else {
        let q = len / alignment;
        assert(len == alignment * q + len % alignment);
        assert(len + pad_len(len, alignment) == (q + 1) * alignment) by (nonlinear_arith)
            requires
                len == alignment * q + len % alignment,
                pad_len(len, alignment) == alignment - len % alignment,
        ;
        vstd::arithmetic::div_mod::lemma_mod_multiples_basic(q + 1, alignment);
        assert(((q + 1) * alignment) % alignment == 0);
    }
}

/// Higher-level writing built from [`Writer::write`]: padding, alignment,
/// and the resolve protocol.
pub trait WriterExt: Writer {
    /// Advances the given number of bytes as zero padding.
    fn pad(&mut self, padding: usize) -> (r: Result<(), WriteError>)
        ensures
            r is Ok ==> final(self).written() =~= old(self).written() + zeros(padding as nat),
            r is Ok ==> final(self).written().len() <= MAX_LEN,
            r is Err ==> final(self).written() =~= old(self).written(),
            r is Err ==> forall|m: int|
                #[trigger] final(self).accepts(m) == old(self).accepts(m),
            r is Err ==> r == Err::<(), WriteError>(WriteError::SinkFull),
            old(self).accepts(padding as int) ==> r is Ok,
            r is Ok ==> forall|m: int|
                0 <= m && old(self).accepts(m + padding) ==> #[trigger] final(self).accepts(m),
    ;

    /// Pads with zero bytes until the position is a multiple of `alignment`,
    /// and returns the aligned position.
    fn align(&mut self, alignment: usize) -> (r: Result<usize, WriteError>)
        requires
            1 <= alignment,
        ensures
            r is Ok ==> ({
                let padding = pad_len(old(self).written().len() as int, alignment as int);
                &&& final(self).written() =~= old(self).written() + zeros(padding as nat)
                &&& final(self).written().len() as int % (alignment as int) == 0
                &&& r.unwrap() as int == final(self).written().len()
                &&& final(self).written().len() <= MAX_LEN
                &&& forall|m: int|
                    0 <= m && old(self).accepts(m + padding) ==> #[trigger] final(self).accepts(m)
            }),
            r is Err ==> final(self).written() =~= old(self).written(),
            r is Err ==> forall|m: int|
                #[trigger] final(self).accepts(m) == old(self).accepts(m),
            r is Err ==> r == Err::<usize, WriteError>(WriteError::SinkFull),
            old(self).accepts(alignment as int - 1) ==> r is Ok,
    ;

    /// Aligns the position of the writer to suit the archived form of
    /// `value`.
    fn align_for<T: Archive + ?Sized>(&mut self, value: &T) -> (r: Result<usize, WriteError>)
        requires
            1 <= value.archived_align(),
        ensures
            r is Ok ==> ({
                let padding = pad_len(
                    old(self).written().len() as int,
                    value.archived_align(),
                );
                &&& final(self).written() =~= old(self).written() + zeros(padding as nat)
                &&& final(self).written().len() as int % value.archived_align() == 0
                &&& r.unwrap() as int == final(self).written().len()
                &&& final(self).written().len() <= MAX_LEN
                &&& forall|m: int|
                    0 <= m && old(self).accepts(m + padding) ==> #[trigger] final(self).accepts(m)
            }),
            r is Err ==> final(self).written() =~= old(self).written(),
            r is Err ==> forall|m: int|
                #[trigger] final(self).accepts(m) == old(self).accepts(m),
            r is Err ==> r == Err::<usize, WriteError>(WriteError::SinkFull),
            old(self).accepts(value.archived_align() - 1) ==> r is Ok,
    ;

    /// Resolves `value` with its resolver and writes the archived record.
    ///
    /// Requires the current position to be aligned for the record, and
    /// returns the position of the written record.
    fn resolve_aligned<T: Archive + ?Sized>(&mut self, value: &T, resolver: T::Resolver) -> (r:
        Result<usize, WriteError>)
        requires
            1 <= value.archived_align(),
            old(self).written().len() as int % value.archived_align() == 0,
            value.resolver_wf(old(self).written().len() as int, resolver),
        ensures
            r is Err ==> final(self).written() =~= old(self).written(),
            r is Err ==> forall|m: int|
                #[trigger] final(self).accepts(m) == old(self).accepts(m),
            r is Err ==> r == Err::<usize, WriteError>(WriteError::SinkFull),
            old(self).accepts(value.archived(old(self).written().len() as int, resolver).len() as int)
                ==> r is Ok,
            r is Ok ==> ({
                let rec = value.archived(old(self).written().len() as int, resolver);
                &&& r.unwrap() as int == old(self).written().len()
                &&& final(self).written() =~= old(self).written() + rec
                &&& final(self).written().len() <= MAX_LEN
                &&& forall|m: int|
                    0 <= m && old(self).accepts(m + rec.len()) ==> #[trigger] final(self).accepts(m)
            }),
    ;

    /// Writes a relative-pointer record referencing an already-written,
    /// variable-sized region at `to` whose metadata word (element or byte
    /// count) is `metadata`.
    ///
    /// Requires the current position to be aligned for the record, and
    /// returns the position of the written record.
    fn resolve_unsized_aligned(&mut self, to: usize, metadata: usize) -> (r: Result<
        usize,
        WriteError,
    >)
        requires
            old(self).written().len() as int % 4 == 0,
            to <= old(self).written().len() <= MAX_LEN,
            metadata <= 0xffff_ffff,
        ensures
            r is Err ==> final(self).written() =~= old(self).written(),
            r is Err ==> forall|m: int|
                #[trigger] final(self).accepts(m) == old(self).accepts(m),
            r is Err ==> r == Err::<usize, WriteError>(WriteError::SinkFull),
            old(self).accepts(8) ==> r is Ok,
            r is Ok ==> ({
                let from = old(self).written().len() as int;
                &&& r.unwrap() as int == from
                &&& final(self).written() =~= old(self).written() + le_bytes(
                    offset_word(to - from),
                ) + le_bytes(metadata as u32)
                &&& final(self).written().len() <= MAX_LEN
                &&& forall|m: int|
                    0 <= m && old(self).accepts(m + 8) ==> #[trigger] final(self).accepts(m)
            }),
    ;
}

impl<W: Writer> WriterExt for W {
    fn pad(&mut self, padding: usize) -> (r: Result<(), WriteError>) {
        let mut z: Vec<u8> = Vec::new();
        while z.len() < padding
            invariant
                z@ =~= zeros(z@.len() as nat),
                z@.len() <= padding,
            decreases padding - z@.len(),
        {
            z.push(0u8);
            assert(z@ =~= zeros(z@.len() as nat));
        }
        assert(z@ =~= zeros(padding as nat));
        self.write(z.as_slice())
    }

    fn align(&mut self, alignment: usize) -> (r: Result<usize, WriteError>) {
        let cur: usize = self.pos();
        proof {
            self.pos_is_len();
            lemma_pad_len(cur as int, alignment as int);
        }
        let rem: usize = cur % alignment;
        let padding: usize = if rem == 0 {
            0
        } else {
            alignment - rem
        };
        proof {
            if old(self).accepts(alignment as int - 1) {
                self.accepts_mono(padding as int, alignment as int - 1);
            }
        }
        match self.pad(padding) {
            Ok(()) => {
                let p: usize = self.pos();
                proof {
                    self.pos_is_len();
                }
                Ok(p)
            },
            Err(e) => Err(e),
        }
    }

    fn align_for<T: Archive + ?Sized>(&mut self, value: &T) -> (r: Result<usize, WriteError>) {
        self.align(value.record_align())
    }

    fn resolve_aligned<T: Archive + ?Sized>(&mut self, value: &T, resolver: T::Resolver) -> (r:
        Result<usize, WriteError>) {
        let pos: usize = self.pos();
        proof {
            self.pos_is_len();
        }
        let resolved: Vec<u8> = value.resolve(pos, resolver);
        match self.write(resolved.as_slice()) {
            Ok(()) => Ok(pos),
            Err(e) => Err(e),
        }
    }

    fn resolve_unsized_aligned(&mut self, to: usize, metadata: usize) -> (r: Result<
        usize,
        WriteError,
    >) {
        let from: usize = self.pos();
        proof {
            self.pos_is_len();
        }
        let w: u32 = back_offset_word(from, to);
        let mut rec: Vec<u8> = u32_to_le(w);
        let mut meta: Vec<u8> = u32_to_le(metadata as u32);
        rec.append(&mut meta);
        assert(rec@ =~= le_bytes(offset_word(to as int - from as int)) + le_bytes(
            metadata as u32,
        ));
        match self.write(rec.as_slice()) {
            Ok(()) => Ok(from),
            Err(e) => Err(e),
        }
    }
}

/// An output sink backed by an in-memory byte buffer.
pub struct BufferWriter {
    buf: Vec<u8>,
}

impl BufferWriter {
    /// Creates an empty sink.
    pub fn new() -> (r: BufferWriter)
        ensures
            r.written() =~= Seq::<u8>::empty(),
            forall|n: int| #[trigger] r.accepts(n) <==> 0 <= n <= MAX_LEN,
    {
        BufferWriter { buf: Vec::new() }
    }

    /// Hands the finished buffer to the caller.
    pub fn into_buffer(self) -> (r: Vec<u8>)
        ensures
            r@ =~= self.written(),
    {
        self.buf
    }

    /// What acceptance means for the in-memory sink: room for `n` more
    /// bytes within [`MAX_LEN`].
    pub proof fn lemma_accepts(&self)
        ensures
            forall|n: int|
                #[trigger] self.accepts(n) <==> 0 <= n && self.written().len() + n <= MAX_LEN,
    {
    }

    /// Borrows the bytes written so far.
    pub fn buffer(&self) -> (r: &Vec<u8>)
        ensures
            r@ =~= self.written(),
    {
        &self.buf
    }
}

impl Positional for BufferWriter {
    closed spec fn spec_pos(&self) -> int {
        self.buf@.len() as int
    }

    fn pos(&self) -> (r: usize) {
        self.buf.len()
    }
}

impl Writer for BufferWriter {
    closed spec fn written(&self) -> Seq<u8> {
        self.buf@
    }

    closed spec fn accepts(&self, n: int) -> bool {
        0 <= n && self.buf@.len() + n <= MAX_LEN
    }

    proof fn pos_is_len(&self) {
    }

    proof fn accepts_mono(&self, smaller: int, larger: int) {
    }

    fn write(&mut self, bytes: &[u8]) -> (r: Result<(), WriteError>) {
        if bytes.len() <= MAX_LEN && self.buf.len() <= MAX_LEN - bytes.len() {
            let mut i: usize = 0;
            while i < bytes.len()
                invariant
                    i <= bytes@.len(),
                    self.buf@ =~= old(self).buf@ + bytes@.subrange(0, i as int),
                    self.buf@.len() <= MAX_LEN,
                    bytes@.len() + old(self).buf@.len() <= MAX_LEN,
                decreases bytes@.len() - i,
            {
                self.buf.push(bytes[i]);
                i = i + 1;
                assert(self.buf@ =~= old(self).buf@ + bytes@.subrange(0, i as int));
            }
            assert(self.buf@ =~= old(self).buf@ + bytes@);
            Ok(())
        } else {
            Err(WriteError::SinkFull)
        }
    }
}

} // verus!
