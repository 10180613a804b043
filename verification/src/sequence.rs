//! The archived growable sequence: all elements are written contiguously
//! first, then a fixed record holding a relative pointer to the first
//! element and the element count.

use vstd::prelude::*;
use crate::MAX_LEN;
use crate::bytes::{
    le_bytes, offset_val, offset_word, u32_at, u32_to_le, read_u32, back_offset_word,
    try_offset_target, lemma_le_bytes_at, lemma_offset_word_val, lemma_u32_at_prefix,
    lemma_prefix_trans, lemma_prefix_extend,
};
use crate::writer::{Writer, WriterExt, WriteError};
use crate::resolve::Archive;

verus! {

/// Resolver for a sequence: the position of its already-written elements.
pub struct VecResolver {
    /// Position of the first element in the buffer.
    pub pos: usize,
}

/// Absolute position of the first element of the sequence record at `pos`.
pub open spec fn seq_target(buf: Seq<u8>, pos: int) -> int {
    pos + offset_val(u32_at(buf, pos))
}

/// Element count of the sequence record at `pos`.
pub open spec fn seq_count(buf: Seq<u8>, pos: int) -> int {
    u32_at(buf, pos + 4) as int
}

/// Well-formedness of a sequence record at `pos`: the record and every
/// element lie inside the buffer, and both are four-byte aligned.
pub open spec fn seq_wf(buf: Seq<u8>, pos: int) -> bool {
    &&& 0 <= pos
    &&& pos % 4 == 0
    &&& pos + 8 <= buf.len()
    &&& buf.len() <= MAX_LEN
    &&& 0 <= seq_target(buf, pos)
    &&& seq_target(buf, pos) % 4 == 0
    &&& seq_target(buf, pos) + 4 * seq_count(buf, pos) <= buf.len()
}

/// The elements denoted by the sequence record at `pos`.
pub open spec fn seq_elems(buf: Seq<u8>, pos: int) -> Seq<u32> {
    Seq::new(seq_count(buf, pos) as nat, |i: int| u32_at(buf, seq_target(buf, pos) + 4 * i))
}

impl Archive for Vec<u32> {
    type Resolver = VecResolver;

    open spec fn archived_align(&self) -> int {
        4
    }

    fn record_align(&self) -> (r: usize) {
        4
    }

    open spec fn resolver_wf(&self, pos: int, resolver: VecResolver) -> bool {
        &&& resolver.pos % 4 == 0
        &&& resolver.pos + 4 * self@.len() <= pos
        &&& pos <= MAX_LEN
    }

    open spec fn archived(&self, pos: int, resolver: VecResolver) -> Seq<u8> {
        le_bytes(offset_word(resolver.pos - pos)) + le_bytes(self@.len() as u32)
    }

    fn resolve(&self, pos: usize, resolver: VecResolver) -> (out: Vec<u8>) {
        let w: u32 = back_offset_word(pos, resolver.pos);
        let mut out: Vec<u8> = u32_to_le(w);
        let mut count: Vec<u8> = u32_to_le(self.len() as u32);
        out.append(&mut count);
        assert(out@ =~= self.archived(pos as int, resolver));
        out
    }
}

/// First phase for sequences: aligns the writer and writes the elements
/// contiguously, returning a resolver holding their start position.
pub fn serialize_elements<W: Writer>(elems: &Vec<u32>, serializer: &mut W) -> (r: Result<
    VecResolver,
    WriteError,
>)
    requires
        old(serializer).written().len() <= MAX_LEN,
    ensures
        old(serializer).written().is_prefix_of(final(serializer).written()),
        r is Err ==> r->Err_0 == WriteError::SinkFull,
        old(serializer).accepts(3 + 4 * elems@.len() as int) ==> r is Ok,
        r is Ok ==> ({
            let res = r.unwrap();
            let buf = final(serializer).written();
            &&& res.pos as int % 4 == 0
            &&& res.pos as int == old(serializer).written().len() + crate::writer::pad_len(
                old(serializer).written().len() as int,
                4,
            )
            &&& buf.subrange(old(serializer).written().len() as int, res.pos as int)
                =~= crate::bytes::zeros(
                crate::writer::pad_len(old(serializer).written().len() as int, 4) as nat,
            )
            &&& buf.len() == res.pos + 4 * elems@.len()
            &&& buf.len() <= MAX_LEN
            &&& (forall|k: int|
                0 <= k < elems@.len() ==> u32_at(buf, res.pos + 4 * k) == elems@[k])
            &&& (forall|m: int|
                0 <= m && old(serializer).accepts(m + 3 + 4 * elems@.len())
                    ==> #[trigger] final(serializer).accepts(m))
        }),
{
    let ghost base = old(serializer).written();
    let ghost n = elems@.len() as int;
    let start: usize = match serializer.align(4) {
        Ok(p) => p,
        Err(e) => {
            proof {
                if old(serializer).accepts(3 + 4 * n) {
                    old(serializer).accepts_mono(3, 3 + 4 * n);
                }
                assert(base.is_prefix_of(serializer.written()));
                assert(old(serializer).written().is_prefix_of(serializer.written()));
            }
            return Err(e);
        },
    };
    proof {
        lemma_prefix_extend(base, serializer.written().subrange(base.len() as int, serializer.written().len() as int));
        assert(base + serializer.written().subrange(base.len() as int, serializer.written().len() as int) =~= serializer.written());
        crate::writer::lemma_pad_len(base.len() as int, 4);
        assert forall|m: int|
            0 <= m && old(serializer).accepts(m + 3 + 4 * n) implies #[trigger] serializer.accepts(
            m + 4 * (n - 0),
        ) by {
            old(serializer).accepts_mono(
                m + 4 * n + crate::writer::pad_len(base.len() as int, 4),
                m + 3 + 4 * n,
            );
        }
    }
    let ghost aligned = serializer.written();
    let mut i: usize = 0;
    while i < elems.len()
        invariant
            i <= elems@.len(),
            n == elems@.len() as int,
            base == old(serializer).written(),
            start as int % 4 == 0,
            base.len() <= start,
            base.is_prefix_of(serializer.written()),
            aligned.is_prefix_of(serializer.written()),
            serializer.written().len() == start + 4 * i,
            serializer.written().len() <= MAX_LEN,
            forall|k: int|
                0 <= k < i ==> u32_at(serializer.written(), start + 4 * k) == elems@[k],
            forall|m: int|
                0 <= m && old(serializer).accepts(m + 3 + 4 * n) ==> #[trigger] serializer.accepts(
                    m + 4 * (n - i),
                ),
        decreases elems@.len() - i,
    {
        let ghost pre = serializer.written();
        let ghost prew = *serializer;
        let word: Vec<u8> = u32_to_le(elems[i]);
        proof {
            if old(serializer).accepts(3 + 4 * n) {
                assert(serializer.accepts(0 + 4 * (n - i)));
                serializer.accepts_mono(4, 4 * (n - i));
            }
        }
        match serializer.write(word.as_slice()) {
            Ok(()) => {},
            Err(e) => {
                proof {
                    if old(serializer).accepts(3 + 4 * n) {
                        assert(false);
                    }
                    assert(serializer.written() =~= pre);
                    assert(base.is_prefix_of(serializer.written()));
                    assert(base == old(serializer).written());
                    assert(old(serializer).written().is_prefix_of(serializer.written()));
                }
                return Err(e);
            },
        }
        proof {
            lemma_prefix_extend(pre, word@);
            lemma_prefix_trans(base, pre, serializer.written());
            lemma_prefix_trans(aligned, pre, serializer.written());
            assert(serializer.written().subrange(
                start + 4 * i,
                start + 4 * i + 4,
            ) =~= le_bytes(elems@[i as int]));
            lemma_le_bytes_at(serializer.written(), start + 4 * i, elems@[i as int]);
            assert forall|k: int| 0 <= k < i implies u32_at(
                serializer.written(),
                start + 4 * k,
            ) == elems@[k] by {
                lemma_u32_at_prefix(pre, serializer.written(), start + 4 * k);
            }
            assert forall|m: int|
                0 <= m && old(serializer).accepts(m + 3 + 4 * n) implies #[trigger] serializer
                .accepts(m + 4 * (n - i - 1)) by {
                assert(prew.accepts(m + 4 * (n - i)));
                assert(prew.accepts((m + 4 * (n - i - 1)) + 4));
            }
        }
        i = i + 1;
    }
    proof {
        assert(base.is_prefix_of(serializer.written()));
        assert(base == old(serializer).written());
        assert(old(serializer).written().is_prefix_of(serializer.written()));
        let ghost p = crate::writer::pad_len(base.len() as int, 4);
        assert forall|idx: int|
            base.len() <= idx < start implies serializer.written()[idx] == 0u8 by {
            assert(serializer.written()[idx] == aligned[idx]);
            assert(aligned[idx] == crate::bytes::zeros(p as nat)[idx - base.len()]);
        }
        assert(serializer.written().subrange(base.len() as int, start as int)
            =~= crate::bytes::zeros(p as nat));
        assert forall|m: int|
            0 <= m && old(serializer).accepts(m + 3 + 4 * n) implies #[trigger] serializer.accepts(
            m,
        ) by {
            assert(serializer.accepts(m + 4 * (n - i)));
        }
    }
    Ok(VecResolver { pos: start })
}

/// Serializes a sequence of 32-bit values: elements first, then the fixed
/// record.  Returns the position of the record.
pub fn serialize_sequence<W: Writer>(elems: &Vec<u32>, serializer: &mut W) -> (r: Result<
    usize,
    WriteError,
>)
    requires
        old(serializer).written().len() <= MAX_LEN,
    ensures
        old(serializer).written().is_prefix_of(final(serializer).written()),
        r is Err ==> r->Err_0 == WriteError::SinkFull,
        old(serializer).accepts(11 + 4 * elems@.len() as int) ==> r is Ok,
        r is Ok ==> ({
            let buf = final(serializer).written();
            let pos = r.unwrap() as int;
            let base = old(serializer).written().len() as int;
            &&& pos == base + crate::writer::pad_len(base, 4) + 4 * elems@.len()
            &&& buf.subrange(base, base + crate::writer::pad_len(base, 4)) =~= crate::bytes::zeros(
                crate::writer::pad_len(base, 4) as nat,
            )
            &&& pos + 8 == buf.len()
            &&& seq_wf(buf, pos)
            &&& seq_target(buf, pos) == base + crate::writer::pad_len(base, 4)
            &&& seq_elems(buf, pos) =~= elems@
        }),
{
    let ghost n = elems@.len() as int;
    let res: VecResolver = match serialize_elements(elems, serializer) {
        Ok(res) => res,
        Err(e) => {
            proof {
                if old(serializer).accepts(11 + 4 * n) {
                    old(serializer).accepts_mono(3 + 4 * n, 11 + 4 * n);
                }
            }
            return Err(e);
        },
    };
    let ghost mid = serializer.written();
    let ghost rpos = res.pos as int;
    proof {
        serializer.pos_is_len();
    }
    let pos: usize = match serializer.resolve_aligned(elems, res) {
        Ok(p) => p,
        Err(e) => {
            proof {
                if old(serializer).accepts(11 + 4 * n) {
                    assert(serializer.accepts(8int));
                }
            }
            return Err(e);
        },
    };
    proof {
        let buf = serializer.written();
        let ghost w1 = offset_word(rpos - pos);
        assert(mid.is_prefix_of(buf)) by {
            lemma_prefix_extend(mid, buf.subrange(mid.len() as int, buf.len() as int));
            assert(mid + buf.subrange(mid.len() as int, buf.len() as int) =~= buf);
        }
        lemma_prefix_trans(old(serializer).written(), mid, buf);
        assert(buf.subrange(pos as int, pos + 4) =~= le_bytes(w1));
        lemma_le_bytes_at(buf, pos as int, w1);
        lemma_offset_word_val(rpos - pos);
        assert(seq_target(buf, pos as int) == rpos);
        assert(buf.subrange(pos + 4, pos + 8) =~= le_bytes(elems@.len() as u32));
        lemma_le_bytes_at(buf, pos + 4, elems@.len() as u32);
        assert(elems@.len() as u32 as int == n);
        assert(seq_count(buf, pos as int) == n);
        assert(seq_wf(buf, pos as int));
        assert forall|k: int| 0 <= k < n implies u32_at(buf, rpos + 4 * k) == elems@[k] by {
            lemma_u32_at_prefix(mid, buf, rpos + 4 * k);
        }
        assert(seq_elems(buf, pos as int) =~= elems@);
    }
    Ok(pos)
}

/// A typed view of an archived sequence: the position of its record inside
/// some buffer.
#[derive(Clone, Copy, Debug, PartialEq, Eq, Structural)]
pub struct ArchivedVec {
    /// Position of the sequence record.
    pub pos: usize,
}

impl ArchivedVec {
    /// Well-formedness of the viewed record in `buf`.
    pub open spec fn wf(&self, buf: Seq<u8>) -> bool {
        seq_wf(buf, self.pos as int)
    }

    /// The elements the view denotes in `buf`.
    pub open spec fn elems(&self, buf: Seq<u8>) -> Seq<u32> {
        seq_elems(buf, self.pos as int)
    }

    /// Creates a view of the record at `pos`.
    pub fn new(pos: usize) -> (r: ArchivedVec)
        ensures
            r.pos == pos,
    {
        ArchivedVec { pos }
    }

    /// Number of elements.
    pub fn len(&self, buf: &Vec<u8>) -> (r: usize)
        requires
            self.wf(buf@),
        ensures
            r as int == seq_count(buf@, self.pos as int),
    {
        read_u32(buf, self.pos + 4) as usize
    }

    /// Reads the element at `index`.
    pub fn index(&self, buf: &Vec<u8>, index: usize) -> (r: u32)
        requires
            self.wf(buf@),
            index < seq_count(buf@, self.pos as int),
        ensures
            r == self.elems(buf@)[index as int],
    {
        let w: u32 = read_u32(buf, self.pos);
        let target: usize = match try_offset_target(self.pos, w) {
            Some(t) => t,
            None => {
                proof {
                    assert(false);
                }
                0
            },
        };
        read_u32(buf, target + 4 * index)
    }

    /// Materializes the archived sequence back into a live vector.
    pub fn deserialize(&self, buf: &Vec<u8>) -> (r: Vec<u32>)
        requires
            self.wf(buf@),
        ensures
            r@ =~= self.elems(buf@),
    {
        let n: usize = self.len(buf);
        let mut r: Vec<u32> = Vec::new();
        let mut i: usize = 0;
        while i < n
            invariant
                self.wf(buf@),
                n as int == seq_count(buf@, self.pos as int),
                i <= n,
                r@.len() == i,
                forall|k: int| 0 <= k < i ==> r@[k] == self.elems(buf@)[k],
            decreases n - i,
        {
            r.push(self.index(buf, i));
            i = i + 1;
        }
        r
    }

    /// Element-wise comparison of the archived sequence against a live one.
    pub fn eq_elems(&self, buf: &Vec<u8>, other: &Vec<u32>) -> (r: bool)
        requires
            self.wf(buf@),
        ensures
            r == (self.elems(buf@) =~= other@),
    {
        let n: usize = self.len(buf);
        if n != other.len() {
            return false;
        }
        let mut i: usize = 0;
        while i < n
            invariant
                self.wf(buf@),
                n as int == seq_count(buf@, self.pos as int),
                n == other@.len(),
                i <= n,
                forall|k: int| 0 <= k < i ==> self.elems(buf@)[k] == other@[k],
            decreases n - i,
        {
            if self.index(buf, i) != other[i] {
                return false;
            }
            i = i + 1;
        }
        true
    }
}

} // verus!
