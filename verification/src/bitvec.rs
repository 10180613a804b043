//! The archived bit sequence: an archived sequence of 32-bit storage words
//! plus an explicit bit length.  The explicit length is mandatory because the
//! number of meaningful bits is generally not a multiple of the word width;
//! the read path truncates to exactly that many bits, so trailing bits of the
//! last word never leak into the result.

use vstd::prelude::*;
use crate::MAX_LEN;
use crate::bytes::{
    le_bytes, offset_word, u32_at, u32_to_le, read_u32, back_offset_word, lemma_le_bytes_at,
    lemma_offset_word_val, lemma_u32_at_prefix, lemma_prefix_trans, lemma_prefix_extend,
};
use crate::writer::{Writer, WriterExt, WriteError};
use crate::resolve::Archive;
use crate::sequence::{seq_wf, seq_count, seq_target, seq_elems, serialize_elements, VecResolver, ArchivedVec};

verus! {

/// True if bit `i` of word `w` is set (least significant bit first).
pub open spec fn nth_bit(w: u32, i: u32) -> bool
    recommends
        i < 32,
{
    (w >> i) & 1 == 1
}

/// The number of 32-bit words needed to store `n` bits.
pub open spec fn word_count(n: int) -> int {
    (n + 31) / 32
}

/// Declared bit length of the bit-sequence record at `pos`.
pub open spec fn bv_len(buf: Seq<u8>, pos: int) -> int {
    u32_at(buf, pos + 8) as int
}

/// Well-formedness of a bit-sequence record at `pos`: a well-formed word
/// sequence, and a declared bit length within the storage's bit capacity.
pub open spec fn bv_wf(buf: Seq<u8>, pos: int) -> bool {
    &&& seq_wf(buf, pos)
    &&& pos + 12 <= buf.len()
    &&& bv_len(buf, pos) <= 32 * seq_count(buf, pos)
}

/// The bits denoted by the bit-sequence record at `pos`: exactly the first
/// `bv_len` bits of the word storage.
pub open spec fn bv_bits(buf: Seq<u8>, pos: int) -> Seq<bool> {
    Seq::new(
        bv_len(buf, pos) as nat,
        |i: int| nth_bit(seq_elems(buf, pos)[i / 32], (i % 32) as u32),
    )
}

/// Setting one bit leaves every other bit unchanged.
proof fn lemma_set_bit(w: u32, b: u32)
    by (bit_vector)
    requires
        b < 32,
    ensures
        nth_bit(w | (1u32 << b), b),
        forall|k: u32| k < 32 && k != b ==> nth_bit(w | (1u32 << b), k) == nth_bit(w, k),
{
}

/// The zero word has no bits set.
proof fn lemma_zero_bits()
    by (bit_vector)
    ensures
        forall|k: u32| !nth_bit(0u32, k),
{
}

/// Packs bits into 32-bit storage words, least significant bit first.
fn pack_words(bits: &Vec<bool>) -> (ws: Vec<u32>)
    requires
        bits@.len() <= MAX_LEN,
    ensures
        ws@.len() == word_count(bits@.len() as int),
        forall|i: int|
            0 <= i < bits@.len() ==> #[trigger] nth_bit(ws@[i / 32], (i % 32) as u32) == bits@[i],
{
    let n: usize = bits.len();
    let wc: usize = (n + 31) / 32;
    let mut ws: Vec<u32> = Vec::new();
    let mut j: usize = 0;
    while j < wc
        invariant
            n == bits@.len(),
            n <= MAX_LEN,
            wc == word_count(n as int),
            j <= wc,
            ws@.len() == j,
            forall|i: int|
                0 <= i < n && i / 32 < j ==> #[trigger] nth_bit(ws@[i / 32], (i % 32) as u32)
                    == bits@[i],
        decreases wc - j,
    {
        proof {
            vstd::arithmetic::div_mod::lemma_fundamental_div_mod(n as int + 31, 32);
            assert(32 * j < n);
        }
        let mut w: u32 = 0;
        let mut b: usize = 0;
        proof {
            lemma_zero_bits();
        }
        while b < 32 && 32 * j + b < n
            invariant
                n == bits@.len(),
                n <= MAX_LEN,
                j < wc,
                wc == word_count(n as int),
                b <= 32,
                32 * j < n,
                forall|k: int|
                    0 <= k < b && 32 * j + k < n ==> #[trigger] nth_bit(w, k as u32) == bits@[32
                        * j + k],
                forall|k: u32| b <= k < 32 ==> !nth_bit(w, k),
            decreases 32 - b,
        {
            let ghost wprev = w;
            let set: bool = bits[32 * j + b];
            if set {
                w = w | (1u32 << (b as u32));
                proof {
                    lemma_set_bit(wprev, b as u32);
                }
            }
            proof {
                assert forall|k: int|
                    0 <= k < b + 1 && 32 * j + k < n implies #[trigger] nth_bit(w, k as u32)
                    == bits@[32 * j + k] by {
                    if k == b {
                        if !set {
                            assert(!nth_bit(w, b as u32));
                        }
                    } else {
                        assert(nth_bit(w, k as u32) == nth_bit(wprev, k as u32));
                    }
                }
                assert forall|k: u32| b + 1 <= k < 32 implies !nth_bit(w, k) by {
                    assert(nth_bit(w, k) == nth_bit(wprev, k));
                }
            }
            b = b + 1;
        }
        ws.push(w);
        j = j + 1;
        proof {
            assert forall|i: int| 0 <= i < n && i / 32 < j implies #[trigger] nth_bit(
                ws@[i / 32],
                (i % 32) as u32,
            ) == bits@[i] by {
                vstd::arithmetic::div_mod::lemma_fundamental_div_mod(i, 32);
                if i / 32 == j - 1 {
                    assert(i == 32 * (j - 1) + (i % 32));
                }
            }
        }
    }
    ws
}

impl Archive for Vec<bool> {
    type Resolver = VecResolver;

    open spec fn archived_align(&self) -> int {
        4
    }

    fn record_align(&self) -> (r: usize) {
        4
    }

    open spec fn resolver_wf(&self, pos: int, resolver: VecResolver) -> bool {
        &&& resolver.pos as int % 4 == 0
        &&& resolver.pos + 4 * word_count(self@.len() as int) <= pos
        &&& pos <= MAX_LEN
        &&& self@.len() <= MAX_LEN
    }

    open spec fn archived(&self, pos: int, resolver: VecResolver) -> Seq<u8> {
        le_bytes(offset_word(resolver.pos - pos)) + le_bytes(
            word_count(self@.len() as int) as u32,
        ) + le_bytes(self@.len() as u32)
    }

    fn resolve(&self, pos: usize, resolver: VecResolver) -> (out: Vec<u8>) {
        let wc: usize = (self.len() + 31) / 32;
        let w: u32 = back_offset_word(pos, resolver.pos);
        let mut out: Vec<u8> = u32_to_le(w);
        let mut count: Vec<u8> = u32_to_le(wc as u32);
        out.append(&mut count);
        let mut blen: Vec<u8> = u32_to_le(self.len() as u32);
        out.append(&mut blen);
        assert(out@ =~= self.archived(pos as int, resolver));
        out
    }
}

/// Serializes a sequence of bits: the packed storage words first, then a
/// record holding a relative pointer to them, the word count, and the exact
/// bit length.  Returns the position of the record.
#[verifier::rlimit(100)]
pub fn serialize_bit_sequence<W: Writer>(bits: &Vec<bool>, serializer: &mut W) -> (r: Result<
    usize,
    WriteError,
>)
    requires
        old(serializer).written().len() <= MAX_LEN,
        bits@.len() <= MAX_LEN,
    ensures
        old(serializer).written().is_prefix_of(final(serializer).written()),
        r is Err ==> r->Err_0 == WriteError::SinkFull,
        old(serializer).accepts(15 + 4 * word_count(bits@.len() as int)) ==> r is Ok,
        r is Ok ==> ({
            let buf = final(serializer).written();
            let pos = r.unwrap() as int;
            let base = old(serializer).written().len() as int;
            &&& pos == base + crate::writer::pad_len(base, 4) + 4 * word_count(bits@.len() as int)
            &&& buf.subrange(base, base + crate::writer::pad_len(base, 4)) =~= crate::bytes::zeros(
                crate::writer::pad_len(base, 4) as nat,
            )
            &&& pos + 12 == buf.len()
            &&& bv_wf(buf, pos)
            &&& seq_target(buf, pos) == base + crate::writer::pad_len(base, 4)
            &&& bv_bits(buf, pos) =~= bits@
        }),
{
    let ghost n = bits@.len() as int;
    let ghost wc = word_count(n);
    let words: Vec<u32> = pack_words(bits);
    let res: VecResolver = match serialize_elements(&words, serializer) {
        Ok(res) => res,
        Err(e) => {
            proof {
                if old(serializer).accepts(15 + 4 * wc) {
                    old(serializer).accepts_mono(3 + 4 * wc, 15 + 4 * wc);
                }
            }
            return Err(e);
        },
    };
    let ghost mid = serializer.written();
    let ghost rpos = res.pos as int;
    proof {
        serializer.pos_is_len();
    }
    let pos: usize = match serializer.resolve_aligned(bits, res) {
        Ok(p) => p,
        Err(e) => {
            proof {
                if old(serializer).accepts(15 + 4 * wc) {
                    assert(serializer.accepts(12int));
                }
            }
            return Err(e);
        },
    };
    proof {
        let buf = serializer.written();
        assert(mid.is_prefix_of(buf)) by {
            lemma_prefix_extend(mid, buf.subrange(mid.len() as int, buf.len() as int));
            assert(mid + buf.subrange(mid.len() as int, buf.len() as int) =~= buf);
        }
        lemma_prefix_trans(old(serializer).written(), mid, buf);
        lemma_bv_record(buf, pos as int, mid, rpos, words@, bits@);
    }
    Ok(pos)
}

/// Decodes the freshly written bit-sequence record: the buffer is the
/// payload prefix followed by the twelve record bytes, so the record is
/// well-formed and denotes exactly the packed bits.
proof fn lemma_bv_record(buf: Seq<u8>, pos: int, mid: Seq<u8>, rpos: int, words: Seq<u32>, bits: Seq<bool>)
    requires
        buf =~= mid + (le_bytes(offset_word(rpos - pos)) + le_bytes(
            word_count(bits.len() as int) as u32,
        ) + le_bytes(bits.len() as u32)),
        pos == mid.len(),
        pos % 4 == 0,
        0 <= rpos,
        rpos as int % 4 == 0,
        rpos + 4 * word_count(bits.len() as int) <= pos,
        buf.len() <= MAX_LEN,
        bits.len() <= MAX_LEN,
        words.len() == word_count(bits.len() as int),
        forall|k: int| 0 <= k < words.len() ==> u32_at(mid, rpos + 4 * k) == words[k],
        forall|i: int|
            0 <= i < bits.len() ==> #[trigger] nth_bit(words[i / 32], (i % 32) as u32) == bits[i],
    ensures
        bv_wf(buf, pos),
        bv_len(buf, pos) == bits.len(),
        bv_bits(buf, pos) =~= bits,
        seq_target(buf, pos) == rpos,
        pos + 12 == buf.len(),
{
    let n = bits.len() as int;
    let wc = word_count(n);
    let w1 = offset_word(rpos - pos);
    assert(mid.is_prefix_of(buf)) by {
        lemma_prefix_extend(mid, buf.subrange(mid.len() as int, buf.len() as int));
        assert(mid + buf.subrange(mid.len() as int, buf.len() as int) =~= buf);
    }
    assert(buf.subrange(pos, pos + 4) =~= le_bytes(w1));
    lemma_le_bytes_at(buf, pos, w1);
    lemma_offset_word_val(rpos - pos);
    assert(seq_target(buf, pos) == rpos);
    assert(buf.subrange(pos + 4, pos + 8) =~= le_bytes(wc as u32));
    lemma_le_bytes_at(buf, pos + 4, wc as u32);
    assert(seq_count(buf, pos) == wc);
    assert(buf.subrange(pos + 8, pos + 12) =~= le_bytes(n as u32));
    lemma_le_bytes_at(buf, pos + 8, n as u32);
    assert(bv_len(buf, pos) == n);
    assert(n <= 32 * wc) by {
        vstd::arithmetic::div_mod::lemma_fundamental_div_mod(n + 31, 32);
    }
    assert(seq_wf(buf, pos));
    assert forall|k: int| 0 <= k < wc implies u32_at(buf, rpos + 4 * k) == words[k] by {
        lemma_u32_at_prefix(mid, buf, rpos + 4 * k);
    }
    assert(seq_elems(buf, pos) =~= words);
    lemma_bits_match(buf, pos, words, bits);
}

/// The bits a well-formed record denotes are exactly the packed bits of its
/// word storage.
proof fn lemma_bits_match(buf: Seq<u8>, pos: int, words: Seq<u32>, bits: Seq<bool>)
    requires
        seq_wf(buf, pos),
        seq_elems(buf, pos) =~= words,
        bv_len(buf, pos) == bits.len(),
        words.len() == seq_count(buf, pos),
        bits.len() <= 32 * seq_count(buf, pos),
        forall|i: int|
            0 <= i < bits.len() ==> #[trigger] nth_bit(words[i / 32], (i % 32) as u32) == bits[i],
    ensures
        bv_bits(buf, pos) =~= bits,
{
    assert forall|i: int| 0 <= i < bits.len() implies bv_bits(buf, pos)[i] == bits[i] by {
        vstd::arithmetic::div_mod::lemma_fundamental_div_mod(i, 32);
        assert(i / 32 < seq_count(buf, pos)) by {
            assert(32 * (i / 32) + i % 32 == i);
        }
        assert(seq_elems(buf, pos)[i / 32] == words[i / 32]);
        assert(nth_bit(words[i / 32], (i % 32) as u32) == bits[i]);
    }
    assert(bv_bits(buf, pos) =~= bits);
}

/// A typed view of an archived bit sequence: the position of its record
/// inside some buffer.
#[derive(Clone, Copy, Debug, PartialEq, Eq, Structural)]
pub struct ArchivedBitVec {
    /// Position of the bit-sequence record.
    pub pos: usize,
}

impl ArchivedBitVec {
    /// Well-formedness of the viewed record in `buf`.
    pub open spec fn wf(&self, buf: Seq<u8>) -> bool {
        bv_wf(buf, self.pos as int)
    }

    /// The bits the view denotes in `buf`.
    pub open spec fn bits(&self, buf: Seq<u8>) -> Seq<bool> {
        bv_bits(buf, self.pos as int)
    }

    /// Creates a view of the record at `pos`.
    pub fn new(pos: usize) -> (r: ArchivedBitVec)
        ensures
            r.pos == pos,
    {
        ArchivedBitVec { pos }
    }

    /// Number of meaningful bits.
    pub fn len(&self, buf: &Vec<u8>) -> (r: usize)
        requires
            self.wf(buf@),
        ensures
            r as int == bv_len(buf@, self.pos as int),
    {
        read_u32(buf, self.pos + 8) as usize
    }

    /// Reads bit `index`.
    pub fn index(&self, buf: &Vec<u8>, index: usize) -> (r: bool)
        requires
            self.wf(buf@),
            index < bv_len(buf@, self.pos as int),
        ensures
            r == self.bits(buf@)[index as int],
    {
        proof {
            vstd::arithmetic::div_mod::lemma_fundamental_div_mod(index as int, 32);
            assert(index as int / 32 < seq_count(buf@, self.pos as int)) by {
                assert(32 * (index as int / 32) + index as int % 32 == index as int);
            }
        }
        let word: u32 = ArchivedVec::new(self.pos).index(buf, index / 32);
        (word >> ((index % 32) as u32)) & 1 == 1
    }

    /// Materializes the archived bit sequence back into a live vector.
    pub fn deserialize(&self, buf: &Vec<u8>) -> (r: Vec<bool>)
        requires
            self.wf(buf@),
        ensures
            r@ =~= self.bits(buf@),
    {
        let n: usize = self.len(buf);
        let mut r: Vec<bool> = Vec::new();
        let mut i: usize = 0;
        while i < n
            invariant
                self.wf(buf@),
                n as int == bv_len(buf@, self.pos as int),
                i <= n,
                r@.len() == i,
                forall|k: int| 0 <= k < i ==> r@[k] == self.bits(buf@)[k],
            decreases n - i,
        {
            r.push(self.index(buf, i));
            i = i + 1;
        }
        r
    }
}

/// Truncation is the defining property of the bit sequence: what it denotes
/// depends only on the declared bit length and on the meaningful bits of the
/// storage words, never on the trailing bits of the last word.
pub proof fn lemma_bit_truncation(buf1: Seq<u8>, pos1: int, buf2: Seq<u8>, pos2: int)
    requires
        bv_wf(buf1, pos1),
        bv_wf(buf2, pos2),
        bv_len(buf1, pos1) == bv_len(buf2, pos2),
        forall|i: int|
            0 <= i < bv_len(buf1, pos1) ==> #[trigger] nth_bit(
                seq_elems(buf1, pos1)[i / 32],
                (i % 32) as u32,
            ) == nth_bit(seq_elems(buf2, pos2)[i / 32], (i % 32) as u32),
    ensures
        bv_bits(buf1, pos1) =~= bv_bits(buf2, pos2),
{
}

} // verus!
