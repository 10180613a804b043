//! Little-endian words and signed offset words: the primitive fields every
//! archived record is assembled from.

use vstd::prelude::*;
use crate::MAX_LEN;

verus! {

/// A run of `n` zero bytes.
pub open spec fn zeros(n: nat) -> Seq<u8> {
    Seq::new(n, |i: int| 0u8)
}

/// The unsigned 32-bit value stored little-endian at `pos`.
pub open spec fn u32_at(buf: Seq<u8>, pos: int) -> u32
    recommends
        0 <= pos,
        pos + 4 <= buf.len(),
{
    (buf[pos] + buf[pos + 1] * 0x100 + buf[pos + 2] * 0x1_0000 + buf[pos + 3] * 0x100_0000) as u32
}

/// The four little-endian bytes of `v`.
pub open spec fn le_bytes(v: u32) -> Seq<u8> {
    seq![
        (v & 0xff) as u8,
        ((v >> 8) & 0xff) as u8,
        ((v >> 16) & 0xff) as u8,
        ((v >> 24) & 0xff) as u8,
    ]
}

/// The signed value a stored offset word denotes (two's complement).
pub open spec fn offset_val(w: u32) -> int {
    if w < 0x8000_0000 {
        w as int
    } else {
        w as int - 0x1_0000_0000
    }
}

/// The offset word that denotes the signed value `d`.
pub open spec fn offset_word(d: int) -> u32
    recommends
        -0x8000_0000 <= d < 0x8000_0000,
{
    if d >= 0 {
        d as u32
    } else {
        (d + 0x1_0000_0000) as u32
    }
}

/// An offset word decodes to the value it was built from.
pub proof fn lemma_offset_word_val(d: int)
    requires
        -0x8000_0000 <= d < 0x8000_0000,
    ensures
        offset_val(offset_word(d)) == d,
{
}

/// Reading four bytes that spell `le_bytes(v)` yields `v` again.
pub proof fn lemma_le_bytes_at(buf: Seq<u8>, pos: int, v: u32)
    requires
        0 <= pos,
        pos + 4 <= buf.len(),
        buf.subrange(pos, pos + 4) =~= le_bytes(v),
    ensures
        u32_at(buf, pos) == v,
{
    let b0 = (v & 0xff) as u8;
    let b1 = ((v >> 8) & 0xff) as u8;
    let b2 = ((v >> 16) & 0xff) as u8;
    let b3 = ((v >> 24) & 0xff) as u8;
    assert(buf[pos] == b0 && buf[pos + 1] == b1 && buf[pos + 2] == b2 && buf[pos + 3] == b3);
    assert(b0 + b1 * 0x100 + b2 * 0x1_0000 + b3 * 0x100_0000 == v) by (bit_vector)
        requires
            b0 == (v & 0xff) as u8,
            b1 == ((v >> 8) & 0xff) as u8,
            b2 == ((v >> 16) & 0xff) as u8,
            b3 == ((v >> 24) & 0xff) as u8,
    ;
}

/// A word read below the length of a prefix is unchanged by the extension.
pub proof fn lemma_u32_at_prefix(shorter: Seq<u8>, longer: Seq<u8>, pos: int)
    requires
        shorter.is_prefix_of(longer),
        0 <= pos,
        pos + 4 <= shorter.len(),
    ensures
        u32_at(longer, pos) == u32_at(shorter, pos),
{
    assert(longer[pos] == shorter[pos]);
    assert(longer[pos + 1] == shorter[pos + 1]);
    assert(longer[pos + 2] == shorter[pos + 2]);
    assert(longer[pos + 3] == shorter[pos + 3]);
}

/// Being a prefix is transitive.
pub proof fn lemma_prefix_trans(a: Seq<u8>, b: Seq<u8>, c: Seq<u8>)
    requires
        a.is_prefix_of(b),
        b.is_prefix_of(c),
    ensures
        a.is_prefix_of(c),
{
    assert forall|i: int| 0 <= i < a.len() implies a[i] == c[i] by {
        assert(a[i] == b.subrange(0, a.len() as int)[i]);
        assert(b[i] == c.subrange(0, b.len() as int)[i]);
    }
    assert(a =~= c.subrange(0, a.len() as int));
}

/// Appending bytes keeps the original sequence as a prefix.
pub proof fn lemma_prefix_extend(a: Seq<u8>, b: Seq<u8>)
    ensures
        a.is_prefix_of(a + b),
{
    assert(a =~= (a + b).subrange(0, a.len() as int));
}

/// Encodes `v` as its four little-endian bytes.
pub fn u32_to_le(v: u32) -> (r: Vec<u8>)
    ensures
        r@ =~= le_bytes(v),
{
    let mut r: Vec<u8> = Vec::new();
    r.push((v & 0xff) as u8);
    r.push(((v >> 8) & 0xff) as u8);
    r.push(((v >> 16) & 0xff) as u8);
    r.push(((v >> 24) & 0xff) as u8);
    r
}

/// Reads the unsigned 32-bit value stored little-endian at `pos`.
pub fn read_u32(buf: &Vec<u8>, pos: usize) -> (r: u32)
    requires
        pos + 4 <= buf@.len(),
        buf@.len() <= MAX_LEN,
    ensures
        r == u32_at(buf@, pos as int),
{
    let b0: u32 = buf[pos] as u32;
    let b1: u32 = buf[pos + 1] as u32;
    let b2: u32 = buf[pos + 2] as u32;
    let b3: u32 = buf[pos + 3] as u32;
    b0 + b1 * 0x100 + b2 * 0x1_0000 + b3 * 0x100_0000
}

/// Encodes the backward offset `to - from` as an offset word.  Dependents are
/// written before the records that point at them, so producers only ever
/// encode offsets that point backwards.
pub fn back_offset_word(from: usize, to: usize) -> (w: u32)
    requires
        to <= from,
        from - to < 0x8000_0000,
    ensures
        w == offset_word(to - from),
        offset_val(w) == to - from,
{
    if to == from {
        0
    } else {
        let d: u64 = (from - to) as u64;
        let wide: u64 = 0x1_0000_0000u64 - d;
        let w: u32 = wide as u32;
        proof {
            assert(wide < 0x1_0000_0000) by {
                assert(d >= 1);
            }
            assert(wide as u32 == wide) by (bit_vector)
                requires
                    wide < 0x1_0000_0000,
            ;
            lemma_offset_word_val(to as int - from as int);
        }
        w
    }
}

/// The absolute position `pos + offset_val(w)` if it is non-negative.
pub fn try_offset_target(pos: usize, w: u32) -> (r: Option<usize>)
    requires
        pos <= MAX_LEN,
    ensures
        r == (if 0 <= pos + offset_val(w) {
            Some((pos + offset_val(w)) as usize)
        } else {
            None::<usize>
        }),
{
    if w < 0x8000_0000 {
        proof {
            assert(pos + w <= 0x4000_0000 + 0x8000_0000);
        }
        Some(pos + (w as usize))
    } else {
        let delta_wide: u64 = 0x1_0000_0000u64 - (w as u64);
        proof {
            assert(delta_wide <= 0x8000_0000) by (bit_vector)
                requires
                    w >= 0x8000_0000,
                    delta_wide == 0x1_0000_0000u64 - (w as u64),
            ;
        }
        let delta: usize = delta_wide as usize;
        proof {
            assert(delta == delta_wide);
            assert(pos + offset_val(w) == pos - delta);
        }
        if delta <= pos {
            Some(pos - delta)
        } else {
            None
        }
    }
}

} // verus!
