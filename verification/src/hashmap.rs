//! The archived associative map.  At serialize time a collision-free bucket
//! placement is precomputed for the exact key set as a displacement table:
//! keys are grouped into buckets by their low sixteen bits, every bucket is
//! assigned a displacement into one shared slot array, and a key's slot is
//! its bucket's displacement plus the key's high sixteen bits.  Keys of one
//! bucket differ in their high bits, so they never collide with each other,
//! and first-fit displacement packs buckets around one another — placing a
//! bucket after everything already occupied always works, so the
//! construction succeeds for every distinct key set within the size bound.
//! A lookup hashes the query key, reads one displacement, one slot, and
//! compares a single stored key — no probing and no rehashing at load time.
//!
//! Archived record: relative pointers to the entries, the slot array and the
//! displacement table, the entry count, and the slot array length.

use vstd::prelude::*;
use vstd::std_specs::hash::group_hash_axioms;
use vstd::map::*;
use std::collections::HashMap;
use crate::MAX_LEN;
use crate::bytes::{
    le_bytes, offset_val, offset_word, u32_at, u32_to_le, read_u32, back_offset_word,
    try_offset_target, lemma_u32_at_prefix, lemma_prefix_trans,
};
use crate::writer::{Writer, WriterExt, WriteError};
use crate::resolve::Archive;
use crate::sequence::{serialize_elements, VecResolver};

verus! {

broadcast use group_hash_axioms;

/// The slot word marking a slot with no entry.
pub const SLOT_EMPTY: u32 = 0xffff_ffff;

/// Number of displacement-table buckets: one per value of a key's low
/// sixteen bits.
pub const DISP_LEN: usize = 0x10000;

/// Largest entry count a map may hold; it bounds the slot array by
/// `0x10000 * MAX_ENTRIES` words, which still fits the address space.
pub const MAX_ENTRIES: usize = 0x1000;

/// The bucket of a key: its low sixteen bits.
pub open spec fn bucket_of(k: u32) -> int {
    (k & 0xffff) as int
}

/// The column of a key within its bucket: its high sixteen bits.
pub open spec fn quot_of(k: u32) -> int {
    (k >> 16) as int
}

/// Buckets and columns are sixteen-bit values, and together they determine
/// the key.
proof fn lemma_bucket_quot(k1: u32, k2: u32)
    by (bit_vector)
    ensures
        k1 & 0xffff < 0x10000,
        k1 >> 16 < 0x10000,
        (k1 & 0xffff == k2 & 0xffff && k1 >> 16 == k2 >> 16) ==> k1 == k2,
{
}

/// Absolute position of the entries of the map record at `pos`.
pub open spec fn map_etarget(buf: Seq<u8>, pos: int) -> int {
    pos + offset_val(u32_at(buf, pos))
}

/// Absolute position of the slot array of the map record at `pos`.
pub open spec fn map_starget(buf: Seq<u8>, pos: int) -> int {
    pos + offset_val(u32_at(buf, pos + 4))
}

/// Absolute position of the displacement table of the map record at `pos`.
pub open spec fn map_dtarget(buf: Seq<u8>, pos: int) -> int {
    pos + offset_val(u32_at(buf, pos + 8))
}

/// Entry count of the map record at `pos`.
pub open spec fn map_count(buf: Seq<u8>, pos: int) -> int {
    u32_at(buf, pos + 12) as int
}

/// Slot array length of the map record at `pos`.
pub open spec fn map_slen(buf: Seq<u8>, pos: int) -> int {
    u32_at(buf, pos + 16) as int
}

/// Key of entry `j` of the map record at `pos`.
pub open spec fn map_key(buf: Seq<u8>, pos: int, j: int) -> u32 {
    u32_at(buf, map_etarget(buf, pos) + 8 * j)
}

/// Value of entry `j` of the map record at `pos`.
pub open spec fn map_val(buf: Seq<u8>, pos: int, j: int) -> u32 {
    u32_at(buf, map_etarget(buf, pos) + 8 * j + 4)
}

/// Slot word `s` of the map record at `pos`.
pub open spec fn map_slot(buf: Seq<u8>, pos: int, s: int) -> u32 {
    u32_at(buf, map_starget(buf, pos) + 4 * s)
}

/// Displacement of bucket `b` of the map record at `pos`.
pub open spec fn map_disp(buf: Seq<u8>, pos: int, b: int) -> u32 {
    u32_at(buf, map_dtarget(buf, pos) + 4 * b)
}

/// The slot a key hashes to: its bucket's displacement plus its column.
pub open spec fn slot_of(buf: Seq<u8>, pos: int, k: u32) -> int {
    map_disp(buf, pos, bucket_of(k)) + quot_of(k)
}

/// Well-formedness of a map record at `pos`: the three regions in bounds and
/// aligned, every slot word empty or a valid entry index, and every entry
/// registered in its own key's slot.
pub open spec fn map_wf(buf: Seq<u8>, pos: int) -> bool {
    &&& 0 <= pos
    &&& pos % 4 == 0
    &&& pos + 20 <= buf.len()
    &&& buf.len() <= MAX_LEN
    &&& 0 <= map_etarget(buf, pos)
    &&& map_etarget(buf, pos) % 4 == 0
    &&& map_etarget(buf, pos) + 8 * map_count(buf, pos) <= buf.len()
    &&& 0 <= map_starget(buf, pos)
    &&& map_starget(buf, pos) % 4 == 0
    &&& map_starget(buf, pos) + 4 * map_slen(buf, pos) <= buf.len()
    &&& 0 <= map_dtarget(buf, pos)
    &&& map_dtarget(buf, pos) % 4 == 0
    &&& map_dtarget(buf, pos) + 4 * (DISP_LEN as int) <= buf.len()
    &&& (forall|s: int|
        0 <= s < map_slen(buf, pos) ==> #[trigger] map_slot(buf, pos, s) == SLOT_EMPTY || (
        map_slot(buf, pos, s) as int) < map_count(buf, pos))
    &&& (forall|j: int|
        0 <= j < map_count(buf, pos) ==> slot_of(buf, pos, #[trigger] map_key(buf, pos, j))
            < map_slen(buf, pos) && map_slot(buf, pos, slot_of(buf, pos, map_key(buf, pos, j)))
            as int == j)
}

/// Whether some entry of the map record at `pos` has key `k`.
pub open spec fn map_has_key(buf: Seq<u8>, pos: int, k: u32) -> bool {
    exists|j: int| 0 <= j < map_count(buf, pos) && map_key(buf, pos, j) == k
}

/// The index of the entry with key `k`.
pub open spec fn map_index_of(buf: Seq<u8>, pos: int, k: u32) -> int {
    choose|j: int| 0 <= j < map_count(buf, pos) && map_key(buf, pos, j) == k
}

/// The key-to-value mapping the map record at `pos` denotes.
pub open spec fn map_contents(buf: Seq<u8>, pos: int) -> Map<u32, u32> {
    Map::new(
        |k: u32| map_has_key(buf, pos, k),
        |k: u32| map_val(buf, pos, map_index_of(buf, pos, k)),
    )
}

/// Pairwise distinct keys.
pub open spec fn distinct_keys(entries: Seq<(u32, u32)>) -> bool {
    forall|i: int, j: int| 0 <= i < j < entries.len() ==> entries[i].0 != entries[j].0
}

/// The key-to-value mapping a list of entries denotes.
pub open spec fn entries_map(entries: Seq<(u32, u32)>) -> Map<u32, u32> {
    Map::new(
        |k: u32| exists|i: int| 0 <= i < entries.len() && entries[i].0 == k,
        |k: u32| entries[choose|i: int| 0 <= i < entries.len() && entries[i].0 == k].1,
    )
}

/// How many entries fall in a bucket below `b`.
pub open spec fn count_below(entries: Seq<(u32, u32)>, b: int) -> int
    decreases entries.len(),
{
    if entries.len() == 0 {
        0
    } else {
        count_below(entries.drop_last(), b) + if bucket_of(entries.last().0) < b {
            1int
        } else {
            0int
        }
    }
}

/// The count below a bound never shrinks as the bound grows and never
/// exceeds the entry count.
proof fn lemma_count_below(entries: Seq<(u32, u32)>, b: int)
    ensures
        0 <= count_below(entries, b) <= entries.len(),
        count_below(entries, b) <= count_below(entries, b + 1),
    decreases entries.len(),
{
    if entries.len() > 0 {
        lemma_count_below(entries.drop_last(), b);
    }
}

/// A bucket that holds an entry pushes the count up when the bound passes it.
proof fn lemma_count_below_witness(entries: Seq<(u32, u32)>, b: int, j: int)
    requires
        0 <= j < entries.len(),
        bucket_of(entries[j].0) == b,
    ensures
        count_below(entries, b + 1) >= count_below(entries, b) + 1,
    decreases entries.len(),
{
    lemma_count_below(entries.drop_last(), b);
    if j == entries.len() - 1 {
    } else {
        lemma_count_below_witness(entries.drop_last(), b, j);
    }
}

/// Interleaves keys and values into one word sequence.
fn flatten_entries(entries: &Vec<(u32, u32)>) -> (flat: Vec<u32>)
    requires
        entries@.len() <= MAX_ENTRIES,
    ensures
        flat@.len() == 2 * entries@.len(),
        forall|j: int|
            0 <= j < entries@.len() ==> flat@[2 * j] == #[trigger] entries@[j].0,
        forall|j: int|
            0 <= j < entries@.len() ==> flat@[2 * j + 1] == #[trigger] entries@[j].1,
{
    let mut flat: Vec<u32> = Vec::new();
    let mut i: usize = 0;
    while i < entries.len()
        invariant
            i <= entries@.len(),
            entries@.len() <= MAX_ENTRIES,
            flat@.len() == 2 * i,
            forall|j: int|
                0 <= j < i ==> flat@[2 * j] == #[trigger] entries@[j].0 && flat@[2 * j + 1]
                    == entries@[j].1,
        decreases entries@.len() - i,
    {
        let pair: (u32, u32) = entries[i];
        let ghost preflat = flat@;
        flat.push(pair.0);
        flat.push(pair.1);
        proof {
            assert forall|j: int|
                0 <= j < i + 1 implies flat@[2 * j] == #[trigger] entries@[j].0 && flat@[2 * j + 1]
                == entries@[j].1 by {
                if j < i {
                    assert(flat@[2 * j] == preflat[2 * j]);
                    assert(flat@[2 * j + 1] == preflat[2 * j + 1]);
                } else {
                    assert(flat@[2 * i] == pair.0);
                    assert(flat@[2 * i + 1] == pair.1);
                }
            }
        }
        i = i + 1;
    }
    proof {
        assert forall|j: int|
            0 <= j < entries@.len() implies flat@[2 * j + 1] == #[trigger] entries@[j].1 by {
            assert(flat@[2 * j] == entries@[j].0);
        }
    }
    flat
}

/// Whether bucket `b`, displaced by `d`, fits into the current slot array:
/// every cell of the bucket lands on an empty slot or past the end.
fn fits_at(entries: &Vec<(u32, u32)>, b: usize, d: usize, slots: &Vec<u32>) -> (r: bool)
    requires
        d <= slots@.len(),
        slots@.len() <= 0x1000_0000,
    ensures
        r == (forall|j: int|
            0 <= j < entries@.len() && bucket_of(#[trigger] entries@[j].0) == b ==> (d
                + quot_of(entries@[j].0) >= slots@.len() || slots@[d + quot_of(entries@[j].0)]
                == SLOT_EMPTY)),
{
    let mut j: usize = 0;
    while j < entries.len()
        invariant
            j <= entries@.len(),
            d <= slots@.len(),
            slots@.len() <= 0x1000_0000,
            forall|i: int|
                0 <= i < j && bucket_of(#[trigger] entries@[i].0) == b ==> (d + quot_of(
                    entries@[i].0,
                ) >= slots@.len() || slots@[d + quot_of(entries@[i].0)] == SLOT_EMPTY),
        decreases entries@.len() - j,
    {
        let k: u32 = entries[j].0;
        proof {
            lemma_bucket_quot(k, k);
        }
        if (k as usize) & 0xffff == b {
            let q: usize = (k as usize) >> 16;
            proof {
                assert(q == quot_of(k) && (k as usize) & 0xffff == bucket_of(k)) by (bit_vector)
                    requires
                        q == (k as usize) >> 16,
                ;
            }
            if d + q < slots.len() && slots[d + q] != SLOT_EMPTY {
                return false;
            }
        } else {
            proof {
                assert((k as usize) & 0xffff == bucket_of(k)) by (bit_vector);
            }
        }
        j = j + 1;
    }
    true
}

/// Writes every entry of bucket `b` into the slot array at displacement `d`,
/// growing the array as needed.  Occupied slots are never overwritten.
fn place_bucket(entries: &Vec<(u32, u32)>, b: usize, d: usize, slots: &mut Vec<u32>)
    requires
        distinct_keys(entries@),
        entries@.len() < SLOT_EMPTY,
        d <= old(slots)@.len(),
        old(slots)@.len() <= 0x1000_0000,
        forall|j: int|
            0 <= j < entries@.len() && bucket_of(#[trigger] entries@[j].0) == b ==> (d + quot_of(
                entries@[j].0,
            ) >= old(slots)@.len() || old(slots)@[d + quot_of(entries@[j].0)] == SLOT_EMPTY),
        forall|s: int|
            0 <= s < old(slots)@.len() ==> #[trigger] old(slots)@[s] == SLOT_EMPTY || (old(slots)@[s] as int) < entries@.len(),
    ensures
        old(slots)@.len() <= final(slots)@.len(),
        final(slots)@.len() <= old(slots)@.len() + 0x10000,
        forall|s: int|
            0 <= s < old(slots)@.len() && old(slots)@[s] != SLOT_EMPTY ==> #[trigger] final(slots)@[s] == old(slots)@[s],
        forall|s: int|
            0 <= s < final(slots)@.len() ==> #[trigger] final(slots)@[s] == SLOT_EMPTY || (final(slots)@[s] as int) < entries@.len(),
        forall|j: int|
            0 <= j < entries@.len() && bucket_of(#[trigger] entries@[j].0) == b ==> d + quot_of(
                entries@[j].0,
            ) < final(slots)@.len() && final(slots)@[d + quot_of(entries@[j].0)] as int == j,
{
    let ghost orig = old(slots)@;
    let mut j: usize = 0;
    while j < entries.len()
        invariant
            distinct_keys(entries@),
            entries@.len() < SLOT_EMPTY,
            j <= entries@.len(),
            d <= orig.len(),
            orig.len() <= 0x1000_0000,
            orig.len() <= slots@.len(),
            slots@.len() <= orig.len() + 0x10000,
            forall|s: int|
                0 <= s < orig.len() && orig[s] != SLOT_EMPTY ==> #[trigger] slots@[s] == orig[s],
            forall|s: int|
                0 <= s < slots@.len() ==> #[trigger] slots@[s] == SLOT_EMPTY || (slots@[s] as int)
                    < entries@.len(),
            forall|i: int|
                0 <= i < j && bucket_of(#[trigger] entries@[i].0) == b ==> d + quot_of(
                    entries@[i].0,
                ) < slots@.len() && slots@[d + quot_of(entries@[i].0)] as int == i,
            forall|i: int|
                j <= i < entries@.len() && bucket_of(#[trigger] entries@[i].0) == b ==> (d
                    + quot_of(entries@[i].0) >= slots@.len() || slots@[d + quot_of(entries@[i].0)]
                    == SLOT_EMPTY),
        decreases entries@.len() - j,
    {
        let k: u32 = entries[j].0;
        proof {
            lemma_bucket_quot(k, k);
            assert((k as usize) & 0xffff == bucket_of(k) && (k as usize) >> 16 == quot_of(k)
                && (k as usize) >> 16 < 0x10000) by (bit_vector);
        }
        if (k as usize) & 0xffff == b {
            let q: usize = (k as usize) >> 16;
            let ghost pre = slots@;
            while slots.len() < d + q + 1
                invariant
                    q < 0x10000,
                    d <= orig.len(),
                    orig.len() <= 0x1000_0000,
                    pre.len() <= slots@.len(),
                    slots@.len() <= pre.len() || slots@.len() <= d + q + 1,
                    forall|s: int| 0 <= s < pre.len() ==> #[trigger] slots@[s] == pre[s],
                    forall|s: int| pre.len() <= s < slots@.len() ==> #[trigger] slots@[s]
                        == SLOT_EMPTY,
                decreases d + q + 1 - slots@.len(),
            {
                slots.push(SLOT_EMPTY);
            }
            let ghost grown = slots@;
            slots[d + q] = j as u32;
            proof {
                assert forall|i: int|
                    0 <= i < j + 1 && bucket_of(#[trigger] entries@[i].0) == b implies d + quot_of(
                    entries@[i].0,
                ) < slots@.len() && slots@[d + quot_of(entries@[i].0)] as int == i by {
                    if i < j {
                        assert(quot_of(entries@[i].0) != quot_of(entries@[j as int].0)) by {
                            lemma_bucket_quot(entries@[i].0, entries@[j as int].0);
                        }
                        assert(slots@[d + quot_of(entries@[i].0)] == grown[d + quot_of(
                            entries@[i].0,
                        )]);
                        assert(grown[d + quot_of(entries@[i].0)] == pre[d + quot_of(
                            entries@[i].0,
                        )]);
                    }
                }
                assert forall|i: int|
                    j + 1 <= i < entries@.len() && bucket_of(#[trigger] entries@[i].0) == b
                    implies (d + quot_of(entries@[i].0) >= slots@.len() || slots@[d + quot_of(
                    entries@[i].0,
                )] == SLOT_EMPTY) by {
                    if d + quot_of(entries@[i].0) < slots@.len() {
                        assert(quot_of(entries@[i].0) != quot_of(entries@[j as int].0)) by {
                            lemma_bucket_quot(entries@[i].0, entries@[j as int].0);
                        }
                        if d + quot_of(entries@[i].0) < pre.len() {
                            assert(slots@[d + quot_of(entries@[i].0)] == pre[d + quot_of(
                                entries@[i].0,
                            )]);
                        } else {
                            assert(grown[d + quot_of(entries@[i].0)] == SLOT_EMPTY);
                        }
                    }
                }
                assert forall|s: int|
                    0 <= s < orig.len() && orig[s] != SLOT_EMPTY implies #[trigger] slots@[s]
                    == orig[s] by {
                    assert(pre[s] == orig[s]);
                    assert(grown[s] == pre[s]);
                    if s == d + q {
                        assert(pre[s] == SLOT_EMPTY);
                    }
                }
            }
        }
        j = j + 1;
    }
}

/// Computes the displacement table and slot array for the exact key set by
/// first-fit displacement, bucket by bucket.  Placing a bucket past
/// everything already occupied always fits, so the construction succeeds for
/// every distinct key set.
fn build_tables(entries: &Vec<(u32, u32)>) -> (r: (Vec<u32>, Vec<u32>))
    requires
        distinct_keys(entries@),
        entries@.len() <= MAX_ENTRIES,
    ensures
        r.0@.len() == DISP_LEN,
        r.1@.len() <= 0x10000 * entries@.len(),
        forall|s: int|
            0 <= s < r.1@.len() ==> #[trigger] r.1@[s] == SLOT_EMPTY || (r.1@[s] as int)
                < entries@.len(),
        forall|j: int|
            0 <= j < entries@.len() ==> ({
                let sl = r.0@[bucket_of(#[trigger] entries@[j].0)] as int + quot_of(
                    entries@[j].0,
                );
                sl < r.1@.len() && r.1@[sl] as int == j
            }),
{
    let ghost n = entries@.len() as int;
    let mut disp: Vec<u32> = Vec::new();
    while disp.len() < DISP_LEN
        invariant
            disp@.len() <= DISP_LEN,
            forall|t: int| 0 <= t < disp@.len() ==> #[trigger] disp@[t] == 0u32,
        decreases DISP_LEN - disp@.len(),
    {
        disp.push(0u32);
    }
    let mut slots: Vec<u32> = Vec::new();
    proof {
        lemma_count_below(entries@, 0);
    }
    let mut b: usize = 0;
    while b < DISP_LEN
        invariant
            n == entries@.len() as int,
            n <= MAX_ENTRIES,
            distinct_keys(entries@),
            disp@.len() == DISP_LEN,
            b <= DISP_LEN,
            slots@.len() <= 0x10000 * count_below(entries@, b as int),
            forall|s: int|
                0 <= s < slots@.len() ==> #[trigger] slots@[s] == SLOT_EMPTY || (slots@[s] as int)
                    < n,
            forall|j: int|
                0 <= j < n && bucket_of(#[trigger] entries@[j].0) < b ==> ({
                    let sl = disp@[bucket_of(entries@[j].0)] as int + quot_of(entries@[j].0);
                    sl < slots@.len() && slots@[sl] as int == j
                }),
        decreases DISP_LEN - b,
    {
        proof {
            lemma_count_below(entries@, b as int);
        }
        let mut any: bool = false;
        let mut j0: usize = 0;
        let ghost witness: int = 0;
        while j0 < entries.len()
            invariant
                j0 <= entries@.len(),
                any ==> 0 <= witness < entries@.len() && bucket_of(entries@[witness].0)
                    == b as int,
                !any ==> forall|i: int|
                    0 <= i < j0 ==> bucket_of(#[trigger] entries@[i].0) != b as int,
            decreases entries@.len() - j0,
        {
            let k: u32 = entries[j0].0;
            proof {
                assert((k as usize) & 0xffff == bucket_of(k)) by (bit_vector);
            }
            if (k as usize) & 0xffff == b {
                any = true;
                proof {
                    witness = j0 as int;
                }
            }
            j0 = j0 + 1;
        }
        if any {
            proof {
                assert(slots@.len() <= 0x1000_0000) by {
                    assert(count_below(entries@, b as int) <= n);
                }
            }
            let mut d: usize = 0;
            while !fits_at(entries, b, d, &slots)
                invariant
                    d <= slots@.len(),
                    slots@.len() <= 0x1000_0000,
                decreases slots@.len() - d,
            {
                proof {
                    if d == slots@.len() {
                        assert(false);
                    }
                }
                d = d + 1;
            }
            let ghost pre = slots@;
            place_bucket(entries, b, d, &mut slots);
            disp[b] = d as u32;
            proof {
                lemma_count_below_witness(entries@, b as int, witness);
                assert(slots@.len() <= 0x10000 * count_below(entries@, b as int + 1)) by {
                    assert(slots@.len() <= pre.len() + 0x10000);
                    assert(0x10000 * (count_below(entries@, b as int) + 1) <= 0x10000
                        * count_below(entries@, b as int + 1)) by (nonlinear_arith)
                        requires
                            count_below(entries@, b as int) + 1 <= count_below(
                                entries@,
                                b as int + 1,
                            ),
                    ;
                }
                assert forall|j: int|
                    0 <= j < n && bucket_of(#[trigger] entries@[j].0) < b + 1 implies ({
                    let sl = disp@[bucket_of(entries@[j].0)] as int + quot_of(entries@[j].0);
                    sl < slots@.len() && slots@[sl] as int == j
                }) by {
                    if bucket_of(entries@[j].0) < b {
                        let sl = disp@[bucket_of(entries@[j].0)] as int + quot_of(entries@[j].0);
                        assert(pre[sl] as int == j);
                        assert(pre[sl] != SLOT_EMPTY);
                        assert(slots@[sl] == pre[sl]);
                    }
                }
            }
        } else {
            proof {
                lemma_count_below(entries@, b as int);
                assert forall|j: int|
                    0 <= j < n && bucket_of(#[trigger] entries@[j].0) < b + 1 implies ({
                    let sl = disp@[bucket_of(entries@[j].0)] as int + quot_of(entries@[j].0);
                    sl < slots@.len() && slots@[sl] as int == j
                }) by {
                    assert(bucket_of(entries@[j].0) != b as int);
                }
            }
        }
        b = b + 1;
    }
    proof {
        assert forall|j: int|
            0 <= j < n implies bucket_of(#[trigger] entries@[j].0) < DISP_LEN as int by {
            lemma_bucket_quot(entries@[j].0, entries@[j].0);
        }
        lemma_count_below(entries@, DISP_LEN as int);
        assert(0x10000 * count_below(entries@, DISP_LEN as int) <= 0x10000 * n)
            by (nonlinear_arith)
            requires
                count_below(entries@, DISP_LEN as int) <= n,
        ;
    }
    (disp, slots)
}

/// The resolver for a map: positions of its already-written entries, slot
/// array and displacement table, and the slot array length.
pub struct HashMapResolver {
    /// Position of the first entry.
    pub entries_pos: usize,
    /// Position of the first slot word.
    pub slots_pos: usize,
    /// Position of the first displacement word.
    pub disp_pos: usize,
    /// Number of slot words.
    pub slots_len: usize,
}

impl Archive for Vec<(u32, u32)> {
    type Resolver = HashMapResolver;

    open spec fn archived_align(&self) -> int {
        4
    }

    fn record_align(&self) -> (r: usize) {
        4
    }

    open spec fn resolver_wf(&self, pos: int, resolver: HashMapResolver) -> bool {
        &&& resolver.entries_pos as int % 4 == 0
        &&& resolver.slots_pos as int % 4 == 0
        &&& resolver.disp_pos as int % 4 == 0
        &&& resolver.entries_pos <= pos
        &&& resolver.slots_pos <= pos
        &&& resolver.disp_pos <= pos
        &&& pos <= MAX_LEN
        &&& self@.len() <= 0xffff_fffe
        &&& resolver.slots_len <= 0x1000_0000
    }

    open spec fn archived(&self, pos: int, resolver: HashMapResolver) -> Seq<u8> {
        le_bytes(offset_word(resolver.entries_pos - pos)) + le_bytes(
            offset_word(resolver.slots_pos - pos),
        ) + le_bytes(offset_word(resolver.disp_pos - pos)) + le_bytes(self@.len() as u32)
            + le_bytes(resolver.slots_len as u32)
    }

    fn resolve(&self, pos: usize, resolver: HashMapResolver) -> (out: Vec<u8>) {
        let w1: u32 = back_offset_word(pos, resolver.entries_pos);
        let w2: u32 = back_offset_word(pos, resolver.slots_pos);
        let w3: u32 = back_offset_word(pos, resolver.disp_pos);
        let mut out: Vec<u8> = u32_to_le(w1);
        let mut t: Vec<u8> = u32_to_le(w2);
        out.append(&mut t);
        let mut t2: Vec<u8> = u32_to_le(w3);
        out.append(&mut t2);
        let mut c: Vec<u8> = u32_to_le(self.len() as u32);
        out.append(&mut c);
        let mut sl: Vec<u8> = u32_to_le(resolver.slots_len as u32);
        out.append(&mut sl);
        assert(out@ =~= self.archived(pos as int, resolver));
        out
    }
}

/// First phase for maps: computes the displacement layout, then writes the
/// entries, the slot array and the displacement table contiguously,
/// recording their positions.  The layout computation succeeds for every
/// distinct key set within [`MAX_ENTRIES`].
pub fn serialize_map_entries<W: Writer>(entries: &Vec<(u32, u32)>, serializer: &mut W) -> (r:
    Result<HashMapResolver, WriteError>)
    requires
        old(serializer).written().len() <= MAX_LEN,
        distinct_keys(entries@),
        entries@.len() <= MAX_ENTRIES,
    ensures
        old(serializer).written().is_prefix_of(final(serializer).written()),
        r is Err ==> r->Err_0 == WriteError::SinkFull,
        old(serializer).accepts(9 + 8 * entries@.len() + 4 * (DISP_LEN as int) + 0x40000
            * entries@.len()) ==> r is Ok,
        r is Ok ==> ({
            let res = r.unwrap();
            let buf = final(serializer).written();
            let n = entries@.len() as int;
            let epos = res.entries_pos as int;
            let spos = res.slots_pos as int;
            let dpos = res.disp_pos as int;
            let slen = res.slots_len as int;
            let base = old(serializer).written().len() as int;
            &&& epos == base + crate::writer::pad_len(base, 4)
            &&& buf.subrange(base, epos) =~= crate::bytes::zeros(
                crate::writer::pad_len(base, 4) as nat,
            )
            &&& spos == epos + 8 * n
            &&& dpos == spos + 4 * slen
            &&& dpos + 4 * (DISP_LEN as int) == buf.len()
            &&& buf.len() <= MAX_LEN
            &&& epos % 4 == 0 && spos % 4 == 0 && dpos % 4 == 0
            &&& slen <= 0x10000 * n
            &&& (forall|j: int|
                0 <= j < n ==> u32_at(buf, epos + 8 * j) == #[trigger] entries@[j].0)
            &&& (forall|j: int|
                0 <= j < n ==> u32_at(buf, epos + 8 * j + 4) == #[trigger] entries@[j].1)
            &&& (forall|s: int|
                0 <= s < slen ==> #[trigger] u32_at(buf, spos + 4 * s) == SLOT_EMPTY || (u32_at(
                    buf,
                    spos + 4 * s,
                ) as int) < n)
            &&& (forall|j: int|
                0 <= j < n ==> ({
                    let sl = u32_at(buf, dpos + 4 * bucket_of(#[trigger] entries@[j].0)) as int
                        + quot_of(entries@[j].0);
                    sl < slen && u32_at(buf, spos + 4 * sl) as int == j
                }))
            &&& (forall|m: int|
                0 <= m && old(serializer).accepts(m + 9 + 8 * n + 4 * (DISP_LEN as int) + 0x40000
                    * n) ==> #[trigger] final(serializer).accepts(m))
        }),
{
    let ghost n = entries@.len() as int;
    let ghost budget = 9 + 8 * n + 4 * (DISP_LEN as int) + 0x40000 * n;
    let tables: (Vec<u32>, Vec<u32>) = build_tables(entries);
    let disp: Vec<u32> = tables.0;
    let slots: Vec<u32> = tables.1;
    let ghost slen = slots@.len() as int;
    let flat: Vec<u32> = flatten_entries(entries);
    proof {
        assert(4 * slen <= 0x40000 * n) by (nonlinear_arith)
            requires
                slen <= 0x10000 * n,
        ;
    }
    let res1: VecResolver = match serialize_elements(&flat, serializer) {
        Ok(res) => res,
        Err(e) => {
            proof {
                if old(serializer).accepts(budget) {
                    old(serializer).accepts_mono(3 + 4 * flat@.len() as int, budget);
                }
            }
            return Err(e);
        },
    };
    let ghost mid1 = serializer.written();
    let ghost w_mid1 = *serializer;
    proof {
        if old(serializer).accepts(budget) {
            old(serializer).accepts_mono((3 + 4 * slen) + 3 + 8 * n, budget);
            assert(w_mid1.accepts(3 + 4 * slen));
        }
    }
    let res2: VecResolver = match serialize_elements(&slots, serializer) {
        Ok(res) => res,
        Err(e) => {
            proof {
                lemma_prefix_trans(old(serializer).written(), mid1, serializer.written());
            }
            return Err(e);
        },
    };
    let ghost mid2 = serializer.written();
    let ghost w_mid2 = *serializer;
    proof {
        lemma_prefix_trans(old(serializer).written(), mid1, mid2);
        if old(serializer).accepts(budget) {
            old(serializer).accepts_mono(
                ((3 + 4 * (DISP_LEN as int)) + 3 + 4 * slen) + 3 + 8 * n,
                budget,
            );
            assert(w_mid1.accepts(((3 + 4 * (DISP_LEN as int)) + 3) + 4 * slen));
            assert(w_mid1.accepts((3 + 4 * (DISP_LEN as int)) + 3 + 4 * slen));
            assert(w_mid2.accepts(3 + 4 * (DISP_LEN as int)));
        }
    }
    let res3: VecResolver = match serialize_elements(&disp, serializer) {
        Ok(res) => res,
        Err(e) => {
            proof {
                lemma_prefix_trans(old(serializer).written(), mid2, serializer.written());
            }
            return Err(e);
        },
    };
    proof {
        let buf = serializer.written();
        lemma_prefix_trans(old(serializer).written(), mid2, buf);
        lemma_prefix_trans(mid1, mid2, buf);
        assert forall|j: int|
            0 <= j < n implies u32_at(buf, res1.pos + 8 * j) == #[trigger] entries@[j].0 by {
            assert(u32_at(mid1, res1.pos + 4 * (2 * j)) == flat@[2 * j]);
            lemma_u32_at_prefix(mid1, mid2, res1.pos + 4 * (2 * j));
            lemma_u32_at_prefix(mid2, buf, res1.pos + 4 * (2 * j));
            assert(res1.pos + 8 * j == res1.pos + 4 * (2 * j));
        }
        assert forall|j: int|
            0 <= j < n implies u32_at(buf, res1.pos + 8 * j + 4) == #[trigger] entries@[j].1 by {
            assert(u32_at(mid1, res1.pos + 4 * (2 * j + 1)) == flat@[2 * j + 1]);
            lemma_u32_at_prefix(mid1, mid2, res1.pos + 4 * (2 * j + 1));
            lemma_u32_at_prefix(mid2, buf, res1.pos + 4 * (2 * j + 1));
            assert(res1.pos + 8 * j + 4 == res1.pos + 4 * (2 * j + 1));
        }
        assert forall|s: int|
            0 <= s < slen implies #[trigger] u32_at(buf, res2.pos + 4 * s) == slots@[s] by {
            lemma_u32_at_prefix(mid2, buf, res2.pos + 4 * s);
        }
        assert forall|j: int|
            0 <= j < n implies ({
            let sl = u32_at(buf, res3.pos + 4 * bucket_of(#[trigger] entries@[j].0)) as int
                + quot_of(entries@[j].0);
            sl < slen && u32_at(buf, res2.pos + 4 * sl) as int == j
        }) by {
            lemma_bucket_quot(entries@[j].0, entries@[j].0);
            assert(u32_at(buf, res3.pos + 4 * bucket_of(entries@[j].0)) == disp@[bucket_of(
                entries@[j].0,
            )]);
            let sl = disp@[bucket_of(entries@[j].0)] as int + quot_of(entries@[j].0);
            assert(slots@[sl] as int == j);
            lemma_u32_at_prefix(mid2, buf, res2.pos + 4 * sl);
            assert(u32_at(mid2, res2.pos + 4 * sl) == slots@[sl]);
        }
        assert forall|m: int|
            0 <= m && old(serializer).accepts(m + 9 + 8 * n + 4 * (DISP_LEN as int) + 0x40000 * n)
            implies #[trigger] serializer.accepts(m) by {
            old(serializer).accepts_mono(
                ((m + 3 + 4 * (DISP_LEN as int)) + 3 + 4 * slen) + 3 + 8 * n,
                m + budget,
            );
            assert(w_mid1.accepts(((m + 3 + 4 * (DISP_LEN as int)) + 3) + 4 * slen));
            assert(w_mid1.accepts((m + 3 + 4 * (DISP_LEN as int)) + 3 + 4 * slen));
            assert(w_mid2.accepts(m + 3 + 4 * (DISP_LEN as int)));
        }
    }
    Ok(
        HashMapResolver {
            entries_pos: res1.pos,
            slots_pos: res2.pos,
            disp_pos: res3.pos,
            slots_len: slots.len(),
        },
    )
}

/// Serializes an associative map from its entries: entries, slot array and
/// displacement table first, then the fixed record.  Returns the position of
/// the record.
#[verifier::rlimit(80)]
pub fn serialize_hash_map<W: Writer>(entries: &Vec<(u32, u32)>, serializer: &mut W) -> (r: Result<
    usize,
    WriteError,
>)
    requires
        old(serializer).written().len() <= MAX_LEN,
        entries@.len() <= MAX_ENTRIES,
        distinct_keys(entries@),
    ensures
        old(serializer).written().is_prefix_of(final(serializer).written()),
        r is Err ==> r->Err_0 == WriteError::SinkFull,
        old(serializer).accepts(29 + 8 * entries@.len() + 4 * (DISP_LEN as int) + 0x40000
            * entries@.len()) ==> r is Ok,
        r is Ok ==> ({
            let buf = final(serializer).written();
            let pos = r.unwrap() as int;
            let base = old(serializer).written().len() as int;
            &&& base + crate::writer::pad_len(base, 4) <= pos
            &&& pos + 20 == buf.len()
            &&& map_wf(buf, pos)
            &&& map_count(buf, pos) == entries@.len()
            &&& map_etarget(buf, pos) == base + crate::writer::pad_len(base, 4)
            &&& buf.subrange(base, map_etarget(buf, pos)) =~= crate::bytes::zeros(
                crate::writer::pad_len(base, 4) as nat,
            )
            &&& map_starget(buf, pos) == map_etarget(buf, pos) + 8 * map_count(buf, pos)
            &&& map_dtarget(buf, pos) == map_starget(buf, pos) + 4 * map_slen(buf, pos)
            &&& map_dtarget(buf, pos) + 4 * (DISP_LEN as int) == pos
            &&& (forall|j: int|
                0 <= j < entries@.len() ==> map_key(buf, pos, j) == #[trigger] entries@[j].0
                    && map_val(buf, pos, j) == entries@[j].1)
            &&& map_contents(buf, pos) =~= entries_map(entries@)
        }),
{
    let ghost n = entries@.len() as int;
    let ghost budget = 29 + 8 * n + 4 * (DISP_LEN as int) + 0x40000 * n;
    let res: HashMapResolver = match serialize_map_entries(entries, serializer) {
        Ok(res) => res,
        Err(e) => {
            proof {
                if old(serializer).accepts(budget) {
                    old(serializer).accepts_mono(
                        9 + 8 * n + 4 * (DISP_LEN as int) + 0x40000 * n,
                        budget,
                    );
                }
            }
            return Err(e);
        },
    };
    let ghost mid = serializer.written();
    let ghost epos = res.entries_pos as int;
    let ghost spos = res.slots_pos as int;
    let ghost dpos = res.disp_pos as int;
    let ghost slen = res.slots_len as int;
    proof {
        serializer.pos_is_len();
        if old(serializer).accepts(budget) {
            assert(serializer.accepts(20int));
        }
    }
    let pos: usize = match serializer.resolve_aligned(entries, res) {
        Ok(p) => p,
        Err(e) => {
            return Err(e);
        },
    };
    proof {
        let buf = serializer.written();
        assert(mid.is_prefix_of(buf)) by {
            crate::bytes::lemma_prefix_extend(
                mid,
                buf.subrange(mid.len() as int, buf.len() as int),
            );
            assert(mid + buf.subrange(mid.len() as int, buf.len() as int) =~= buf);
        }
        lemma_prefix_trans(old(serializer).written(), mid, buf);
        lemma_map_record(buf, pos as int, mid, epos, spos, dpos, slen, entries@);
    }
    Ok(pos)
}


/// Decodes the freshly written map record: the buffer is the payload prefix
/// followed by the twenty record bytes, so the record is well-formed and
/// denotes exactly the mapping of the entries.
#[verifier::rlimit(100)]
proof fn lemma_map_record(
    buf: Seq<u8>,
    pos: int,
    mid: Seq<u8>,
    epos: int,
    spos: int,
    dpos: int,
    slen: int,
    entries: Seq<(u32, u32)>,
)
    requires
        distinct_keys(entries),
        entries.len() <= MAX_ENTRIES,
        buf =~= mid + (le_bytes(offset_word(epos - pos)) + le_bytes(offset_word(spos - pos))
            + le_bytes(offset_word(dpos - pos)) + le_bytes(entries.len() as u32) + le_bytes(
            slen as u32,
        )),
        pos == mid.len(),
        pos % 4 == 0,
        buf.len() <= MAX_LEN,
        0 <= epos,
        epos % 4 == 0,
        0 <= spos,
        spos % 4 == 0,
        0 <= dpos,
        dpos % 4 == 0,
        spos == epos + 8 * entries.len(),
        dpos == spos + 4 * slen,
        dpos + 4 * (DISP_LEN as int) == pos,
        0 <= slen <= 0x10000 * entries.len(),
        forall|j: int| 0 <= j < entries.len() ==> u32_at(mid, epos + 8 * j) == #[trigger] entries[j].0,
        forall|j: int|
            0 <= j < entries.len() ==> u32_at(mid, epos + 8 * j + 4) == #[trigger] entries[j].1,
        forall|t: int|
            0 <= t < slen ==> #[trigger] u32_at(mid, spos + 4 * t) == SLOT_EMPTY || (u32_at(
                mid,
                spos + 4 * t,
            ) as int) < entries.len(),
        forall|j: int|
            0 <= j < entries.len() ==> ({
                let sl = u32_at(mid, dpos + 4 * bucket_of(#[trigger] entries[j].0)) as int
                    + quot_of(entries[j].0);
                sl < slen && u32_at(mid, spos + 4 * sl) as int == j
            }),
    ensures
        map_wf(buf, pos),
        map_count(buf, pos) == entries.len(),
        map_etarget(buf, pos) == epos,
        map_starget(buf, pos) == spos,
        map_dtarget(buf, pos) == dpos,
        map_slen(buf, pos) == slen,
        pos + 20 == buf.len(),
        forall|j: int|
            0 <= j < entries.len() ==> map_key(buf, pos, j) == #[trigger] entries[j].0 && map_val(
                buf,
                pos,
                j,
            ) == entries[j].1,
        map_contents(buf, pos) =~= entries_map(entries),
{
    let n = entries.len() as int;
    assert(mid.is_prefix_of(buf)) by {
        crate::bytes::lemma_prefix_extend(mid, buf.subrange(mid.len() as int, buf.len() as int));
        assert(mid + buf.subrange(mid.len() as int, buf.len() as int) =~= buf);
    }
        let w1 = offset_word(epos - pos);
        let w2 = offset_word(spos - pos);
        let w3 = offset_word(dpos - pos);
        assert(buf.subrange(pos, pos + 4) =~= le_bytes(w1));
        crate::bytes::lemma_le_bytes_at(buf, pos, w1);
        crate::bytes::lemma_offset_word_val(epos - pos);
        assert(map_etarget(buf, pos) == epos);
        assert(buf.subrange(pos + 4, pos + 8) =~= le_bytes(w2));
        crate::bytes::lemma_le_bytes_at(buf, pos + 4, w2);
        crate::bytes::lemma_offset_word_val(spos - pos);
        assert(map_starget(buf, pos) == spos);
        assert(buf.subrange(pos + 8, pos + 12) =~= le_bytes(w3));
        crate::bytes::lemma_le_bytes_at(buf, pos + 8, w3);
        crate::bytes::lemma_offset_word_val(dpos - pos);
        assert(map_dtarget(buf, pos) == dpos);
        assert(buf.subrange(pos + 12, pos + 16) =~= le_bytes(n as u32));
        crate::bytes::lemma_le_bytes_at(buf, pos + 12, n as u32);
        assert(map_count(buf, pos) == n);
        assert(buf.subrange(pos + 16, pos + 20) =~= le_bytes(slen as u32));
        crate::bytes::lemma_le_bytes_at(buf, pos + 16, slen as u32);
        assert(map_slen(buf, pos) == slen) by {
            assert(4 * slen <= 0x40000 * n) by (nonlinear_arith)
                requires
                    slen <= 0x10000 * n,
            ;
        }
        assert forall|j: int|
            0 <= j < n implies map_key(buf, pos, j) == #[trigger] entries[j].0 && map_val(
            buf,
            pos,
            j,
        ) == entries[j].1 by {
            lemma_u32_at_prefix(mid, buf, epos + 8 * j);
            lemma_u32_at_prefix(mid, buf, epos + 8 * j + 4);
        }
        assert forall|s: int|
            0 <= s < slen implies #[trigger] map_slot(buf, pos, s) == SLOT_EMPTY || (
        map_slot(buf, pos, s) as int) < n by {
            lemma_u32_at_prefix(mid, buf, spos + 4 * s);
        }
        assert forall|j: int|
            0 <= j < n implies slot_of(buf, pos, #[trigger] map_key(buf, pos, j))
            < map_slen(buf, pos) && map_slot(
            buf,
            pos,
            slot_of(buf, pos, map_key(buf, pos, j)),
        ) as int == j by {
            let k = entries[j].0;
            lemma_bucket_quot(k, k);
            assert(map_key(buf, pos, j) == k);
            lemma_u32_at_prefix(mid, buf, dpos + 4 * bucket_of(k));
            let sl = u32_at(mid, dpos + 4 * bucket_of(k)) as int + quot_of(k);
            assert(sl < slen && u32_at(mid, spos + 4 * sl) as int == j);
            assert(map_disp(buf, pos, bucket_of(k)) == u32_at(mid, dpos + 4 * bucket_of(k)));
            assert(slot_of(buf, pos, k) == sl);
            lemma_u32_at_prefix(mid, buf, spos + 4 * sl);
        }
        assert(map_wf(buf, pos));
        assert_maps_equal!(map_contents(buf, pos), entries_map(entries), k => {
            if map_has_key(buf, pos, k) {
                let j = map_index_of(buf, pos, k);
                assert(0 <= j < n && map_key(buf, pos, j) == k);
                assert(entries[j].0 == k);
                let i0 = choose|i: int| 0 <= i < entries.len() && entries[i].0 == k;
                assert(i0 == j);
            }
            if entries_map(entries).contains_key(k) {
                let i0 = choose|i: int| 0 <= i < entries.len() && entries[i].0 == k;
                assert(map_key(buf, pos, i0) == k);
                assert(map_has_key(buf, pos, k));
            }
        });
}

/// Two entries with the same key are the same entry: each is registered in
/// that key's slot, and the slot holds one index.
proof fn lemma_entry_index_unique(buf: Seq<u8>, pos: int, i: int, j: int)
    requires
        map_wf(buf, pos),
        0 <= i < map_count(buf, pos),
        0 <= j < map_count(buf, pos),
        map_key(buf, pos, i) == map_key(buf, pos, j),
    ensures
        i == j,
{
    assert(map_slot(buf, pos, slot_of(buf, pos, map_key(buf, pos, i))) as int == i);
    assert(map_slot(buf, pos, slot_of(buf, pos, map_key(buf, pos, j))) as int == j);
}

/// Every inserted key is found with its original value.
pub proof fn lemma_entries_map_present(entries: Seq<(u32, u32)>, j: int)
    requires
        distinct_keys(entries),
        0 <= j < entries.len(),
    ensures
        entries_map(entries).contains_key(entries[j].0),
        entries_map(entries)[entries[j].0] == entries[j].1,
{
    let k = entries[j].0;
    let i0 = choose|i: int| 0 <= i < entries.len() && entries[i].0 == k;
    assert(i0 == j);
}

/// A never-inserted key reports absent.
pub proof fn lemma_entries_map_absent(entries: Seq<(u32, u32)>, k: u32)
    requires
        forall|i: int| 0 <= i < entries.len() ==> (#[trigger] entries[i]).0 != k,
    ensures
        !entries_map(entries).contains_key(k),
{
}

/// A typed view of an archived map: the position of its record inside some
/// buffer.
#[derive(Clone, Copy, Debug, PartialEq, Eq, Structural)]
pub struct ArchivedHashMap {
    /// Position of the map record.
    pub pos: usize,
}

impl ArchivedHashMap {
    /// Well-formedness of the viewed record in `buf`.
    pub open spec fn wf(&self, buf: Seq<u8>) -> bool {
        map_wf(buf, self.pos as int)
    }

    /// The key-to-value mapping the view denotes in `buf`.
    pub open spec fn contents(&self, buf: Seq<u8>) -> Map<u32, u32> {
        map_contents(buf, self.pos as int)
    }

    /// Creates a view of the record at `pos`.
    pub fn new(pos: usize) -> (r: ArchivedHashMap)
        ensures
            r.pos == pos,
    {
        ArchivedHashMap { pos }
    }

    /// Number of entries.
    pub fn len(&self, buf: &Vec<u8>) -> (r: usize)
        requires
            self.wf(buf@),
        ensures
            r as int == map_count(buf@, self.pos as int),
    {
        read_u32(buf, self.pos + 12) as usize
    }

    /// Looks the key up through the displacement table: one bucket read, one
    /// slot read, one key comparison.
    pub fn get(&self, buf: &Vec<u8>, key: u32) -> (r: Option<u32>)
        requires
            self.wf(buf@),
        ensures
            r == (if self.contents(buf@).contains_key(key) {
                Some(self.contents(buf@)[key])
            } else {
                None::<u32>
            }),
    {
        let ghost pos = self.pos as int;
        let slen: u32 = read_u32(buf, self.pos + 16);
        let w_d: u32 = read_u32(buf, self.pos + 8);
        let dtarget: usize = match try_offset_target(self.pos, w_d) {
            Some(t) => t,
            None => {
                proof {
                    assert(false);
                }
                0
            },
        };
        let b: usize = (key as usize) & 0xffff;
        proof {
            lemma_bucket_quot(key, key);
            assert((key as usize) & 0xffff == bucket_of(key) && (key as usize) >> 16 == quot_of(
                key,
            )) by (bit_vector);
            assert(4 * b < 4 * (DISP_LEN as int));
        }
        let d: u32 = read_u32(buf, dtarget + 4 * b);
        let q: usize = (key as usize) >> 16;
        let slot_wide: u64 = d as u64 + q as u64;
        proof {
            assert(map_disp(buf@, pos, bucket_of(key)) == d);
            assert(slot_wide as int == slot_of(buf@, pos, key));
        }
        if slot_wide >= slen as u64 {
            proof {
                if map_has_key(buf@, pos, key) {
                    let j = choose|j: int|
                        0 <= j < map_count(buf@, pos) && map_key(buf@, pos, j) == key;
                    assert(slot_of(buf@, pos, map_key(buf@, pos, j)) < map_slen(buf@, pos));
                    assert(false);
                }
            }
            return None;
        }
        let w_s: u32 = read_u32(buf, self.pos + 4);
        let starget: usize = match try_offset_target(self.pos, w_s) {
            Some(t) => t,
            None => {
                proof {
                    assert(false);
                }
                0
            },
        };
        let slot: usize = slot_wide as usize;
        proof {
            assert(slot == slot_wide) by (bit_vector)
                requires
                    slot_wide < 0x1_0000_0000u64,
                    slot == slot_wide as usize,
            ;
            assert(4 * slot < 4 * map_slen(buf@, pos));
        }
        let idx: u32 = read_u32(buf, starget + 4 * slot);
        proof {
            assert(map_slot(buf@, pos, slot as int) == idx);
        }
        if idx == SLOT_EMPTY {
            proof {
                if map_has_key(buf@, pos, key) {
                    let j = choose|j: int|
                        0 <= j < map_count(buf@, pos) && map_key(buf@, pos, j) == key;
                    assert(map_slot(buf@, pos, slot_of(buf@, pos, map_key(buf@, pos, j))) as int
                        == j);
                    assert(false);
                }
            }
            None
        } else {
            let w_e: u32 = read_u32(buf, self.pos);
            let etarget: usize = match try_offset_target(self.pos, w_e) {
                Some(t) => t,
                None => {
                    proof {
                        assert(false);
                    }
                    0
                },
            };
            let idxu: usize = idx as usize;
            proof {
                assert((idx as int) < map_count(buf@, pos));
                assert(8 * idxu + 8 <= 8 * map_count(buf@, pos));
            }
            let k2: u32 = read_u32(buf, etarget + 8 * idxu);
            proof {
                assert(map_key(buf@, pos, idx as int) == k2);
            }
            if k2 == key {
                let v: u32 = read_u32(buf, etarget + 8 * idxu + 4);
                proof {
                    assert(map_val(buf@, pos, idx as int) == v);
                    assert(map_has_key(buf@, pos, key));
                    let j0 = map_index_of(buf@, pos, key);
                    assert(0 <= j0 < map_count(buf@, pos) && map_key(buf@, pos, j0) == key);
                    assert(map_slot(buf@, pos, slot_of(buf@, pos, map_key(buf@, pos, j0))) as int
                        == j0);
                    assert(j0 == idx as int);
                }
                Some(v)
            } else {
                proof {
                    if map_has_key(buf@, pos, key) {
                        let j = choose|j: int|
                            0 <= j < map_count(buf@, pos) && map_key(buf@, pos, j) == key;
                        assert(map_slot(buf@, pos, slot_of(buf@, pos, map_key(buf@, pos, j)))
                            as int == j);
                        assert(j == idx as int);
                        assert(false);
                    }
                }
                None
            }
        }
    }

    /// Materializes the archived map back into a live hash map, inserting the
    /// entries one by one.
    pub fn deserialize(&self, buf: &Vec<u8>) -> (r: HashMap<u32, u32>)
        requires
            self.wf(buf@),
        ensures
            r@ =~= self.contents(buf@),
    {
        let ghost pos = self.pos as int;
        let n: usize = self.len(buf);
        let w_e: u32 = read_u32(buf, self.pos);
        let etarget: usize = match try_offset_target(self.pos, w_e) {
            Some(t) => t,
            None => {
                proof {
                    assert(false);
                }
                0
            },
        };
        let mut r: HashMap<u32, u32> = HashMap::new();
        let mut j: usize = 0;
        while j < n
            invariant
                self.wf(buf@),
                pos == self.pos as int,
                n as int == map_count(buf@, pos),
                etarget as int == map_etarget(buf@, pos),
                buf@.len() <= MAX_LEN,
                j <= n,
                vstd::std_specs::hash::obeys_key_model::<u32>(),
                vstd::std_specs::hash::builds_valid_hashers::<std::hash::RandomState>(),
                forall|k: u32|
                    #[trigger] r@.contains_key(k) <==> exists|i: int|
                        0 <= i < j && map_key(buf@, pos, i) == k,
                forall|i: int|
                    0 <= i < j ==> r@.contains_key(#[trigger] map_key(buf@, pos, i))
                        && r@[map_key(buf@, pos, i)] == map_val(buf@, pos, i),
            decreases n - j,
        {
            proof {
                assert(8 * j + 8 <= 8 * map_count(buf@, pos));
            }
            let k: u32 = read_u32(buf, etarget + 8 * j);
            let v: u32 = read_u32(buf, etarget + 8 * j + 4);
            r.insert(k, v);
            proof {
                assert(map_key(buf@, pos, j as int) == k);
                assert(map_val(buf@, pos, j as int) == v);
                assert forall|i: int|
                    0 <= i < j + 1 implies r@.contains_key(#[trigger] map_key(buf@, pos, i))
                    && r@[map_key(buf@, pos, i)] == map_val(buf@, pos, i) by {
                    if i < j && map_key(buf@, pos, i) == k {
                        lemma_entry_index_unique(buf@, pos, i, j as int);
                    }
                }
            }
            j = j + 1;
        }
        proof {
            assert forall|k: u32| #![auto] r@.contains_key(k) == self.contents(buf@).contains_key(
                k,
            ) && (r@.contains_key(k) ==> r@[k] == self.contents(buf@)[k]) by {
                if map_has_key(buf@, pos, k) {
                    let j0 = map_index_of(buf@, pos, k);
                    assert(0 <= j0 < map_count(buf@, pos) && map_key(buf@, pos, j0) == k);
                    assert(r@.contains_key(k));
                    assert(r@[k] == map_val(buf@, pos, j0));
                }
                if r@.contains_key(k) {
                    let i = choose|i: int| 0 <= i < n && map_key(buf@, pos, i) == k;
                    assert(map_has_key(buf@, pos, k));
                    let j0 = map_index_of(buf@, pos, k);
                    lemma_entry_index_unique(buf@, pos, i, j0);
                }
            }
            assert(r@ =~= self.contents(buf@));
        }
        r
    }

    /// Compares the archived map against a live entry list: equal exactly
    /// when both denote the same key-to-value mapping.
    pub fn eq_entries(&self, buf: &Vec<u8>, other: &Vec<(u32, u32)>) -> (r: bool)
        requires
            self.wf(buf@),
            distinct_keys(other@),
        ensures
            r == (self.contents(buf@) =~= entries_map(other@)),
    {
        let ghost pos = self.pos as int;
        let n: usize = self.len(buf);
        let w_e: u32 = read_u32(buf, self.pos);
        let etarget: usize = match try_offset_target(self.pos, w_e) {
            Some(t) => t,
            None => {
                proof {
                    assert(false);
                }
                0
            },
        };
        let mut j: usize = 0;
        while j < n
            invariant
                self.wf(buf@),
                distinct_keys(other@),
                pos == self.pos as int,
                n as int == map_count(buf@, pos),
                etarget as int == map_etarget(buf@, pos),
                buf@.len() <= MAX_LEN,
                j <= n,
                forall|t: int|
                    0 <= t < j ==> entries_map(other@).contains_key(
                        #[trigger] map_key(buf@, pos, t),
                    ) && entries_map(other@)[map_key(buf@, pos, t)] == map_val(buf@, pos, t),
            decreases n - j,
        {
            proof {
                assert(8 * j + 8 <= 8 * map_count(buf@, pos));
            }
            let k: u32 = read_u32(buf, etarget + 8 * j);
            let v: u32 = read_u32(buf, etarget + 8 * j + 4);
            proof {
                assert(map_key(buf@, pos, j as int) == k);
                assert(map_val(buf@, pos, j as int) == v);
            }
            let matched: bool = match find_entry(other, k) {
                Some(v2) => v2 == v,
                None => false,
            };
            if !matched {
                proof {
                    assert(map_has_key(buf@, pos, k));
                    let j0 = map_index_of(buf@, pos, k);
                    lemma_entry_index_unique(buf@, pos, j0, j as int);
                    assert(self.contents(buf@).contains_key(k));
                    assert(self.contents(buf@)[k] == v);
                    if entries_map(other@).contains_key(k) {
                        let i0 = choose|i: int| 0 <= i < other@.len() && other@[i].0 == k;
                        if entries_map(other@)[k] == v {
                            assert(exists|i: int|
                                0 <= i < other@.len() && other@[i] == (k, other@[i0].1));
                            assert(false);
                        }
                    }
                    assert(!(self.contents(buf@) =~= entries_map(other@)));
                }
                return false;
            }
            proof {
                let v2 = choose|i: int| 0 <= i < other@.len() && other@[i] == (k, v);
                assert(other@[v2].0 == k);
                let i0 = choose|i: int| 0 <= i < other@.len() && other@[i].0 == k;
                assert(i0 == v2);
                assert(entries_map(other@).contains_key(k));
                assert(entries_map(other@)[k] == v);
            }
            j = j + 1;
        }
        let mut i: usize = 0;
        while i < other.len()
            invariant
                self.wf(buf@),
                distinct_keys(other@),
                pos == self.pos as int,
                buf@.len() <= MAX_LEN,
                i <= other@.len(),
                forall|t: int|
                    0 <= t < i ==> self.contents(buf@).contains_key(
                        (#[trigger] other@[t]).0,
                    ) && self.contents(buf@)[other@[t].0] == other@[t].1,
            decreases other@.len() - i,
        {
            let pair: (u32, u32) = other[i];
            let found: bool = match self.get(buf, pair.0) {
                Some(v2) => v2 == pair.1,
                None => false,
            };
            if !found {
                proof {
                    lemma_entries_map_present(other@, i as int);
                    if self.contents(buf@) =~= entries_map(other@) {
                        assert(self.contents(buf@).contains_key(pair.0));
                        assert(self.contents(buf@)[pair.0] == pair.1);
                        assert(false);
                    }
                }
                return false;
            }
            i = i + 1;
        }
        proof {
            assert_maps_equal!(self.contents(buf@), entries_map(other@), k => {
                if map_has_key(buf@, pos, k) {
                    let j0 = map_index_of(buf@, pos, k);
                    assert(map_key(buf@, pos, j0) == k);
                    assert(entries_map(other@).contains_key(k));
                }
                if entries_map(other@).contains_key(k) {
                    let i0 = choose|t: int| 0 <= t < other@.len() && other@[t].0 == k;
                    assert(self.contents(buf@).contains_key(other@[i0].0));
                }
            });
        }
        true
    }
}

/// Linear search of a live entry list for a key.
fn find_entry(entries: &Vec<(u32, u32)>, key: u32) -> (r: Option<u32>)
    ensures
        match r {
            Some(v) => exists|i: int| 0 <= i < entries@.len() && entries@[i] == (key, v),
            None => forall|i: int| 0 <= i < entries@.len() ==> (#[trigger] entries@[i]).0 != key,
        },
{
    let mut i: usize = 0;
    while i < entries.len()
        invariant
            i <= entries@.len(),
            forall|t: int| 0 <= t < i ==> (#[trigger] entries@[t]).0 != key,
        decreases entries@.len() - i,
    {
        let pair: (u32, u32) = entries[i];
        if pair.0 == key {
            return Some(pair.1);
        }
        i = i + 1;
    }
    None
}

} // verus!
