//! The validation context: bounds-, alignment- and overlap-checked traversal
//! that certifies an untrusted buffer before any typed access.
//!
//! Each out-of-line region reached through a relative pointer is checked to
//! lie inside the buffer at its required alignment, then registered as a
//! subtree claim; a claim overlapping any still-open claim rejects the
//! buffer.  A malformed buffer is reported, never trusted: every accessor's
//! precondition is exactly what these validators establish.

use vstd::prelude::*;
use crate::MAX_LEN;
use crate::bytes::{read_u32, try_offset_target};
use crate::sequence::{seq_wf, seq_count, seq_target, ArchivedVec};
use crate::text::{
    str_wf, str_tag, str_is_inline, str_target, str_len, str_content, ArchivedString, utf8_to_str,
};
use vstd::utf8::valid_utf8;
use crate::hashmap::{
    map_wf, map_count, map_slen, map_etarget, map_starget, map_dtarget, map_key, map_slot,
    map_disp, bucket_of, quot_of, slot_of, ArchivedHashMap, SLOT_EMPTY, DISP_LEN,
};
use crate::bitvec::{bv_wf, bv_len, ArchivedBitVec};
use vstd::slice::slice_subrange;

verus! {

/// Validation failures.  These are always data errors: rejecting a buffer
/// performs no mutation and leaves no partial state.
#[derive(Clone, Copy, Debug, PartialEq, Eq, Structural)]
pub enum ValidationError {
    /// A region reaches outside the buffer.
    OutOfBounds,
    /// A record or region is not at its required alignment.
    Misaligned,
    /// A region overlaps a still-open subtree claim.
    Overlap,
    /// A tag or index holds an illegal value for its role.
    InvalidDiscriminant,
    /// Text content is not valid UTF-8.
    InvalidUtf8,
    /// A declared length exceeds what its backing storage can hold.
    LengthMismatch,
}

/// Whether `[start, end)` is disjoint from every claim in `claims`.
pub open spec fn range_free(claims: Seq<(usize, usize)>, start: int, end: int) -> bool {
    forall|i: int|
        0 <= i < claims.len() ==> (#[trigger] claims[i]).1 <= start || end <= claims[i].0
}

/// The stack of still-open subtree claims of a depth-first validation
/// traversal.
pub struct ValidationContext {
    claims: Vec<(usize, usize)>,
}

impl View for ValidationContext {
    type V = Seq<(usize, usize)>;

    closed spec fn view(&self) -> Seq<(usize, usize)> {
        self.claims@
    }
}

impl ValidationContext {
    /// A context with no open claims.
    pub fn new() -> (r: ValidationContext)
        ensures
            r@ =~= Seq::<(usize, usize)>::empty(),
    {
        ValidationContext { claims: Vec::new() }
    }

    /// Registers the subtree claim `[start, end)`; rejects a claim that
    /// overlaps any still-open claim.
    pub fn claim(&mut self, start: usize, end: usize) -> (r: Result<(), ValidationError>)
        requires
            start <= end,
        ensures
            r is Ok <==> range_free(old(self)@, start as int, end as int),
            r is Ok ==> final(self)@ =~= old(self)@.push((start, end)),
            r is Err ==> final(self)@ =~= old(self)@ && r == Err::<(), ValidationError>(
                ValidationError::Overlap,
            ),
    {
        let mut i: usize = 0;
        while i < self.claims.len()
            invariant
                i <= self.claims@.len(),
                start <= end,
                forall|k: int|
                    0 <= k < i ==> (#[trigger] self.claims@[k]).1 <= start || end
                        <= self.claims@[k].0,
                self@ =~= old(self)@,
                self.claims@ =~= old(self)@,
            decreases self.claims@.len() - i,
        {
            let (cs, ce): (usize, usize) = self.claims[i];
            if !(ce <= start || end <= cs) {
                return Err(ValidationError::Overlap);
            }
            i = i + 1;
        }
        self.claims.push((start, end));
        Ok(())
    }

    /// Closes the most recently opened claim; later, non-overlapping siblings
    /// may reuse the released address range.
    pub fn release(&mut self)
        requires
            old(self)@.len() >= 1,
        ensures
            final(self)@ =~= old(self)@.drop_last(),
    {
        let _ = self.claims.pop();
    }
}

/// The sequential decision a sequence validation makes, error kind included.
pub open spec fn seq_check(buf: Seq<u8>, pos: int, claims: Seq<(usize, usize)>) -> Result<
    (),
    ValidationError,
> {
    if pos % 4 != 0 {
        Err(ValidationError::Misaligned)
    } else if pos + 8 > buf.len() {
        Err(ValidationError::OutOfBounds)
    } else if seq_target(buf, pos) < 0 {
        Err(ValidationError::OutOfBounds)
    } else if seq_target(buf, pos) % 4 != 0 {
        Err(ValidationError::Misaligned)
    } else if seq_target(buf, pos) + 4 * seq_count(buf, pos) > buf.len() {
        Err(ValidationError::OutOfBounds)
    } else if !range_free(claims, seq_target(buf, pos), seq_target(buf, pos) + 4 * seq_count(
        buf,
        pos,
    )) {
        Err(ValidationError::Overlap)
    } else {
        Ok(())
    }
}

/// Validates a sequence record at `pos`: record in bounds and aligned,
/// element region in bounds, aligned and free of open claims.  The checks
/// run in a fixed order, so the reported error kind is deterministic.
pub fn validate_sequence(buf: &Vec<u8>, pos: usize, ctx: &mut ValidationContext) -> (r: Result<
    (),
    ValidationError,
>)
    requires
        buf@.len() <= MAX_LEN,
    ensures
        final(ctx)@ =~= old(ctx)@,
        r == seq_check(buf@, pos as int, old(ctx)@),
        r is Ok <==> (seq_wf(buf@, pos as int) && range_free(
            old(ctx)@,
            seq_target(buf@, pos as int),
            seq_target(buf@, pos as int) + 4 * seq_count(buf@, pos as int),
        )),
{
    if pos % 4 != 0 {
        return Err(ValidationError::Misaligned);
    }
    if pos > buf.len() || buf.len() - pos < 8 {
        return Err(ValidationError::OutOfBounds);
    }
    let w: u32 = read_u32(buf, pos);
    let count: u32 = read_u32(buf, pos + 4);
    let target: usize = match try_offset_target(pos, w) {
        Some(t) => t,
        None => {
            return Err(ValidationError::OutOfBounds);
        },
    };
    if target % 4 != 0 {
        return Err(ValidationError::Misaligned);
    }
    let end_wide: u64 = target as u64 + 4u64 * (count as u64);
    if end_wide > buf.len() as u64 {
        return Err(ValidationError::OutOfBounds);
    }
    let end: usize = end_wide as usize;
    proof {
        assert(end == target + 4 * (count as int));
    }
    match ctx.claim(target, end) {
        Ok(()) => {},
        Err(e) => {
            return Err(e);
        },
    }
    ctx.release();
    proof {
        assert(ctx@ =~= old(ctx)@);
    }
    Ok(())
}

/// The sequential decision a text validation makes, error kind included.
/// An out-of-range target fails with `OutOfBounds`, an aliasing target with
/// `Overlap`, a tag outside both forms with `InvalidDiscriminant`, and
/// content that is not UTF-8 with `InvalidUtf8`.
pub open spec fn text_check(buf: Seq<u8>, pos: int, claims: Seq<(usize, usize)>) -> Result<
    (),
    ValidationError,
> {
    if pos % 4 != 0 {
        Err(ValidationError::Misaligned)
    } else if pos + 16 > buf.len() {
        Err(ValidationError::OutOfBounds)
    } else if str_is_inline(buf, pos) {
        if !valid_utf8(str_content(buf, pos)) {
            Err(ValidationError::InvalidUtf8)
        } else {
            Ok(())
        }
    } else if str_tag(buf, pos) != 0xff {
        Err(ValidationError::InvalidDiscriminant)
    } else if str_target(buf, pos) < 0 {
        Err(ValidationError::OutOfBounds)
    } else if str_target(buf, pos) + str_len(buf, pos) > buf.len() {
        Err(ValidationError::OutOfBounds)
    } else if !range_free(claims, str_target(buf, pos), str_target(buf, pos) + str_len(buf, pos)) {
        Err(ValidationError::Overlap)
    } else if !valid_utf8(str_content(buf, pos)) {
        Err(ValidationError::InvalidUtf8)
    } else {
        Ok(())
    }
}

/// Validates a text record at `pos`.  The inline form checks the embedded
/// bytes as UTF-8 directly; the out-of-line form bounds- and overlap-checks
/// the pointed-to range, then checks those bytes as UTF-8.  The checks run
/// in a fixed order, so the reported error kind is deterministic.
pub fn validate_text(buf: &Vec<u8>, pos: usize, ctx: &mut ValidationContext) -> (r: Result<
    (),
    ValidationError,
>)
    requires
        buf@.len() <= MAX_LEN,
    ensures
        final(ctx)@ =~= old(ctx)@,
        r == text_check(buf@, pos as int, old(ctx)@),
        r is Ok <==> (str_wf(buf@, pos as int) && (!str_is_inline(buf@, pos as int)
            ==> range_free(
            old(ctx)@,
            str_target(buf@, pos as int),
            str_target(buf@, pos as int) + str_len(buf@, pos as int),
        ))),
{
    if pos % 4 != 0 {
        return Err(ValidationError::Misaligned);
    }
    if pos > buf.len() || buf.len() - pos < 16 {
        return Err(ValidationError::OutOfBounds);
    }
    let tag: u8 = buf[pos + 15];
    if tag <= 15 {
        let content: &[u8] = slice_subrange(buf.as_slice(), pos, pos + tag as usize);
        match utf8_to_str(content) {
            Some(_) => Ok(()),
            None => Err(ValidationError::InvalidUtf8),
        }
    } else if tag == 0xff {
        let w: u32 = read_u32(buf, pos);
        let len: u32 = read_u32(buf, pos + 4);
        let target: usize = match try_offset_target(pos, w) {
            Some(t) => t,
            None => {
                return Err(ValidationError::OutOfBounds);
            },
        };
        let end_wide: u64 = target as u64 + len as u64;
        if end_wide > buf.len() as u64 {
            return Err(ValidationError::OutOfBounds);
        }
        let end: usize = end_wide as usize;
        proof {
            assert(end == target + len as int);
        }
        match ctx.claim(target, end) {
            Ok(()) => {},
            Err(e) => {
                return Err(e);
            },
        }
        let content: &[u8] = slice_subrange(buf.as_slice(), target, end);
        let valid: bool = match utf8_to_str(content) {
            Some(_) => true,
            None => false,
        };
        ctx.release();
        proof {
            assert(ctx@ =~= old(ctx)@);
        }
        if valid {
            Ok(())
        } else {
            Err(ValidationError::InvalidUtf8)
        }
    } else {
        Err(ValidationError::InvalidDiscriminant)
    }
}

/// The sequential decision a map validation makes, error kind included.  The
/// two closing phases both reject with `InvalidDiscriminant`: a slot word
/// that is neither the empty marker nor a valid entry index, and an entry
/// not registered in its own key's slot.
pub open spec fn map_check(buf: Seq<u8>, pos: int, claims: Seq<(usize, usize)>) -> Result<
    (),
    ValidationError,
> {
    let et = map_etarget(buf, pos);
    let ee = et + 8 * map_count(buf, pos);
    let st = map_starget(buf, pos);
    let se = st + 4 * map_slen(buf, pos);
    let dt = map_dtarget(buf, pos);
    let de = dt + 4 * (DISP_LEN as int);
    if pos % 4 != 0 {
        Err(ValidationError::Misaligned)
    } else if pos + 20 > buf.len() {
        Err(ValidationError::OutOfBounds)
    } else if et < 0 {
        Err(ValidationError::OutOfBounds)
    } else if et % 4 != 0 {
        Err(ValidationError::Misaligned)
    } else if ee > buf.len() {
        Err(ValidationError::OutOfBounds)
    } else if st < 0 {
        Err(ValidationError::OutOfBounds)
    } else if st % 4 != 0 {
        Err(ValidationError::Misaligned)
    } else if se > buf.len() {
        Err(ValidationError::OutOfBounds)
    } else if dt < 0 {
        Err(ValidationError::OutOfBounds)
    } else if dt % 4 != 0 {
        Err(ValidationError::Misaligned)
    } else if de > buf.len() {
        Err(ValidationError::OutOfBounds)
    } else if !range_free(claims, et, ee) {
        Err(ValidationError::Overlap)
    } else if !range_free(claims.push(((et as usize), (ee as usize))), st, se) {
        Err(ValidationError::Overlap)
    } else if !range_free(
        claims.push(((et as usize), (ee as usize))).push(((st as usize), (se as usize))),
        dt,
        de,
    ) {
        Err(ValidationError::Overlap)
    } else if !(forall|s: int|
        0 <= s < map_slen(buf, pos) ==> #[trigger] map_slot(buf, pos, s) == SLOT_EMPTY || (
        map_slot(buf, pos, s) as int) < map_count(buf, pos)) {
        Err(ValidationError::InvalidDiscriminant)
    } else if !(forall|j: int|
        0 <= j < map_count(buf, pos) ==> slot_of(buf, pos, #[trigger] map_key(buf, pos, j))
            < map_slen(buf, pos) && map_slot(buf, pos, slot_of(buf, pos, map_key(buf, pos, j)))
            as int == j) {
        Err(ValidationError::InvalidDiscriminant)
    } else {
        Ok(())
    }
}

/// Validates a map record at `pos`: the three regions in bounds, aligned,
/// free of open claims and of one another; every slot word an empty marker
/// or a valid entry index; every entry registered in its own key's slot.
/// The checks run in a fixed order, so the reported error kind is
/// deterministic.
#[verifier::rlimit(100)]
pub fn validate_hash_map(buf: &Vec<u8>, pos: usize, ctx: &mut ValidationContext) -> (r: Result<
    (),
    ValidationError,
>)
    requires
        buf@.len() <= MAX_LEN,
    ensures
        final(ctx)@ =~= old(ctx)@,
        r == map_check(buf@, pos as int, old(ctx)@),
        r is Ok <==> (map_wf(buf@, pos as int) && map_claims_free(buf@, pos as int, old(ctx)@)),
{
    let ghost p = pos as int;
    if pos % 4 != 0 {
        return Err(ValidationError::Misaligned);
    }
    if pos > buf.len() || buf.len() - pos < 20 {
        return Err(ValidationError::OutOfBounds);
    }
    let count: u32 = read_u32(buf, pos + 12);
    let slen: u32 = read_u32(buf, pos + 16);
    let w_e: u32 = read_u32(buf, pos);
    let etarget: usize = match try_offset_target(pos, w_e) {
        Some(t) => t,
        None => {
            return Err(ValidationError::OutOfBounds);
        },
    };
    if etarget % 4 != 0 {
        return Err(ValidationError::Misaligned);
    }
    let eend_wide: u64 = etarget as u64 + 8u64 * (count as u64);
    if eend_wide > buf.len() as u64 {
        return Err(ValidationError::OutOfBounds);
    }
    let eend: usize = eend_wide as usize;
    let w_s: u32 = read_u32(buf, pos + 4);
    let starget: usize = match try_offset_target(pos, w_s) {
        Some(t) => t,
        None => {
            return Err(ValidationError::OutOfBounds);
        },
    };
    if starget % 4 != 0 {
        return Err(ValidationError::Misaligned);
    }
    let send_wide: u64 = starget as u64 + 4u64 * (slen as u64);
    if send_wide > buf.len() as u64 {
        return Err(ValidationError::OutOfBounds);
    }
    let send: usize = send_wide as usize;
    let w_d: u32 = read_u32(buf, pos + 8);
    let dtarget: usize = match try_offset_target(pos, w_d) {
        Some(t) => t,
        None => {
            return Err(ValidationError::OutOfBounds);
        },
    };
    if dtarget % 4 != 0 {
        return Err(ValidationError::Misaligned);
    }
    if buf.len() < 4 * DISP_LEN || dtarget > buf.len() - 4 * DISP_LEN {
        return Err(ValidationError::OutOfBounds);
    }
    let dend: usize = dtarget + 4 * DISP_LEN;
    proof {
        assert(eend == etarget + 8 * (count as int));
        assert(send == starget + 4 * (slen as int));
    }
    match ctx.claim(etarget, eend) {
        Ok(()) => {},
        Err(e) => {
            return Err(e);
        },
    }
    match ctx.claim(starget, send) {
        Ok(()) => {},
        Err(e) => {
            ctx.release();
            proof {
                assert(ctx@ =~= old(ctx)@);
            }
            return Err(e);
        },
    }
    match ctx.claim(dtarget, dend) {
        Ok(()) => {},
        Err(e) => {
            ctx.release();
            ctx.release();
            proof {
                assert(ctx@ =~= old(ctx)@);
            }
            return Err(e);
        },
    }
    proof {
        assert(map_check(buf@, p, old(ctx)@) is Err ==> map_check(buf@, p, old(ctx)@) == Err::<
            (),
            ValidationError,
        >(ValidationError::InvalidDiscriminant));
    }
    let mut s: usize = 0;
    while s < slen as usize
        invariant
            buf@.len() <= MAX_LEN,
            p == pos as int,
            slen as int == map_slen(buf@, p),
            count as int == map_count(buf@, p),
            starget as int == map_starget(buf@, p),
            starget + 4 * (slen as int) <= buf@.len(),
            s <= slen as usize,
            forall|t: int|
                0 <= t < s ==> #[trigger] map_slot(buf@, p, t) == SLOT_EMPTY || (map_slot(
                    buf@,
                    p,
                    t,
                ) as int) < count as int,
            ctx@ =~= old(ctx)@.push((etarget, eend)).push((starget, send)).push((dtarget, dend)),
            map_check(buf@, p, old(ctx)@) is Err ==> map_check(buf@, p, old(ctx)@) == Err::<
                (),
                ValidationError,
            >(ValidationError::InvalidDiscriminant),
        decreases slen as int - s,
    {
        let idx: u32 = read_u32(buf, starget + 4 * s);
        proof {
            assert(map_slot(buf@, p, s as int) == idx);
        }
        if idx != SLOT_EMPTY && idx >= count {
            ctx.release();
            ctx.release();
            ctx.release();
            proof {
                assert(ctx@ =~= old(ctx)@);
                assert(!map_wf(buf@, p));
            }
            return Err(ValidationError::InvalidDiscriminant);
        }
        s = s + 1;
    }
    let mut j: usize = 0;
    while j < count as usize
        invariant
            buf@.len() <= MAX_LEN,
            p == pos as int,
            slen as int == map_slen(buf@, p),
            count as int == map_count(buf@, p),
            starget as int == map_starget(buf@, p),
            etarget as int == map_etarget(buf@, p),
            dtarget as int == map_dtarget(buf@, p),
            starget + 4 * (slen as int) <= buf@.len(),
            etarget + 8 * (count as int) <= buf@.len(),
            dtarget + 4 * (DISP_LEN as int) <= buf@.len(),
            j <= count as usize,
            forall|t: int|
                0 <= t < j ==> slot_of(buf@, p, #[trigger] map_key(buf@, p, t)) < map_slen(
                    buf@,
                    p,
                ) && map_slot(buf@, p, slot_of(buf@, p, map_key(buf@, p, t))) as int == t,
            ctx@ =~= old(ctx)@.push((etarget, eend)).push((starget, send)).push((dtarget, dend)),
            map_check(buf@, p, old(ctx)@) is Err ==> map_check(buf@, p, old(ctx)@) == Err::<
                (),
                ValidationError,
            >(ValidationError::InvalidDiscriminant),
        decreases count as int - j,
    {
        proof {
            assert(8 * j + 8 <= 8 * (count as int));
        }
        let k: u32 = read_u32(buf, etarget + 8 * j);
        let b: usize = (k as usize) & 0xffff;
        let q: usize = (k as usize) >> 16;
        proof {
            assert(map_key(buf@, p, j as int) == k);
            assert((k as usize) & 0xffff == bucket_of(k) && (k as usize) >> 16 == quot_of(k)
                && (k as usize) & 0xffff < 0x10000) by (bit_vector);
            assert(4 * b < 4 * (DISP_LEN as int));
        }
        let d: u32 = read_u32(buf, dtarget + 4 * b);
        let slot_wide: u64 = d as u64 + q as u64;
        proof {
            assert(map_disp(buf@, p, bucket_of(k)) == d);
            assert(slot_wide as int == slot_of(buf@, p, k));
        }
        let bad: bool = if slot_wide >= slen as u64 {
            true
        } else {
            let slot: usize = slot_wide as usize;
            proof {
                assert(slot == slot_wide) by (bit_vector)
                    requires
                        slot_wide < 0x1_0000_0000u64,
                        slot == slot_wide as usize,
                ;
                assert(4 * slot < 4 * (slen as int));
            }
            let idx: u32 = read_u32(buf, starget + 4 * slot);
            proof {
                assert(map_slot(buf@, p, slot as int) == idx);
            }
            !(idx != SLOT_EMPTY && (idx as usize) == j)
        };
        if bad {
            ctx.release();
            ctx.release();
            ctx.release();
            proof {
                assert(ctx@ =~= old(ctx)@);
                assert(!map_wf(buf@, p));
            }
            return Err(ValidationError::InvalidDiscriminant);
        }
        proof {
            assert((count as int) <= 0x1000_0000) by {
                assert(8 * (count as int) <= buf@.len());
            }
        }
        j = j + 1;
    }
    ctx.release();
    ctx.release();
    ctx.release();
    proof {
        assert(ctx@ =~= old(ctx)@);
        assert(map_wf(buf@, p));
    }
    Ok(())
}

/// Whether the three regions of the map record at `pos` are free of the open
/// claims in `claims` and of one another, in the order validation claims
/// them: entries, slot array, displacement table.
pub open spec fn map_claims_free(buf: Seq<u8>, pos: int, claims: Seq<(usize, usize)>) -> bool {
    let et = map_etarget(buf, pos);
    let ee = et + 8 * map_count(buf, pos);
    let st = map_starget(buf, pos);
    let se = st + 4 * map_slen(buf, pos);
    let dt = map_dtarget(buf, pos);
    let de = dt + 4 * (DISP_LEN as int);
    &&& range_free(claims, et, ee)
    &&& range_free(claims.push(((et as usize), (ee as usize))), st, se)
    &&& range_free(
        claims.push(((et as usize), (ee as usize))).push(((st as usize), (se as usize))),
        dt,
        de,
    )
}

/// The sequential decision a bit-sequence validation makes, error kind
/// included: a declared bit length beyond the storage's capacity is a hard
/// `LengthMismatch` failure.
pub open spec fn bit_check(buf: Seq<u8>, pos: int, claims: Seq<(usize, usize)>) -> Result<
    (),
    ValidationError,
> {
    if seq_check(buf, pos, claims) is Err {
        seq_check(buf, pos, claims)
    } else if pos + 12 > buf.len() {
        Err(ValidationError::OutOfBounds)
    } else if bv_len(buf, pos) > 32 * seq_count(buf, pos) {
        Err(ValidationError::LengthMismatch)
    } else {
        Ok(())
    }
}

/// Validates a bit-sequence record at `pos`: a well-formed word sequence
/// whose declared bit length does not exceed the storage's bit capacity; a
/// mismatch is a hard [`ValidationError::LengthMismatch`] failure.  The
/// checks run in a fixed order, so the reported error kind is deterministic.
pub fn validate_bit_sequence(buf: &Vec<u8>, pos: usize, ctx: &mut ValidationContext) -> (r: Result<
    (),
    ValidationError,
>)
    requires
        buf@.len() <= MAX_LEN,
    ensures
        final(ctx)@ =~= old(ctx)@,
        r == bit_check(buf@, pos as int, old(ctx)@),
        r is Ok <==> (bv_wf(buf@, pos as int) && range_free(
            old(ctx)@,
            seq_target(buf@, pos as int),
            seq_target(buf@, pos as int) + 4 * seq_count(buf@, pos as int),
        )),
{
    match validate_sequence(buf, pos, ctx) {
        Ok(()) => {},
        Err(e) => {
            return Err(e);
        },
    }
    if buf.len() - pos < 12 {
        return Err(ValidationError::OutOfBounds);
    }
    let blen: u32 = read_u32(buf, pos + 8);
    let count: u32 = read_u32(buf, pos + 4);
    if blen as u64 > 32u64 * (count as u64) {
        return Err(ValidationError::LengthMismatch);
    }
    Ok(())
}

/// Certifies the buffer as holding a sequence record at `pos` and returns the
/// typed view; the single trust-boundary crossing for sequences.
pub fn access_sequence(buf: &Vec<u8>, pos: usize) -> (r: Result<ArchivedVec, ValidationError>)
    requires
        buf@.len() <= MAX_LEN,
    ensures
        r is Ok <==> seq_wf(buf@, pos as int),
        r is Ok ==> r.unwrap().pos == pos,
        r is Err ==> seq_check(buf@, pos as int, Seq::<(usize, usize)>::empty()) == Err::<
            (),
            ValidationError,
        >(r->Err_0),
{
    let mut ctx: ValidationContext = ValidationContext::new();
    match validate_sequence(buf, pos, &mut ctx) {
        Ok(()) => Ok(ArchivedVec::new(pos)),
        Err(e) => Err(e),
    }
}

/// Certifies the buffer as holding a text record at `pos` and returns the
/// typed view.
pub fn access_text(buf: &Vec<u8>, pos: usize) -> (r: Result<ArchivedString, ValidationError>)
    requires
        buf@.len() <= MAX_LEN,
    ensures
        r is Ok <==> str_wf(buf@, pos as int),
        r is Ok ==> r.unwrap().pos == pos,
        r is Err ==> text_check(buf@, pos as int, Seq::<(usize, usize)>::empty()) == Err::<
            (),
            ValidationError,
        >(r->Err_0),
{
    let mut ctx: ValidationContext = ValidationContext::new();
    match validate_text(buf, pos, &mut ctx) {
        Ok(()) => Ok(ArchivedString::new(pos)),
        Err(e) => Err(e),
    }
}

/// Certifies the buffer as holding a map record at `pos` and returns the
/// typed view: well-formed, with its three regions disjoint.
pub fn access_hash_map(buf: &Vec<u8>, pos: usize) -> (r: Result<ArchivedHashMap, ValidationError>)
    requires
        buf@.len() <= MAX_LEN,
    ensures
        r is Ok <==> (map_wf(buf@, pos as int) && map_claims_free(
            buf@,
            pos as int,
            Seq::<(usize, usize)>::empty(),
        )),
        r is Ok ==> r.unwrap().pos == pos,
        r is Err ==> map_check(buf@, pos as int, Seq::<(usize, usize)>::empty()) == Err::<
            (),
            ValidationError,
        >(r->Err_0),
{
    let mut ctx: ValidationContext = ValidationContext::new();
    let ghost c0 = ctx@;
    let res: Result<(), ValidationError> = validate_hash_map(buf, pos, &mut ctx);
    proof {
        assert(c0 == Seq::<(usize, usize)>::empty());
    }
    match res {
        Ok(()) => Ok(ArchivedHashMap::new(pos)),
        Err(e) => Err(e),
    }
}

/// Certifies the buffer as holding a bit-sequence record at `pos` and returns
/// the typed view.
pub fn access_bit_sequence(buf: &Vec<u8>, pos: usize) -> (r: Result<
    ArchivedBitVec,
    ValidationError,
>)
    requires
        buf@.len() <= MAX_LEN,
    ensures
        r is Ok <==> bv_wf(buf@, pos as int),
        r is Ok ==> r.unwrap().pos == pos,
        r is Err ==> bit_check(buf@, pos as int, Seq::<(usize, usize)>::empty()) == Err::<
            (),
            ValidationError,
        >(r->Err_0),
{
    let mut ctx: ValidationContext = ValidationContext::new();
    match validate_bit_sequence(buf, pos, &mut ctx) {
        Ok(()) => Ok(ArchivedBitVec::new(pos)),
        Err(e) => Err(e),
    }
}

} // verus!
