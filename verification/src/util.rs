//! Whole-value serialization into fresh buffers, certification of the
//! result, and the round-trip laws: for every supported container value,
//! fully materializing from a freshly serialized buffer reproduces the value
//! exactly.

use vstd::prelude::*;
use vstd::utf8::encode_utf8;
use vstd::string::StringSliceAdditionalSpecFns;
use std::collections::HashMap;
use crate::MAX_LEN;
use crate::writer::{BufferWriter, Writer, WriteError};
use crate::sequence::{seq_wf, seq_elems, serialize_sequence, ArchivedVec};
use crate::text::{str_wf, str_content, serialize_text, ArchivedString};
use crate::hashmap::{
    map_wf, map_contents, entries_map, distinct_keys, serialize_hash_map, ArchivedHashMap,
    DISP_LEN, MAX_ENTRIES,
};
use crate::bitvec::{bv_wf, bv_bits, word_count, serialize_bit_sequence, ArchivedBitVec};
use crate::validation::{
    validate_sequence, validate_text, validate_hash_map, validate_bit_sequence, ValidationContext,
};

verus! {

/// A container value of one of the archived shapes.
pub enum Value {
    /// A growable sequence of 32-bit integers.
    Ints(Vec<u32>),
    /// Text.
    Text(String),
    /// An associative map given by its entries.
    Pairs(Vec<(u32, u32)>),
    /// A bit sequence.
    Bits(Vec<bool>),
}

/// What serialization asks of a value: map keys pairwise distinct, sizes
/// within the format's limits.
pub open spec fn value_wf(v: Value) -> bool {
    match v {
        Value::Ints(elems) => true,
        Value::Text(s) => true,
        Value::Pairs(entries) => distinct_keys(entries@) && entries@.len() <= MAX_ENTRIES,
        Value::Bits(bits) => bits@.len() <= MAX_LEN,
    }
}

/// A buffer size that certainly suffices for `v`.
pub open spec fn value_fits(v: Value) -> bool {
    match v {
        Value::Ints(elems) => 11 + 4 * elems@.len() <= MAX_LEN,
        Value::Text(s) => 19 + encode_utf8(s@).len() <= MAX_LEN,
        Value::Pairs(entries) => 29 + 8 * entries@.len() + 4 * (DISP_LEN as int) + 0x40000
            * entries@.len() <= MAX_LEN,
        Value::Bits(bits) => 15 + 4 * word_count(bits@.len() as int) <= MAX_LEN,
    }
}

/// Serializes `value` into a fresh buffer and certifies the result with the
/// validation context before handing it out; a freshly produced buffer always
/// passes validation.  Returns the buffer and the position of the top-level
/// record.
pub fn serialize_and_check(value: &Value) -> (r: Result<(Vec<u8>, usize), WriteError>)
    requires
        value_wf(*value),
    ensures
        value_fits(*value) ==> r is Ok,
        r is Ok ==> ({
            let buf = r.unwrap().0@;
            let pos = r.unwrap().1 as int;
            match *value {
                Value::Ints(elems) => seq_wf(buf, pos) && seq_elems(buf, pos) =~= elems@,
                Value::Text(s) => str_wf(buf, pos) && str_content(buf, pos) =~= encode_utf8(s@),
                Value::Pairs(entries) => map_wf(buf, pos) && map_contents(buf, pos) =~= entries_map(
                    entries@,
                ),
                Value::Bits(bits) => bv_wf(buf, pos) && bv_bits(buf, pos) =~= bits@,
            }
        }),
{
    let mut w: BufferWriter = BufferWriter::new();
    match value {
        Value::Ints(elems) => {
            proof {
                if value_fits(*value) {
                    assert(w.accepts(11 + 4 * elems@.len() as int));
                }
            }
            let pos: usize = match serialize_sequence(elems, &mut w) {
                Ok(p) => p,
                Err(e) => {
                    return Err(e);
                },
            };
            let buf: Vec<u8> = w.into_buffer();
            let mut ctx: ValidationContext = ValidationContext::new();
            let chk: Result<(), crate::validation::ValidationError> = validate_sequence(
                &buf,
                pos,
                &mut ctx,
            );
            proof {
                assert(chk is Ok);
            }
            Ok((buf, pos))
        },
        Value::Text(s) => {
            proof {
                if value_fits(*value) {
                    assert(w.accepts(19 + encode_utf8(s@).len() as int));
                }
            }
            let pos: usize = match serialize_text(s.as_str(), &mut w) {
                Ok(p) => p,
                Err(e) => {
                    return Err(e);
                },
            };
            let buf: Vec<u8> = w.into_buffer();
            let mut ctx: ValidationContext = ValidationContext::new();
            let chk: Result<(), crate::validation::ValidationError> = validate_text(
                &buf,
                pos,
                &mut ctx,
            );
            proof {
                assert(chk is Ok);
            }
            Ok((buf, pos))
        },
        Value::Pairs(entries) => {
            proof {
                if value_fits(*value) {
                    assert(w.accepts(29 + 8 * entries@.len() as int + 4 * (DISP_LEN as int)
                        + 0x40000 * entries@.len() as int));
                }
            }
            let pos: usize = match serialize_hash_map(entries, &mut w) {
                Ok(p) => p,
                Err(e) => {
                    return Err(e);
                },
            };
            let buf: Vec<u8> = w.into_buffer();
            let mut ctx: ValidationContext = ValidationContext::new();
            let chk: Result<(), crate::validation::ValidationError> = validate_hash_map(
                &buf,
                pos,
                &mut ctx,
            );
            proof {
                assert(chk is Ok);
            }
            Ok((buf, pos))
        },
        Value::Bits(bits) => {
            proof {
                if value_fits(*value) {
                    assert(w.accepts(15 + 4 * word_count(bits@.len() as int)));
                }
            }
            let pos: usize = match serialize_bit_sequence(bits, &mut w) {
                Ok(p) => p,
                Err(e) => {
                    return Err(e);
                },
            };
            let buf: Vec<u8> = w.into_buffer();
            let mut ctx: ValidationContext = ValidationContext::new();
            let chk: Result<(), crate::validation::ValidationError> = validate_bit_sequence(
                &buf,
                pos,
                &mut ctx,
            );
            proof {
                assert(chk is Ok);
            }
            Ok((buf, pos))
        },
    }
}

/// Round trip for sequences: for every sequence of words, materializing the
/// freshly serialized buffer reproduces it exactly.
pub fn round_trip_sequence(elems: &Vec<u32>) -> (r: Result<Vec<u32>, WriteError>)
    ensures
        11 + 4 * elems@.len() <= MAX_LEN ==> r is Ok,
        r is Ok ==> r.unwrap()@ =~= elems@,
{
    let mut w: BufferWriter = BufferWriter::new();
    let pos: usize = match serialize_sequence(elems, &mut w) {
        Ok(p) => p,
        Err(e) => {
            return Err(e);
        },
    };
    let buf: Vec<u8> = w.into_buffer();
    Ok(ArchivedVec::new(pos).deserialize(&buf))
}

/// Round trip for text: for every string, reading the freshly serialized
/// buffer back reproduces its characters exactly.
pub fn round_trip_text(value: &str) -> (r: Result<String, WriteError>)
    ensures
        19 + value.spec_bytes().len() <= MAX_LEN ==> r is Ok,
        r is Ok ==> r.unwrap()@ == value@,
{
    let mut w: BufferWriter = BufferWriter::new();
    let pos: usize = match serialize_text(value, &mut w) {
        Ok(p) => p,
        Err(e) => {
            return Err(e);
        },
    };
    let buf: Vec<u8> = w.into_buffer();
    let out: String = ArchivedString::new(pos).as_str(&buf).to_owned();
    proof {
        vstd::utf8::encode_utf8_decode_utf8(value@);
    }
    Ok(out)
}

/// Round trip for maps: for every entry list with distinct keys,
/// materializing the freshly serialized buffer yields exactly the mapping the
/// entries denote.
pub fn round_trip_hash_map(entries: &Vec<(u32, u32)>) -> (r: Result<HashMap<u32, u32>, WriteError>)
    requires
        distinct_keys(entries@),
        entries@.len() <= MAX_ENTRIES,
    ensures
        29 + 8 * entries@.len() + 4 * (DISP_LEN as int) + 0x40000 * entries@.len() <= MAX_LEN
            ==> r is Ok,
        r is Ok ==> r.unwrap()@ =~= entries_map(entries@),
{
    let mut w: BufferWriter = BufferWriter::new();
    proof {
        if 29 + 8 * entries@.len() + 4 * (DISP_LEN as int) + 0x40000 * entries@.len() <= MAX_LEN {
            assert(w.accepts(29 + 8 * entries@.len() as int + 4 * (DISP_LEN as int) + 0x40000
                * entries@.len() as int));
        }
    }
    let pos: usize = match serialize_hash_map(entries, &mut w) {
        Ok(p) => p,
        Err(e) => {
            return Err(e);
        },
    };
    let buf: Vec<u8> = w.into_buffer();
    Ok(ArchivedHashMap::new(pos).deserialize(&buf))
}

/// Round trip for bit sequences: for every sequence of bits, materializing
/// the freshly serialized buffer reproduces exactly the original bits,
/// whatever the trailing bits of the last storage word hold.
pub fn round_trip_bit_sequence(bits: &Vec<bool>) -> (r: Result<Vec<bool>, WriteError>)
    requires
        bits@.len() <= MAX_LEN,
    ensures
        15 + 4 * word_count(bits@.len() as int) <= MAX_LEN ==> r is Ok,
        r is Ok ==> r.unwrap()@ =~= bits@,
{
    let mut w: BufferWriter = BufferWriter::new();
    let pos: usize = match serialize_bit_sequence(bits, &mut w) {
        Ok(p) => p,
        Err(e) => {
            return Err(e);
        },
    };
    let buf: Vec<u8> = w.into_buffer();
    Ok(ArchivedBitVec::new(pos).deserialize(&buf))
}

} // verus!
