//! Zero-copy archival of container values into a single contiguous byte
//! buffer.
//!
//! A live value is serialized in two phases: the first pass writes its
//! out-of-line dependents and returns a resolver recording their positions;
//! the second pass emits a fixed-size record holding relative pointers to
//! those positions.  A reader either trusts the buffer's provenance and
//! addresses into it directly, or first certifies it with the validation
//! context, which bounds-, alignment- and overlap-checks every reachable
//! region.
//!
//! All multi-byte fields are little-endian, and every record is aligned to
//! four bytes.

pub mod bytes;
pub mod writer;
pub mod resolve;
pub mod sequence;
pub mod text;
pub mod bitvec;
pub mod hashmap;
pub mod validation;
pub mod util;

use vstd::prelude::*;

verus! {

/// Upper bound on the length of an archive buffer.  Keeping every position
/// at or below this bound guarantees that any offset between two positions
/// fits in a 32-bit signed offset word.
pub const MAX_LEN: usize = 0x4000_0000;

} // verus!
