//! The two-phase archive protocol.
//!
//! Serializing a value writes its out-of-line dependents first and captures
//! their positions in a resolver; resolving then builds the value's
//! fixed-size archived record, which embeds relative pointers computed from
//! the record's own final position.

use vstd::prelude::*;

verus! {

/// A type with an archived form.
///
/// The serialize phase is specific to each implementing type (it needs a
/// writer); this trait captures the resolve phase: turning a value and the
/// resolver produced by its serialize phase into the bytes of its archived
/// record.
pub trait Archive {
    /// Transient data captured by the serialize phase and consumed exactly
    /// once by [`Archive::resolve`].
    type Resolver;

    /// Required alignment of the archived record.
    spec fn archived_align(&self) -> int;

    /// What must hold of `resolver` for a record placed at `pos`.
    spec fn resolver_wf(&self, pos: int, resolver: Self::Resolver) -> bool;

    /// The bytes of the archived record when placed at `pos`.
    spec fn archived(&self, pos: int, resolver: Self::Resolver) -> Seq<u8>;

    /// The required alignment of the archived record, as a runtime value.
    fn record_align(&self) -> (r: usize)
        ensures
            r as int == self.archived_align(),
    ;

    /// Builds the archived record for a record position `pos` in a scratch
    /// buffer.
    fn resolve(&self, pos: usize, resolver: Self::Resolver) -> (out: Vec<u8>)
        requires
            self.resolver_wf(pos as int, resolver),
        ensures
            out@ =~= self.archived(pos as int, resolver),
    ;
}

} // verus!
