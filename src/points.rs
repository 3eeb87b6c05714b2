//! The reading of the points of one data chunk, one decode at a time.
//!
//! The decoding itself belongs to the caller: it positions its source at
//! [`PointRange::offset`], decodes while [`PointRange::wants_point`] holds, and
//! reports each outcome to [`PointRange::record`].

use vstd::prelude::*;
use crate::error::CopcError;
use crate::hierarchy::Entry;

verus! {

/// The progress through the points of one data chunk.
#[derive(Debug)]
pub struct PointRange {
    offset: u64,
    total: u64,
    produced: u64,
    failed: bool,
}

impl PointRange {
    /// File offset of the chunk.
    pub closed spec fn spec_offset(&self) -> u64 {
        self.offset
    }

    /// Number of points in the chunk.
    pub closed spec fn spec_total(&self) -> nat {
        self.total as nat
    }

    /// Number of points decoded so far.
    pub closed spec fn spec_produced(&self) -> nat {
        self.produced as nat
    }

    /// Whether a decode has failed.
    pub closed spec fn spec_failed(&self) -> bool {
        self.failed
    }

    /// Another point is to be decoded: none failed and some remain.
    pub open spec fn spec_wants_point(&self) -> bool {
        !self.spec_failed() && self.spec_produced() < self.spec_total()
    }

    /// The points of the chunk that a data entry describes; `CorruptHierarchy` for
    /// an entry that is not a data entry.
    pub fn new(entry: Entry) -> (r: Result<PointRange, CopcError>)
        ensures
            r.is_ok() <==> entry.spec_is_data(),
            !entry.spec_is_data() ==> r == Err::<PointRange, CopcError>(CopcError::CorruptHierarchy),
            r.is_ok() ==> ({
                let p = r.unwrap();
                &&& p.spec_offset() == entry.offset
                &&& p.spec_total() == entry.point_count
                &&& p.spec_produced() == 0
                &&& !p.spec_failed()
            }),
    {
        if !entry.is_data() {
            return Err(CopcError::CorruptHierarchy);
        }
        Ok(PointRange { offset: entry.offset, total: entry.point_count as u64, produced: 0, failed: false })
    }

    /// File offset at which the chunk starts.
    pub fn offset(&self) -> (r: u64)
        ensures
            r == self.spec_offset(),
    {
        self.offset
    }

    /// Number of points in the chunk.
    pub fn point_count(&self) -> (r: u64)
        ensures
            r == self.spec_total(),
    {
        self.total
    }

    /// Number of points decoded so far.
    pub fn produced(&self) -> (r: u64)
        ensures
            r == self.spec_produced(),
    {
        self.produced
    }

    /// Whether another point is to be decoded.
    pub fn wants_point(&self) -> (r: bool)
        ensures
            r == self.spec_wants_point(),
    {
        !self.failed && self.produced < self.total
    }

    /// Records the outcome of one decode. A success counts one more point; a failure
    /// ends the sequence and is reported as `DecodeError`.
    pub fn record(&mut self, decoded: bool) -> (r: Result<(), CopcError>)
        requires
            old(self).spec_wants_point(),
        ensures
            final(self).spec_offset() == old(self).spec_offset(),
            final(self).spec_total() == old(self).spec_total(),
            decoded ==> r == Ok::<(), CopcError>(()),
            decoded ==> final(self).spec_produced() == old(self).spec_produced() + 1,
            decoded ==> !final(self).spec_failed(),
            !decoded ==> r == Err::<(), CopcError>(CopcError::DecodeError),
            !decoded ==> final(self).spec_produced() == old(self).spec_produced(),
            !decoded ==> final(self).spec_failed(),
    {
        if decoded {
            self.produced = self.produced + 1;
            Ok(())
        } else {
            self.failed = true;
            Err(CopcError::DecodeError)
        }
    }
}

} // verus!
