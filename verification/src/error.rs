use vstd::prelude::*;

verus! {

/// Why a split or a merge was refused.
#[derive(Debug, Clone, Copy, PartialEq, Eq, Structural)]
pub enum Error {
    /// Fewer than two disks were asked for: there is no room for parity.
    TooFewDisks,
    /// A disk header records `found` bytes where an earlier disk recorded `expected`.
    LengthInconsistency { found: u64, expected: u64 },
    /// A second disk could not be opened.
    TooManyMissingDisks,
    /// No disk could be opened at all.
    NoDisksAvailable,
    /// Disk `disk` ended after `bytes_read` bytes of a chunk that was still needed.
    PartialChunk { disk: usize, bytes_read: usize },
}

impl Error {
    /// The short description of the failure, without its details.
    pub fn description(&self) -> (text: &'static str)
        ensures
            text@ == self.description_spec()@,
    {
        match self {
            Error::TooFewDisks => "At least two disks are required",
            Error::LengthInconsistency { .. } => "File length inconsistency",
            Error::TooManyMissingDisks => "Too Many missing disks",
            Error::NoDisksAvailable => "Could not load any disks",
            Error::PartialChunk { .. } => "Read a partial chunk",
        }
    }

    pub open spec fn description_spec(&self) -> &'static str {
        match self {
            Error::TooFewDisks => "At least two disks are required",
            Error::LengthInconsistency { .. } => "File length inconsistency",
            Error::TooManyMissingDisks => "Too Many missing disks",
            Error::NoDisksAvailable => "Could not load any disks",
            Error::PartialChunk { .. } => "Read a partial chunk",
        }
    }
}

} // verus!
