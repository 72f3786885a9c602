//! Errors of chain-block validation.

use vstd::prelude::*;
use crate::hash::Hash256;
use crate::proof_single::SmtProofError;

verus! {

/// A lane id: a 20-byte subnetwork identifier.
pub type LaneId = [u8; 20];

/// Where an error was raised: a source file and a line in it.
#[derive(Debug, Clone)]
pub struct ErrorLocation {
    file: String,
    line: String,
}

impl ErrorLocation {
    /// The source file, as characters.
    pub closed spec fn spec_file(&self) -> Seq<char> {
        self.file@
    }

    /// The line, as characters.
    pub closed spec fn spec_line(&self) -> Seq<char> {
        self.line@
    }

    /// A location in `file` at `line`.
    pub fn new(file: String, line: String) -> (r: ErrorLocation)
        ensures
            r.spec_file() == file@,
            r.spec_line() == line@,
    {
        ErrorLocation { file, line }
    }

    /// The source file.
    pub fn file(&self) -> (f: &str)
        ensures
            f@ == self.spec_file(),
    {
        self.file.as_str()
    }

    /// The line.
    pub fn line(&self) -> (l: &str)
        ensures
            l@ == self.spec_line(),
    {
        self.line.as_str()
    }
}

/// The result of validation.
pub type AtanResult<T> = Result<T, AtanError>;

/// An error of the validator.
#[derive(Debug, Clone, PartialEq)]
pub enum AtanError {
    /// The validated data is invalid.
    Validation(ValidationError),
    /// The validator itself failed.
    System(SystemError),
}

/// Why a chain block is invalid.
#[derive(Debug, Clone, PartialEq)]
pub enum ValidationError {
    /// The stated sequencing commitment differs from the one the block's data implies.
    InvalidSequencingCommitment(Expected<Hash256>, Actual<Hash256>),
    /// A recent block's selected parent commitment differs from the chain tip's commitment.
    RecentBlockDoesntConnect(Expected<Hash256>, Actual<Hash256>),
    /// A historical block's commitment differs from the selected parent commitment of the
    /// chain's sink.
    HistoricalBlockDoesntConnect(Expected<Hash256>, Actual<Hash256>),
    /// The lane's sparse-Merkle-tree proof is malformed.
    InvalidLaneSMTProof(SmtProofError),
    /// The block holds no lane.
    EmptyLanesWithActivityDigests,
    /// A single-lane validator got a number of lanes other than one.
    InvalidNumberOfLanesWithActivityDigests(Actual<usize>),
    /// A single-lane validator got another lane than its own.
    InvalidLaneID(Expected<LaneId>, Actual<LaneId>),
    /// Two lanes imply different active-lanes roots: the first lane, its root, the other lane,
    /// its root.
    UnmatchingActiveLanesRootForDifferentLanes(LaneId, Hash256, LaneId, Hash256),
}

/// Failures of the validator itself: none so far, so no value of this type exists.
#[derive(Debug, Clone, Copy, PartialEq)]
pub struct SystemError(pub core::convert::Infallible);

/// Wraps the expected value in an error.
#[derive(Debug, Clone, PartialEq)]
pub struct Expected<T>(pub T);

/// Wraps the actual value in an error.
#[derive(Debug, Clone, PartialEq)]
pub struct Actual<T>(pub T);

} // verus!
