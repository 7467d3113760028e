//! Verified core of a reward-distribution pipeline.
//!
//! A trigger event names one distribution round. Pluggable reward sources
//! report eligible accounts and per-account reward amounts; the registry
//! deduplicates accounts and sums rewards with overflow detection. The
//! resulting claims are committed to by a canonical Merkle root, published
//! as a content-addressed document, and the round's result is returned as
//! an ABI-encoded binary record.

pub mod claim;
pub mod erc721;
pub mod hash;
pub mod ipfs;
pub mod merkle;
pub mod pipeline;
pub mod sources;
pub mod trigger;
pub mod uint256;

use vstd::prelude::*;

verus! {

/// Failures of one pipeline invocation, by stage.
#[derive(Clone, PartialEq, Eq, Structural, Debug)]
pub enum RewardsError {
    /// The trigger payload had an unrecognized kind.
    UnsupportedTrigger,
    /// A contract-event payload did not match the expected event schema.
    DecodeError,
    /// Required configuration was absent.
    ConfigMissing,
    /// A reward source's query failed or returned undecodable data.
    SourceQueryFailure,
    /// A reward sum exceeded the 256-bit range.
    Overflow,
    /// No claims: a valid no-op outcome, with nothing to publish.
    EmptyDistribution,
    /// The upload failed or its response held no usable content reference.
    PublishError,
    /// The final record could not be encoded.
    EncodeError,
}

} // verus!
