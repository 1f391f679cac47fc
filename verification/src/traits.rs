//! Traits shared by the systems built on this library, for their types to
//! implement.

use vstd::prelude::*;
use crate::context::DeterministicContext;
use crate::errors::FoundationResult;
use crate::hash::{sha256_hex, sha256_spec, hex_bytes, is_lower_hex_char, lemma_hex_bytes_shape};
use crate::id::{DomainTag, DeterministicId};
use crate::time::LogicalTimestamp;

verus! {

/// A type with a deterministic content hash.
pub trait Hashable {
    /// The canonical bytes that are hashed.
    fn canonical_bytes(&self) -> Vec<u8>;

    /// The SHA-256 of the canonical bytes, as 64 lowercase hex digits.
    fn content_hash(&self) -> (h: String)
        ensures
            exists|b: Seq<u8>| h@ == hex_bytes(#[trigger] sha256_spec(b)),
            h@.len() == 64,
            forall|i: int| 0 <= i < h@.len() ==> is_lower_hex_char(#[trigger] h@[i]),
        default_ensures
            exists|b: Vec<u8>| call_ensures(Self::canonical_bytes, (self,), b)
                && h@ == hex_bytes(#[trigger] sha256_spec(b@)),
    {
        let bytes = self.canonical_bytes();
        let h = sha256_hex(bytes.as_slice());
        proof {
            lemma_hex_bytes_shape(sha256_spec(bytes@));
        }
        h
    }
}

/// A type that can check its own consistency.
pub trait Validatable {
    /// `Ok(())` when the value is consistent.
    fn validate(&self) -> FoundationResult<()>;
}

/// A type whose values can be merged deterministically.
pub trait Mergeable: Sized {
    /// The merge of `self` and `other`.
    fn merge(&self, other: &Self, ctx: &mut DeterministicContext) -> FoundationResult<Self>;
}

/// A type with a deterministic identifier.
pub trait Identifiable {
    /// The domain of the identifiers.
    type Domain: DomainTag;

    /// The identifier of the value.
    fn id(&self) -> DeterministicId<Self::Domain>;
}

/// A type that records the logical time of its last change.
pub trait Timestamped {
    /// The logical time of the last change.
    fn last_modified(&self) -> LogicalTimestamp;
}

/// A type with deterministic differences between values.
pub trait Diffable: Sized {
    /// The difference between two values.
    type Delta;

    /// The difference from `self` to `other`.
    fn diff(&self, other: &Self) -> FoundationResult<Self::Delta>;

    /// The value obtained by applying a difference to `self`.
    fn apply_delta(&self, delta: &Self::Delta) -> FoundationResult<Self>;
}

/// A type whose values can be snapshotted.
pub trait Snapshotable: Sized + Clone {
    /// A copy of the value: a clone of it.
    fn snapshot(&self) -> (s: Self)
        ensures
            cloned(*self, s),
    {
        self.clone()
    }
}

/// A deterministic step that transforms an input within a context.
pub trait DeterministicStep {
    /// The input of the step.
    type Input;
    /// The output of the step.
    type Output;

    /// Runs the step.
    fn execute(&self, input: &Self::Input, ctx: &mut DeterministicContext) -> FoundationResult<Self::Output>;
}

} // verus!
