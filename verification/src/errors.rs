//! Error taxonomy of the cache-and-query layer, and the rules that say how
//! each kind is treated on the read and the mutation path.

use vstd::prelude::*;

verus! {

/// Every failure the layer can report.
///
/// - `CacheUnavailable`: the cache backend is unreachable; reads degrade to
///   persistence-only operation, writes skip cache population.
/// - `SerializationError`: an encode/decode failure; fatal to the single
///   operation touching the malformed value only.
/// - `NotFound`: absence; surfaced as an empty result at the API boundary.
/// - `ValidationError`: the entity failed its invariants before a mutation
///   was attempted; the mutation never reaches persistence.
/// - `StoreFailure`: a persistence-layer error, propagated unchanged.
/// - `InvalidationFailure`: non-fatal; the mutation result is unaffected.
/// - `NotImplemented`: an operation the deployment does not support.
#[derive(Clone, Copy, Debug, PartialEq, Eq, Structural)]
pub enum CoreError {
    CacheUnavailable,
    SerializationError,
    NotFound,
    ValidationError,
    StoreFailure,
    InvalidationFailure,
    NotImplemented,
}

impl CoreError {
    /// Whether a read path may continue to persistence after this error:
    /// only an unreachable cache backend degrades a read without failing it.
    pub fn read_degrades(&self) -> (r: bool)
        ensures
            r == (*self is CacheUnavailable),
    {
        match self {
            CoreError::CacheUnavailable => true,
            _ => false,
        }
    }

    /// Whether this error must stop a mutation before it reaches
    /// persistence or must be reported as the mutation's outcome.
    /// Cache and invalidation failures are fire-and-forget on the write
    /// path: they never escalate the mutation's success or failure.
    pub fn blocks_mutation(&self) -> (r: bool)
        ensures
            r == (*self is ValidationError || *self is StoreFailure
                || *self is SerializationError || *self is NotFound
                || *self is NotImplemented),
    {
        match self {
            CoreError::CacheUnavailable => false,
            CoreError::InvalidationFailure => false,
            _ => true,
        }
    }

    /// The spec-level text of `message`.
    pub open spec fn spec_message(&self) -> Seq<char> {
        match *self {
            CoreError::CacheUnavailable => "cache backend unavailable"@,
            CoreError::SerializationError => "value could not be encoded or decoded"@,
            CoreError::NotFound => "entity not found"@,
            CoreError::ValidationError => "entity failed validation"@,
            CoreError::StoreFailure => "persistence store failure"@,
            CoreError::InvalidationFailure => "cache invalidation failed"@,
            CoreError::NotImplemented => "operation not implemented"@,
        }
    }

    /// A human-readable description of the error.
    pub fn message(&self) -> (r: String)
        ensures
            r@ == self.spec_message(),
    {
        match self {
            CoreError::CacheUnavailable => "cache backend unavailable".to_owned(),
            CoreError::SerializationError => "value could not be encoded or decoded".to_owned(),
            CoreError::NotFound => "entity not found".to_owned(),
            CoreError::ValidationError => "entity failed validation".to_owned(),
            CoreError::StoreFailure => "persistence store failure".to_owned(),
            CoreError::InvalidationFailure => "cache invalidation failed".to_owned(),
            CoreError::NotImplemented => "operation not implemented".to_owned(),
        }
    }
}

} // verus!
