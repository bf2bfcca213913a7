//! Errors of the store.

use crate::hlc::HlcPoint;
use vstd::prelude::*;

verus! {

/// What does not hold that always should.
#[derive(Clone, Copy, Debug, PartialEq, Eq, Structural)]
pub enum StoreInvariant {
    /// A close event lies before an earlier one.
    CloseHlcRegression {
        /// The earlier close event.
        previous: HlcPoint,
        /// The later close event.
        later: HlcPoint,
    },
    /// The store would open before what it recovered.
    BootstrapHlcOutOfOrder {
        /// Where it would open.
        open_hlc: HlcPoint,
        /// The latest recovered event.
        max_recovered_hlc: HlcPoint,
        /// The last close event.
        last_close_hlc: HlcPoint,
    },
    /// Wall clock milliseconds have no number of microseconds.
    OpenHlcWallMsOverflow {
        /// The milliseconds.
        wall_ms: u64,
    },
    /// Wall clock microseconds fit no timestamp.
    OpenHlcTimestampOutOfRange {
        /// The milliseconds.
        wall_ms: u64,
    },
    /// An event that was written is not in the index.
    OpenReceiptNotIndexed {
        /// The event.
        event_id: u128,
    },
}

/// Why a store operation was refused or failed.
#[derive(Debug)]
pub enum StoreError {
    /// Input or output failed.
    Io {
        /// What kind of error it was.
        kind: crate::platform::evidence::IoErrorKind,
        /// Its text.
        message: String,
    },
    /// A cache failed.
    CacheFailed {
        /// Why.
        message: String,
    },
    /// A visibility bound would exceed the allocator or move backwards.
    SequenceGateViolation {
        /// Operation that asked for the bound.
        operation: &'static str,
        /// Bound that was asked for.
        requested: u64,
        /// Allocator position.
        allocated: u64,
        /// Current bound.
        visible: u64,
    },
    /// A visibility fence is already active.
    VisibilityFenceActive,
    /// The fence token does not name the active fence.
    VisibilityFenceNotActive,
    /// Every string id is taken.
    InternerFull,
    /// A batch of idempotency keys cannot be admitted as a unit.
    IdempotencyPartialBatch {
        /// Why not.
        reason: String,
    },
    /// The idempotency store is at its cap and refuses new keys.
    IdempotencyOverflowFailClosed {
        /// Keys that are held.
        len: u64,
        /// The cap.
        max_keys: u64,
    },
    /// The idempotency file has a version from the future.
    IdempotencyFutureVersion {
        /// Version of the file.
        stored: u16,
        /// Version that is understood.
        current: u16,
    },
    /// The keyset file cannot be used.
    KeysetCorrupt {
        /// Why not.
        reason: String,
    },
    /// The platform does not offer what the store needs.
    PlatformAdmissionFailed {
        /// What the store needs.
        capability: &'static str,
        /// What was found instead.
        reason: String,
    },
    /// A stored platform profile cannot be used.
    PlatformProfileInvalid {
        /// Where it is stored.
        path: String,
        /// What is wrong with it.
        kind: crate::platform::profile::ProfileInvalidKind,
    },
    /// A stored platform profile speaks of another platform.
    PlatformProfileMismatch {
        /// Where it is stored.
        path: String,
        /// How they differ.
        reason: String,
    },
    /// A projection declares nothing of the size of its state.
    ProjectionStateContractUnspecified {
        /// The projection.
        projection: String,
    },
    /// The size of a projection's state cannot be learned.
    ProjectionStateExtentUnavailable {
        /// The projection.
        projection: String,
        /// What it declares.
        declared: crate::projection::state_contract::ProjectionStateContract,
        /// What was learned.
        actual: crate::projection::state_contract::StateExtent,
    },
    /// A projection's state is larger than was declared.
    ProjectionStateBoundExceeded {
        /// The projection.
        projection: String,
        /// What it declares.
        declared: crate::projection::state_contract::ProjectionStateContract,
        /// The state's size.
        actual: crate::projection::state_contract::StateExtent,
    },
    /// A clock reading cannot be stored.
    InvalidClock {
        /// The reading.
        timestamp_us: i64,
        /// Why not.
        reason: String,
    },
    /// A setting cannot be used.
    Configuration(String),
    /// A value could not be encoded or decoded.
    Serialization {
        /// Why not.
        message: String,
    },
    /// A payload could not be deciphered under its key.
    PayloadCipher {
        /// The event.
        event_id: u128,
    },
    /// A payload's key was destroyed.
    PayloadShredded {
        /// The event.
        event_id: u128,
    },
    /// Two payload types are registered under one kind.
    EventPayloadRegistry {
        /// Which.
        message: String,
    },
    /// An entity and a scope make no coordinate.
    InvalidCoordinate(crate::coordinate::CoordinateError),
    /// The writer is gone.
    WriterCrashed,
    /// Something that always holds does not.
    InvariantViolation {
        /// What.
        kind: StoreInvariant,
    },
    /// A persisted artifact is corrupt.
    CorruptSegment {
        /// Segment that holds it, or zero for a logical artifact.
        segment_id: u64,
        /// What is wrong with it.
        detail: String,
    },
}

fn two_parts(first: &str, second: &str) -> (text: String)
    ensures
        text@ == first@ + second@,
{
    let mut text = first.to_owned();
    text.append(second);
    text
}

impl StoreError {
    /// The error in words.
    pub open spec fn text(&self) -> Seq<char> {
        match self {
            StoreError::Io { message, .. } => "input or output failed: "@ + message@,
            StoreError::CacheFailed { message } => "cache failed: "@ + message@,
            StoreError::SequenceGateViolation { operation, .. } => "sequence gate violation in "@ + operation@,
            StoreError::VisibilityFenceActive => "a visibility fence is already active"@,
            StoreError::VisibilityFenceNotActive => "the visibility fence is not active"@,
            StoreError::InternerFull => "every string id is taken"@,
            StoreError::IdempotencyPartialBatch { reason } => "idempotency keys cannot be admitted: "@ + reason@,
            StoreError::IdempotencyOverflowFailClosed { .. } => "the idempotency store is at its cap"@,
            StoreError::IdempotencyFutureVersion { .. } => "the idempotency file has a version from the future"@,
            StoreError::KeysetCorrupt { reason } => "keyset corrupt, refusing to open: "@ + reason@,
            StoreError::PlatformAdmissionFailed { reason, .. } => "platform admission failed: "@ + reason@,
            StoreError::PlatformProfileInvalid { path, .. } => "platform profile cannot be used: "@ + path@,
            StoreError::PlatformProfileMismatch { path, .. } => "platform profile speaks of another platform: "@ + path@,
            StoreError::ProjectionStateContractUnspecified { projection } => "projection declares no state contract: "@ + projection@,
            StoreError::ProjectionStateExtentUnavailable { projection, .. } => "size of the projection's state is unavailable: "@ + projection@,
            StoreError::ProjectionStateBoundExceeded { projection, .. } => "projection's state exceeds its bound: "@ + projection@,
            StoreError::InvalidClock { reason, .. } => "clock reading cannot be stored: "@ + reason@,
            StoreError::Configuration(text) => "configuration error: "@ + text@,
            StoreError::Serialization { message } => "serialization failed: "@ + message@,
            StoreError::PayloadCipher { .. } => "the payload could not be deciphered"@,
            StoreError::PayloadShredded { .. } => "the payload's key was destroyed"@,
            StoreError::EventPayloadRegistry { message } => "event payload registry: "@ + message@,
            StoreError::InvalidCoordinate(_) => "an entity and a scope make no coordinate"@,
            StoreError::WriterCrashed => "the writer is gone"@,
            StoreError::InvariantViolation { .. } => "an invariant does not hold"@,
            StoreError::CorruptSegment { detail, .. } => "corrupt segment: "@ + detail@,
        }
    }

    /// The error in words.
    pub fn message(&self) -> (text: String)
        ensures
            text@ == self.text(),
    {
        match self {
            StoreError::Io { message, .. } => two_parts("input or output failed: ", message.as_str()),
            StoreError::CacheFailed { message } => two_parts("cache failed: ", message.as_str()),
            StoreError::SequenceGateViolation { operation, .. } => two_parts("sequence gate violation in ", operation),
            StoreError::VisibilityFenceActive => "a visibility fence is already active".to_owned(),
            StoreError::VisibilityFenceNotActive => "the visibility fence is not active".to_owned(),
            StoreError::InternerFull => "every string id is taken".to_owned(),
            StoreError::IdempotencyPartialBatch { reason } => two_parts("idempotency keys cannot be admitted: ", reason.as_str()),
            StoreError::IdempotencyOverflowFailClosed { .. } => "the idempotency store is at its cap".to_owned(),
            StoreError::IdempotencyFutureVersion { .. } => "the idempotency file has a version from the future".to_owned(),
            StoreError::KeysetCorrupt { reason } => two_parts("keyset corrupt, refusing to open: ", reason.as_str()),
            StoreError::PlatformAdmissionFailed { reason, .. } => two_parts("platform admission failed: ", reason.as_str()),
            StoreError::PlatformProfileInvalid { path, .. } => two_parts("platform profile cannot be used: ", path.as_str()),
            StoreError::PlatformProfileMismatch { path, .. } => two_parts("platform profile speaks of another platform: ", path.as_str()),
            StoreError::ProjectionStateContractUnspecified { projection } => two_parts("projection declares no state contract: ", projection.as_str()),
            StoreError::ProjectionStateExtentUnavailable { projection, .. } => two_parts("size of the projection's state is unavailable: ", projection.as_str()),
            StoreError::ProjectionStateBoundExceeded { projection, .. } => two_parts("projection's state exceeds its bound: ", projection.as_str()),
            StoreError::InvalidClock { reason, .. } => two_parts("clock reading cannot be stored: ", reason.as_str()),
            StoreError::Configuration(text) => two_parts("configuration error: ", text.as_str()),
            StoreError::Serialization { message } => two_parts("serialization failed: ", message.as_str()),
            StoreError::PayloadCipher { .. } => "the payload could not be deciphered".to_owned(),
            StoreError::PayloadShredded { .. } => "the payload's key was destroyed".to_owned(),
            StoreError::EventPayloadRegistry { message } => two_parts("event payload registry: ", message.as_str()),
            StoreError::InvalidCoordinate(_) => "an entity and a scope make no coordinate".to_owned(),
            StoreError::WriterCrashed => "the writer is gone".to_owned(),
            StoreError::InvariantViolation { .. } => "an invariant does not hold".to_owned(),
            StoreError::CorruptSegment { detail, .. } => two_parts("corrupt segment: ", detail.as_str()),
        }
    }
}

/// The words of an error that was caused by another, or that names something, end in the
/// cause or the name.
pub proof fn law_message_ends_in_the_cause(e: &StoreError, text: String, cause: Seq<char>)
    requires
        call_ensures(StoreError::message, (e,), text),
        match e {
            StoreError::Io { message, .. } => cause == message@,
            StoreError::CacheFailed { message } => cause == message@,
            StoreError::SequenceGateViolation { operation, .. } => cause == operation@,
            StoreError::IdempotencyPartialBatch { reason } => cause == reason@,
            StoreError::KeysetCorrupt { reason } => cause == reason@,
            StoreError::PlatformAdmissionFailed { reason, .. } => cause == reason@,
            StoreError::PlatformProfileInvalid { path, .. } => cause == path@,
            StoreError::PlatformProfileMismatch { path, .. } => cause == path@,
            StoreError::ProjectionStateContractUnspecified { projection } => cause == projection@,
            StoreError::ProjectionStateExtentUnavailable { projection, .. } => cause
                == projection@,
            StoreError::ProjectionStateBoundExceeded { projection, .. } => cause == projection@,
            StoreError::InvalidClock { reason, .. } => cause == reason@,
            StoreError::Configuration(why) => cause == why@,
            StoreError::Serialization { message } => cause == message@,
            StoreError::EventPayloadRegistry { message } => cause == message@,
            StoreError::CorruptSegment { detail, .. } => cause == detail@,
            _ => cause.len() == 0,
        },
    ensures
        text@.len() >= cause.len(),
        text@.skip(text@.len() - cause.len()) == cause,
{
    assert(text@.skip(text@.len() - cause.len()) =~= cause);
}

} // verus!
