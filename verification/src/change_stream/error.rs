//! What a change stream refuses, and how it says so.
use crate::ids::StorageDataVersion;
use crate::text;
use vstd::prelude::*;

verus! {

/// A refused change-stream operation.
#[derive(Debug, PartialEq, Eq)]
pub enum ChangeStreamError {
    /// The file layer failed, with its own message.
    Io(String),
    InvalidMagic,
    UnsupportedVersion(u16),
    ChecksumMismatch { offset: u64 },
    Truncated { offset: u64 },
    InvalidHeader(&'static str),
    InvalidRecord(&'static str),
    RecordTooLarge(u64),
    MutationCountTooLarge(u64),
    RowPayloadTooLarge(u64),
    ContextMismatch,
    StreamIdentityMismatch,
    HistoryUnavailable,
    ChangeGap { expected: StorageDataVersion, actual: StorageDataVersion },
    Disabled,
    Busy,
    FinalizeCheckpointPending,
    RetentionPinned { requested: StorageDataVersion, pinned: StorageDataVersion },
    RetentionPinFrontierRegression { current: StorageDataVersion, requested: StorageDataVersion },
    RetentionPinUnavailable,
    Unavailable(String),
    VersionExhausted,
}

/// The message of an error.
pub open spec fn message(error: ChangeStreamError) -> Seq<char> {
    match error {
        ChangeStreamError::Io(reason) => "change-log I/O error: "@ + reason@,
        ChangeStreamError::InvalidMagic => "change-log magic does not match"@,
        ChangeStreamError::UnsupportedVersion(version) =>
            "unsupported change-log format version "@ + text::decimal(version as nat),
        ChangeStreamError::ChecksumMismatch { offset } =>
            "change-log checksum mismatch at byte "@ + text::decimal(offset as nat),
        ChangeStreamError::Truncated { offset } =>
            "change-log is truncated at byte "@ + text::decimal(offset as nat),
        ChangeStreamError::InvalidHeader(reason) => "invalid change-log header: "@ + reason@,
        ChangeStreamError::InvalidRecord(reason) => "invalid change-log record: "@ + reason@,
        ChangeStreamError::RecordTooLarge(size) =>
            "change-log record has "@ + text::decimal(size as nat) + " bytes"@,
        ChangeStreamError::MutationCountTooLarge(count) =>
            "change-log record has "@ + text::decimal(count as nat) + " mutations"@,
        ChangeStreamError::RowPayloadTooLarge(size) =>
            "change-log row has "@ + text::decimal(size as nat) + " bytes"@,
        ChangeStreamError::ContextMismatch => "change-stream storage context does not match"@,
        ChangeStreamError::StreamIdentityMismatch => "change-stream incarnation does not match"@,
        ChangeStreamError::HistoryUnavailable => "requested change history is unavailable"@,
        ChangeStreamError::ChangeGap { expected, actual } =>
            "change stream has a frontier gap: expected "@ + text::decimal(expected.0 as nat)
                + ", found "@ + text::decimal(actual.0 as nat),
        ChangeStreamError::Disabled => "change stream is disabled"@,
        ChangeStreamError::Busy => "change stream has unresolved prepared changes"@,
        ChangeStreamError::FinalizeCheckpointPending =>
            "change stream has committed Finalize checkpoints pending durability"@,
        ChangeStreamError::RetentionPinned { requested, pinned } =>
            "change-stream reclamation through "@ + text::decimal(requested.0 as nat)
                + " is blocked by a retention pin at "@ + text::decimal(pinned.0 as nat),
        ChangeStreamError::RetentionPinFrontierRegression { current, requested } =>
            "retention pin cannot move backward from "@ + text::decimal(current.0 as nat)
                + " to "@ + text::decimal(requested.0 as nat),
        ChangeStreamError::RetentionPinUnavailable =>
            "change-stream retention pin is no longer registered"@,
        ChangeStreamError::Unavailable(reason) => "change stream is unavailable: "@ + reason@,
        ChangeStreamError::VersionExhausted => "change-stream version space is exhausted"@,
    }
}

impl ChangeStreamError {
    /// The message that a user sees.
    pub fn to_text(&self) -> (output: String)
        ensures
            output@ == message(*self),
    {
        let mut output: String = String::new();
        match self {
            ChangeStreamError::Io(reason) => {
                output.append("change-log I/O error: ");
                output.append(reason.as_str());
            },
            ChangeStreamError::InvalidMagic => {
                output.append("change-log magic does not match");
            },
            ChangeStreamError::UnsupportedVersion(version) => {
                output.append("unsupported change-log format version ");
                text::push_decimal(&mut output, *version as u64);
            },
            ChangeStreamError::ChecksumMismatch { offset } => {
                output.append("change-log checksum mismatch at byte ");
                text::push_decimal(&mut output, *offset);
            },
            ChangeStreamError::Truncated { offset } => {
                output.append("change-log is truncated at byte ");
                text::push_decimal(&mut output, *offset);
            },
            ChangeStreamError::InvalidHeader(reason) => {
                output.append("invalid change-log header: ");
                output.append(reason);
            },
            ChangeStreamError::InvalidRecord(reason) => {
                output.append("invalid change-log record: ");
                output.append(reason);
            },
            ChangeStreamError::RecordTooLarge(size) => {
                output.append("change-log record has ");
                text::push_decimal(&mut output, *size);
                output.append(" bytes");
            },
            ChangeStreamError::MutationCountTooLarge(count) => {
                output.append("change-log record has ");
                text::push_decimal(&mut output, *count);
                output.append(" mutations");
            },
            ChangeStreamError::RowPayloadTooLarge(size) => {
                output.append("change-log row has ");
                text::push_decimal(&mut output, *size);
                output.append(" bytes");
            },
            ChangeStreamError::ContextMismatch => {
                output.append("change-stream storage context does not match");
            },
            ChangeStreamError::StreamIdentityMismatch => {
                output.append("change-stream incarnation does not match");
            },
            ChangeStreamError::HistoryUnavailable => {
                output.append("requested change history is unavailable");
            },
            ChangeStreamError::ChangeGap { expected, actual } => {
                output.append("change stream has a frontier gap: expected ");
                text::push_decimal(&mut output, expected.0);
                output.append(", found ");
                text::push_decimal(&mut output, actual.0);
            },
            ChangeStreamError::Disabled => {
                output.append("change stream is disabled");
            },
            ChangeStreamError::Busy => {
                output.append("change stream has unresolved prepared changes");
            },
            ChangeStreamError::FinalizeCheckpointPending => {
                output.append("change stream has committed Finalize checkpoints pending durability");
            },
            ChangeStreamError::RetentionPinned { requested, pinned } => {
                output.append("change-stream reclamation through ");
                text::push_decimal(&mut output, requested.0);
                output.append(" is blocked by a retention pin at ");
                text::push_decimal(&mut output, pinned.0);
            },
            ChangeStreamError::RetentionPinFrontierRegression { current, requested } => {
                output.append("retention pin cannot move backward from ");
                text::push_decimal(&mut output, current.0);
                output.append(" to ");
                text::push_decimal(&mut output, requested.0);
            },
            ChangeStreamError::RetentionPinUnavailable => {
                output.append("change-stream retention pin is no longer registered");
            },
            ChangeStreamError::Unavailable(reason) => {
                output.append("change stream is unavailable: ");
                output.append(reason.as_str());
            },
            ChangeStreamError::VersionExhausted => {
                output.append("change-stream version space is exhausted");
            },
        }
        assert(output@ =~= message(*self));
        output
    }
}

} // verus!
