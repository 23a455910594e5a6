//! What a columnar projection refuses, and how it says so.
use crate::ids::ColumnId;
use crate::text;
use vstd::prelude::*;

verus! {

/// A refused columnar operation.
#[derive(Debug, PartialEq, Eq)]
pub enum ColumnarError {
    /// The file layer failed, with its own message.
    Io(String),
    /// The schema was refused, with its own message.
    Schema(String),
    InvalidInput(&'static str),
    InvalidFormat(&'static str),
    Corrupt(&'static str),
    UnsupportedVersion(u16),
    ChecksumMismatch { path: String },
    IdentityMismatch(&'static str),
    UnknownColumn(ColumnId),
    TypeMismatch(ColumnId),
    ResourceLimit { resource: &'static str, value: u64 },
}

/// The message of an error.
pub open spec fn message(error: ColumnarError) -> Seq<char> {
    match error {
        ColumnarError::Io(reason) => "columnar I/O error: "@ + reason@,
        ColumnarError::Schema(reason) => "columnar schema error: "@ + reason@,
        ColumnarError::InvalidInput(reason) => "invalid columnar input: "@ + reason@,
        ColumnarError::InvalidFormat(reason) => "invalid columnar format: "@ + reason@,
        ColumnarError::Corrupt(reason) => "corrupt columnar projection: "@ + reason@,
        ColumnarError::UnsupportedVersion(version) =>
            "unsupported columnar format version "@ + text::decimal(version as nat),
        ColumnarError::ChecksumMismatch { path } => "columnar checksum mismatch in "@ + path@,
        ColumnarError::IdentityMismatch(identity) =>
            "columnar "@ + identity@ + " identity mismatch"@,
        ColumnarError::UnknownColumn(column) =>
            "columnar projection has no column "@ + text::decimal(column.0 as nat),
        ColumnarError::TypeMismatch(column) =>
            "columnar value type mismatch for column "@ + text::decimal(column.0 as nat),
        ColumnarError::ResourceLimit { resource, value } =>
            "columnar "@ + resource@ + " exceeds limit: "@ + text::decimal(value as nat),
    }
}

/// Whether a read failed because the immutable projection can no longer be
/// trusted or accessed.
pub open spec fn invalidates(error: ColumnarError) -> bool {
    match error {
        ColumnarError::Io(_) => true,
        ColumnarError::Schema(_) => false,
        ColumnarError::InvalidInput(_) => false,
        ColumnarError::InvalidFormat(_) => true,
        ColumnarError::Corrupt(_) => true,
        ColumnarError::UnsupportedVersion(_) => true,
        ColumnarError::ChecksumMismatch { .. } => true,
        ColumnarError::IdentityMismatch(_) => true,
        ColumnarError::UnknownColumn(_) => false,
        ColumnarError::TypeMismatch(_) => false,
        ColumnarError::ResourceLimit { .. } => true,
    }
}

impl ColumnarError {
    /// Whether a read failed because the immutable projection can no longer be
    /// trusted or accessed. Core may quarantine derived state and retry the
    /// same autocommit query against authoritative storage.
    #[must_use]
    pub fn invalidates_projection(&self) -> (invalid: bool)
        ensures
            invalid == invalidates(*self),
    {
        match self {
            ColumnarError::Io(_) => true,
            ColumnarError::InvalidFormat(_) => true,
            ColumnarError::Corrupt(_) => true,
            ColumnarError::UnsupportedVersion(_) => true,
            ColumnarError::ChecksumMismatch { .. } => true,
            ColumnarError::IdentityMismatch(_) => true,
            ColumnarError::ResourceLimit { .. } => true,
            _ => false,
        }
    }

    /// The same error again.
    pub fn same(&self) -> (copy: Self)
        ensures
            copy == *self,
    {
        match self {
            ColumnarError::Io(reason) => ColumnarError::Io(reason.clone()),
            ColumnarError::Schema(reason) => ColumnarError::Schema(reason.clone()),
            ColumnarError::InvalidInput(reason) => ColumnarError::InvalidInput(reason),
            ColumnarError::InvalidFormat(reason) => ColumnarError::InvalidFormat(reason),
            ColumnarError::Corrupt(reason) => ColumnarError::Corrupt(reason),
            ColumnarError::UnsupportedVersion(version) => ColumnarError::UnsupportedVersion(
                *version,
            ),
            ColumnarError::ChecksumMismatch { path } => ColumnarError::ChecksumMismatch {
                path: path.clone(),
            },
            ColumnarError::IdentityMismatch(identity) => ColumnarError::IdentityMismatch(identity),
            ColumnarError::UnknownColumn(column) => ColumnarError::UnknownColumn(*column),
            ColumnarError::TypeMismatch(column) => ColumnarError::TypeMismatch(*column),
            ColumnarError::ResourceLimit { resource, value } => ColumnarError::ResourceLimit {
                resource,
                value: *value,
            },
        }
    }

    /// The message that a user sees.
    pub fn to_text(&self) -> (output: String)
        ensures
            output@ == message(*self),
    {
        let mut output: String = String::new();
        match self {
            ColumnarError::Io(reason) => {
                output.append("columnar I/O error: ");
                output.append(reason.as_str());
            },
            ColumnarError::Schema(reason) => {
                output.append("columnar schema error: ");
                output.append(reason.as_str());
            },
            ColumnarError::InvalidInput(reason) => {
                output.append("invalid columnar input: ");
                output.append(reason);
            },
            ColumnarError::InvalidFormat(reason) => {
                output.append("invalid columnar format: ");
                output.append(reason);
            },
            ColumnarError::Corrupt(reason) => {
                output.append("corrupt columnar projection: ");
                output.append(reason);
            },
            ColumnarError::UnsupportedVersion(version) => {
                output.append("unsupported columnar format version ");
                text::push_decimal(&mut output, *version as u64);
            },
            ColumnarError::ChecksumMismatch { path } => {
                output.append("columnar checksum mismatch in ");
                output.append(path.as_str());
            },
            ColumnarError::IdentityMismatch(identity) => {
                output.append("columnar ");
                output.append(identity);
                output.append(" identity mismatch");
            },
            ColumnarError::UnknownColumn(column) => {
                output.append("columnar projection has no column ");
                text::push_decimal(&mut output, column.0 as u64);
            },
            ColumnarError::TypeMismatch(column) => {
                output.append("columnar value type mismatch for column ");
                text::push_decimal(&mut output, column.0 as u64);
            },
            ColumnarError::ResourceLimit { resource, value } => {
                output.append("columnar ");
                output.append(resource);
                output.append(" exceeds limit: ");
                text::push_decimal(&mut output, *value);
            },
        }
        assert(output@ =~= message(*self));
        output
    }
}

} // verus!
