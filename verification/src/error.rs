//! What can go wrong, and how it is reported.

use vstd::prelude::*;
use vstd::string::StringExecFns;

use crate::number::{decimal, decimal_string};

verus! {

/// The reasons for which an operation of the store fails.
#[derive(Clone, Copy, PartialEq, Eq, Structural, Debug)]
pub enum StoreError {
    /// The bytes end before the value that they should hold.
    UnexpectedEof,
    /// A key or a value is longer than the store takes.
    TooLarge,
    /// A record's checksum does not match its content.
    CrcMismatch,
    /// A string is not valid UTF-8.
    InvalidUtf8,
    /// A block's compression flag is neither of the two known ones.
    InvalidCompressionFlag(u8),
    /// A response's status byte is unknown.
    UnknownStatus(u8),
    /// A request's op code is unknown.
    UnknownOpCode(u8),
    /// A file is not in the directory.
    FileNotFound,
    /// A file to be created is already in the directory.
    FileExists,
    /// A level of a leveled store does not exist; `max` is the last that does.
    LevelOutOfBounds { source: usize, target: usize, max: usize },
    /// A compaction names a source level that is not above its target.
    LevelOrder { source: usize, target: usize },
    /// A leveled store has no level.
    NoLevels,
}

/// The broad classes of errors.
#[derive(Clone, Copy, PartialEq, Eq, Structural, Debug)]
pub enum ErrorKind {
    UnexpectedEof,
    InvalidInput,
    InvalidData,
    NotFound,
    AlreadyExists,
    Other,
}

impl StoreError {
    /// The class of the error.
    pub open spec fn spec_kind(self) -> ErrorKind {
        match self {
            StoreError::UnexpectedEof => ErrorKind::UnexpectedEof,
            StoreError::TooLarge => ErrorKind::InvalidInput,
            StoreError::CrcMismatch => ErrorKind::InvalidData,
            StoreError::InvalidUtf8 => ErrorKind::InvalidData,
            StoreError::InvalidCompressionFlag(_) => ErrorKind::InvalidData,
            StoreError::UnknownStatus(_) => ErrorKind::InvalidData,
            StoreError::UnknownOpCode(_) => ErrorKind::InvalidData,
            StoreError::FileNotFound => ErrorKind::NotFound,
            StoreError::FileExists => ErrorKind::AlreadyExists,
            StoreError::LevelOutOfBounds { .. } => ErrorKind::InvalidInput,
            StoreError::LevelOrder { .. } => ErrorKind::InvalidInput,
            StoreError::NoLevels => ErrorKind::Other,
        }
    }

    /// The text of the error.
    pub open spec fn spec_message(self) -> Seq<char> {
        match self {
            StoreError::UnexpectedEof => "failed to fill whole buffer"@,
            StoreError::TooLarge => "key or value exceeds maximum allowed size"@,
            StoreError::CrcMismatch => "CRC mismatch"@,
            StoreError::InvalidUtf8 => "invalid utf-8 sequence"@,
            StoreError::InvalidCompressionFlag(n) => "Invalid compression flag found "@ + decimal(
                n as nat,
            ),
            StoreError::UnknownStatus(n) => "unknown status byte: "@ + decimal(n as nat),
            StoreError::UnknownOpCode(n) => "unknown op code: "@ + decimal(n as nat),
            StoreError::FileNotFound => "file not found"@,
            StoreError::FileExists => "file exists"@,
            StoreError::LevelOutOfBounds { source, target, max } => {
                "level index out of bounds: source="@ + decimal(source as nat) + ", target="@
                    + decimal(target as nat) + ", max="@ + decimal(max as nat)
            },
            StoreError::LevelOrder { source, target } => "source level ("@ + decimal(
                source as nat,
            ) + ") must be less than target level ("@ + decimal(target as nat) + ")"@,
            StoreError::NoLevels => "Leveled storage strategy levels not allocated"@,
        }
    }

    /// The class of the error.
    pub fn kind(&self) -> (k: ErrorKind)
        ensures
            k == self.spec_kind(),
    {
        match self {
            StoreError::UnexpectedEof => ErrorKind::UnexpectedEof,
            StoreError::TooLarge => ErrorKind::InvalidInput,
            StoreError::CrcMismatch => ErrorKind::InvalidData,
            StoreError::InvalidUtf8 => ErrorKind::InvalidData,
            StoreError::InvalidCompressionFlag(_) => ErrorKind::InvalidData,
            StoreError::UnknownStatus(_) => ErrorKind::InvalidData,
            StoreError::UnknownOpCode(_) => ErrorKind::InvalidData,
            StoreError::FileNotFound => ErrorKind::NotFound,
            StoreError::FileExists => ErrorKind::AlreadyExists,
            StoreError::LevelOutOfBounds { .. } => ErrorKind::InvalidInput,
            StoreError::LevelOrder { .. } => ErrorKind::InvalidInput,
            StoreError::NoLevels => ErrorKind::Other,
        }
    }

    /// The text of the error.
    pub fn message(&self) -> (s: String)
        ensures
            s@ == self.spec_message(),
    {
        match self {
            StoreError::UnexpectedEof => String::from_str("failed to fill whole buffer"),
            StoreError::TooLarge => String::from_str("key or value exceeds maximum allowed size"),
            StoreError::CrcMismatch => String::from_str("CRC mismatch"),
            StoreError::InvalidUtf8 => String::from_str("invalid utf-8 sequence"),
            StoreError::InvalidCompressionFlag(n) => String::from_str(
                "Invalid compression flag found ",
            ).concat(decimal_string(*n as u64).as_str()),
            StoreError::UnknownStatus(n) => String::from_str("unknown status byte: ").concat(
                decimal_string(*n as u64).as_str(),
            ),
            StoreError::UnknownOpCode(n) => String::from_str("unknown op code: ").concat(
                decimal_string(*n as u64).as_str(),
            ),
            StoreError::FileNotFound => String::from_str("file not found"),
            StoreError::FileExists => String::from_str("file exists"),
            StoreError::LevelOutOfBounds { source, target, max } => String::from_str(
                "level index out of bounds: source=",
            ).concat(decimal_string(*source as u64).as_str()).concat(", target=").concat(
                decimal_string(*target as u64).as_str(),
            ).concat(", max=").concat(decimal_string(*max as u64).as_str()),
            StoreError::LevelOrder { source, target } => String::from_str("source level (").concat(
                decimal_string(*source as u64).as_str(),
            ).concat(") must be less than target level (").concat(
                decimal_string(*target as u64).as_str(),
            ).concat(")"),
            StoreError::NoLevels => String::from_str(
                "Leveled storage strategy levels not allocated",
            ),
        }
    }
}

/// A short read is known as such, a missing or an existing file too; what cannot be
/// decoded is invalid data, and what a caller must not ask for is invalid input.
pub proof fn lemma_kinds(e: StoreError)
    ensures
        e.spec_kind() is UnexpectedEof <==> e is UnexpectedEof,
        e.spec_kind() is NotFound <==> e is FileNotFound,
        (e.spec_kind() is AlreadyExists) == (e is FileExists),
        e.spec_kind() is InvalidInput <==> e is TooLarge || e is LevelOutOfBounds || e is LevelOrder,
        e.spec_kind() is InvalidData <==> e is CrcMismatch || e is InvalidUtf8
            || e is InvalidCompressionFlag || e is UnknownStatus || e is UnknownOpCode,
{
}

/// The texts of the errors, with the numbers that they name in decimal.
pub proof fn lemma_messages(n: u8, source: usize, target: usize, max: usize)
    ensures
        StoreError::UnexpectedEof.spec_message() == "failed to fill whole buffer"@,
        StoreError::TooLarge.spec_message() == "key or value exceeds maximum allowed size"@,
        StoreError::CrcMismatch.spec_message() == "CRC mismatch"@,
        StoreError::InvalidUtf8.spec_message() == "invalid utf-8 sequence"@,
        StoreError::FileNotFound.spec_message() == "file not found"@,
        StoreError::FileExists.spec_message() == "file exists"@,
        StoreError::NoLevels.spec_message() == "Leveled storage strategy levels not allocated"@,
        StoreError::InvalidCompressionFlag(n).spec_message() == "Invalid compression flag found "@
            + decimal(n as nat),
        StoreError::UnknownStatus(n).spec_message() == "unknown status byte: "@ + decimal(n as nat),
        StoreError::UnknownOpCode(n).spec_message() == "unknown op code: "@ + decimal(n as nat),
        (StoreError::LevelOutOfBounds { source, target, max }).spec_message()
            == "level index out of bounds: source="@ + decimal(source as nat) + ", target="@
            + decimal(target as nat) + ", max="@ + decimal(max as nat),
        (StoreError::LevelOrder { source, target }).spec_message() == "source level ("@ + decimal(
            source as nat,
        ) + ") must be less than target level ("@ + decimal(target as nat) + ")"@,
{
}

} // verus!
