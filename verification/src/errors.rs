//! The error kinds of the storage layer.

use vstd::prelude::*;

verus! {

/// Why a byte string is not the encoding of a key or of a stored value.
#[derive(Clone, Copy, Debug, PartialEq, Eq, Structural)]
pub enum CodecError {
    /// A length prefix or a field header is not a well-formed varint of at most 64 bits.
    InvalidVarint,
    /// The input ends before a fixed-width or length-delimited field does.
    BufferUnderflow,
    /// A name is not valid UTF-8.
    InvalidUtf8,
    /// Bytes are left over behind the last field of a key.
    TrailingBytes,
    /// A field header does not fit 32 bits, or carries field number zero.
    InvalidFieldKey,
    /// A field header carries a wire type that does not exist.
    InvalidWireType,
    /// A known field is stored with another wire type than its schema gives it.
    UnexpectedWireType,
    /// An end marker closes no group, or not the group that was opened last.
    UnexpectedEndGroup,
    /// Groups are nested deeper than a reader goes.
    RecursionLimit,
}

/// Why a well-formed stored message is not a status this version knows.
#[derive(Clone, Copy, Debug, PartialEq, Eq, Structural)]
pub enum ConversionError {
    /// The message carries none of the states of its one-of.
    MissingField,
    /// The invocation id of a lock does not have the width of an invocation id.
    InvalidData,
}

/// The error of every table operation.
#[derive(Clone, Copy, Debug, PartialEq, Eq, Structural)]
pub enum StorageError {
    /// The bytes are corrupt: they could not be decoded.
    Generic(CodecError),
    /// The bytes decode, but to a state that is not recognised.
    Conversion(ConversionError),
    /// A stored key lacks a field that every row of the table has.
    DataIntegrityError,
}

impl StorageError {
    /// A short description of the error, for messages and logs.
    pub fn message(&self) -> (text: &'static str)
        ensures
            text@ == Self::message_of(*self),
    {
        match self {
            StorageError::Generic(CodecError::InvalidVarint) => "corrupt bytes: invalid varint",
            StorageError::Generic(CodecError::BufferUnderflow) => "corrupt bytes: buffer underflow",
            StorageError::Generic(CodecError::InvalidUtf8) => "corrupt bytes: name is not UTF-8",
            StorageError::Generic(CodecError::TrailingBytes) => "corrupt bytes: trailing bytes",
            StorageError::Generic(CodecError::InvalidFieldKey) => "corrupt bytes: invalid field key",
            StorageError::Generic(CodecError::InvalidWireType) => "corrupt bytes: invalid wire type",
            StorageError::Generic(CodecError::UnexpectedWireType) => "corrupt bytes: unexpected wire type",
            StorageError::Generic(CodecError::UnexpectedEndGroup) => "corrupt bytes: unexpected end of group",
            StorageError::Generic(CodecError::RecursionLimit) => "corrupt bytes: recursion limit reached",
            StorageError::Conversion(ConversionError::MissingField) => "unknown state: missing field",
            StorageError::Conversion(ConversionError::InvalidData) => "unknown state: invalid data",
            StorageError::DataIntegrityError => "data integrity error",
        }
    }

    /// The text that [`StorageError::message`] gives for each error.
    pub open spec fn message_of(error: StorageError) -> Seq<char> {
        match error {
            StorageError::Generic(CodecError::InvalidVarint) => "corrupt bytes: invalid varint"@,
            StorageError::Generic(CodecError::BufferUnderflow) => "corrupt bytes: buffer underflow"@,
            StorageError::Generic(CodecError::InvalidUtf8) => "corrupt bytes: name is not UTF-8"@,
            StorageError::Generic(CodecError::TrailingBytes) => "corrupt bytes: trailing bytes"@,
            StorageError::Generic(CodecError::InvalidFieldKey) => "corrupt bytes: invalid field key"@,
            StorageError::Generic(CodecError::InvalidWireType) => "corrupt bytes: invalid wire type"@,
            StorageError::Generic(CodecError::UnexpectedWireType) => "corrupt bytes: unexpected wire type"@,
            StorageError::Generic(CodecError::UnexpectedEndGroup) => "corrupt bytes: unexpected end of group"@,
            StorageError::Generic(CodecError::RecursionLimit) => "corrupt bytes: recursion limit reached"@,
            StorageError::Conversion(ConversionError::MissingField) => "unknown state: missing field"@,
            StorageError::Conversion(ConversionError::InvalidData) => "unknown state: invalid data"@,
            StorageError::DataIntegrityError => "data integrity error"@,
        }
    }
}

} // verus!
