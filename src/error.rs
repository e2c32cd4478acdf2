use vstd::prelude::*;

verus! {

/// Every way a decode can fail.
#[derive(Debug, Clone, PartialEq, Eq)]
pub enum CodecError {
    /// No byte to read a boolean from, or a byte other than 0 and 1.
    DecodeBool,
    /// No byte to read a `u8` from.
    DecodeUint8,
    /// Fewer than four bytes to read a `u32` from.
    DecodeUint32,
    /// Fewer than eight bytes to read a `u64` from.
    DecodeUint64,
    /// The bytes are not well-formed UTF-8; they are carried along.
    StringUTF8(Vec<u8>),
    /// A fixed-size field holds the wrong number of bytes.
    InvalidLength,
    /// A record's list has the wrong number of elements.
    IncorrectListLen,
    /// A record's list ends before the field at this index.
    ListTooShort(usize),
    /// A list was expected and a byte string was found.
    ExpectedList,
    /// A byte string was expected and a list was found.
    ExpectedData,
    /// The bytes are not one canonical RLP item.
    Malformed,
    /// A value could not be rebuilt from well-formed parts.
    Custom(String),
}

} // verus!
