//! The ways in which building, loading or querying a dictionary can fail.

use vstd::prelude::*;

verus! {

/// `std::io::Error`, the system's error: carried through, never read.
#[verifier::external_type_specification]
#[verifier::external_body]
pub struct ExIoError(std::io::Error);

/// What is wrong with a blob.
#[derive(Debug, Clone, Copy, PartialEq, Eq)]
pub enum Flaw {
    /// The blob is shorter than a header.
    TooShort,
    /// `BASE` starts beyond the end of the blob.
    BaseIdx,
    /// `CHECK` starts beyond the end of the blob.
    CheckIdx,
    /// `DATA` starts beyond the end of the blob.
    DataIdx,
    /// `BASE` has more entries than the blob holds from its start.
    BaseLen,
    /// `CHECK` has more entries than the blob holds from its start.
    CheckLen,
    /// Values are marked for a prefix that ends in the middle of a character.
    SplitCharacter,
}

/// Why an operation of this library did not succeed.
#[derive(Debug)]
pub enum Error {
    /// The operating system refused a mapping, a file or a write.
    IoFailure(std::io::Error),
    /// The blob cannot be a dictionary: what is wrong with it.
    MalformedBlob(Flaw),
    /// The key already holds as many values as one key may hold.
    ValueOverflow,
    /// A slot index or a data offset does not fit the 32-bit arrays.
    IndexOverflow,
    /// The value codec could not encode a list of values.
    EncodeFailure,
    /// The value codec could not decode the block of a key: the offset of
    /// the block in `DATA`.
    DecodeFailure(usize),
}

} // verus!
