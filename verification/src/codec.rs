//! The byte encoding of log entries and of log metadata, which `bincode`
//! computes. Nothing in this file is proved: each function states what is
//! taken on trust from that crate.

use crate::bytes::optional_bytes;
use vstd::prelude::*;

verus! {

/// The kind of error that `bincode` reports, `bincode::ErrorKind`: carried
/// through, never looked into.
#[verifier::external_type_specification]
#[verifier::external_body]
pub struct ExBincodeErrorKind(bincode::ErrorKind);

/// The bytes that `bincode::serialize` gives for the triple of an entry's
/// index, term and command; `None` where it reports an error.
pub uninterp spec fn entry_encoding(index: u64, term: u64, command: Option<Seq<u8>>) -> Option<
    Seq<u8>,
>;

/// The triple that `bincode::deserialize` reads from `bytes`; `None` where
/// it reports an error.
pub uninterp spec fn entry_decoding(bytes: Seq<u8>) -> Option<(u64, u64, Option<Seq<u8>>)>;

/// The bytes that `bincode::serialize` gives for the pair of a term and an
/// optional peer id; `None` where it reports an error.
pub uninterp spec fn metadata_encoding(term: u64, voted_for: Option<Seq<char>>) -> Option<Seq<u8>>;

/// The pair that `bincode::deserialize` reads from `bytes`; `None` where it
/// reports an error.
pub uninterp spec fn metadata_decoding(bytes: Seq<u8>) -> Option<(u64, Option<Seq<char>>)>;

/// The characters of an optional string slice.
pub open spec fn optional_text(text: Option<&str>) -> Option<Seq<char>> {
    match text {
        Some(t) => Some(t@),
        None => None,
    }
}

/// The characters of an optional string.
pub open spec fn optional_string(text: Option<String>) -> Option<Seq<char>> {
    match text {
        Some(t) => Some(t@),
        None => None,
    }
}

/// Calls `bincode::serialize` on `(index, term, command)`.
///
/// Trusted: the result is the one named `entry_encoding`, and bytes that
/// `bincode` has written for a triple are read back by it as that triple.
#[verifier::external_body]
pub(crate) fn serialize_entry(index: u64, term: u64, command: &Option<Vec<u8>>) -> (r: Result<
    Vec<u8>,
    Box<bincode::ErrorKind>,
>)
    ensures
        r matches Ok(bytes) ==> entry_encoding(index, term, optional_bytes(*command)) == Some(
            bytes@,
        ) && entry_decoding(bytes@) == Some((index, term, optional_bytes(*command))),
        r is Err ==> entry_encoding(index, term, optional_bytes(*command)) is None,
{
    bincode::serialize(&(index, term, command))
}

/// Calls `bincode::deserialize` for a triple `(u64, u64, Option<Vec<u8>>)`.
///
/// Trusted: the result is the one named `entry_decoding`.
#[verifier::external_body]
pub(crate) fn deserialize_entry(bytes: &Vec<u8>) -> (r: Result<
    (u64, u64, Option<Vec<u8>>),
    Box<bincode::ErrorKind>,
>)
    ensures
        r matches Ok(triple) ==> entry_decoding(bytes@) == Some(
            (triple.0, triple.1, optional_bytes(triple.2)),
        ),
        r is Err ==> entry_decoding(bytes@) is None,
{
    bincode::deserialize(bytes.as_slice())
}

/// Calls `bincode::serialize` on `(term, voted_for)`.
///
/// Trusted: the result is the one named `metadata_encoding`, and bytes that
/// `bincode` has written for a pair are read back by it as that pair.
#[verifier::external_body]
pub(crate) fn serialize_metadata(term: u64, voted_for: Option<&str>) -> (r: Result<
    Vec<u8>,
    Box<bincode::ErrorKind>,
>)
    ensures
        r matches Ok(bytes) ==> metadata_encoding(term, optional_text(voted_for)) == Some(bytes@)
            && metadata_decoding(bytes@) == Some((term, optional_text(voted_for))),
        r is Err ==> metadata_encoding(term, optional_text(voted_for)) is None,
{
    bincode::serialize(&(term, voted_for))
}

/// Calls `bincode::deserialize` for a pair `(u64, Option<String>)`.
///
/// Trusted: the result is the one named `metadata_decoding`.
#[verifier::external_body]
pub(crate) fn deserialize_metadata(bytes: &Vec<u8>) -> (r: Result<
    (u64, Option<String>),
    Box<bincode::ErrorKind>,
>)
    ensures
        r matches Ok(pair) ==> metadata_decoding(bytes@) == Some(
            (pair.0, optional_string(pair.1)),
        ),
        r is Err ==> metadata_decoding(bytes@) is None,
{
    bincode::deserialize(bytes.as_slice())
}

} // verus!
