//! The fixed-width little-endian encoding of the values that a stored
//! record is made of, as `bincode` writes and reads them.

use bincode::Options;
use vstd::bytes::*;
use vstd::prelude::*;
use vstd::string::*;
use vstd::utf8::*;

verus! {

#[verifier::external_type_specification]
#[verifier::external_body]
pub struct ExErrorKind(bincode::ErrorKind);

/// The bytes of a text: the length of its UTF-8 form in eight bytes, then
/// that form.
pub open spec fn text_bytes(text: Seq<char>) -> Seq<u8> {
    spec_u64_to_le_bytes(encode_utf8(text).len() as u64) + encode_utf8(text)
}

/// Whether `bytes` are a length in eight bytes followed by exactly that many
/// bytes of well-formed UTF-8.
pub open spec fn is_text(bytes: Seq<u8>) -> bool {
    &&& bytes.len() >= 8
    &&& spec_u64_from_le_bytes(bytes.subrange(0, 8)) == bytes.len() - 8
    &&& valid_utf8(bytes.skip(8))
}

/// `bincode::serialized_size` of a `u32`: with fixed-width integers every
/// `u32` takes four bytes, and no size limit is set that could be exceeded.
#[verifier::external_body]
pub(crate) fn size_u32(value: u32) -> (size: Result<u64, bincode::Error>)
    ensures
        size is Ok,
        size->Ok_0 == 4,
{
    bincode::serialized_size(&value)
}

/// `bincode::serialize_into` for a `u32` and a vector as the writer: the four
/// bytes of the value, lowest first, are appended. Nothing but the writer can
/// fail there, and a vector takes every byte.
#[verifier::external_body]
pub(crate) fn put_u32(buffer: &mut Vec<u8>, value: u32) -> (done: Result<(), bincode::Error>)
    ensures
        done is Ok,
        final(buffer)@ == old(buffer)@ + spec_u32_to_le_bytes(value),
{
    bincode::serialize_into(buffer, &value)
}

/// `bincode::serialize_into` for a `u64` and a vector as the writer: the
/// eight bytes of the value, lowest first, are appended.
#[verifier::external_body]
pub(crate) fn put_u64(buffer: &mut Vec<u8>, value: u64) -> (done: Result<(), bincode::Error>)
    ensures
        done is Ok,
        final(buffer)@ == old(buffer)@ + spec_u64_to_le_bytes(value),
{
    bincode::serialize_into(buffer, &value)
}

/// `bincode::serialize_into` for a string slice and a vector as the writer:
/// the length of the slice in bytes is appended as a `u64`, then its bytes.
#[verifier::external_body]
pub(crate) fn put_str(buffer: &mut Vec<u8>, text: &str) -> (done: Result<(), bincode::Error>)
    ensures
        done is Ok,
        final(buffer)@ == old(buffer)@ + text_bytes(text@),
{
    bincode::serialize_into(buffer, text)
}

/// `bincode::Options::deserialize` of a `u32` from a slice, with the options
/// of `bincode::options` and fixed-width integers, which leave no byte over:
/// it succeeds on exactly four bytes and reads them lowest first.
#[verifier::external_body]
pub(crate) fn get_u32(bytes: &[u8]) -> (value: Result<u32, bincode::Error>)
    ensures
        value is Ok <==> bytes@.len() == 4,
        value is Ok ==> value->Ok_0 == spec_u32_from_le_bytes(bytes@),
{
    bincode::options().with_fixint_encoding().deserialize(bytes)
}

/// `bincode::Options::deserialize` of a `u64` from a slice, with the options
/// of `bincode::options` and fixed-width integers, which leave no byte over:
/// it succeeds on exactly eight bytes and reads them lowest first.
#[verifier::external_body]
pub(crate) fn get_u64(bytes: &[u8]) -> (value: Result<u64, bincode::Error>)
    ensures
        value is Ok <==> bytes@.len() == 8,
        value is Ok ==> value->Ok_0 == spec_u64_from_le_bytes(bytes@),
{
    bincode::options().with_fixint_encoding().deserialize(bytes)
}

/// `bincode::Options::deserialize` of a borrowed string slice, with the
/// options of `bincode::options` and fixed-width integers, which leave no
/// byte over: it succeeds where the first eight bytes hold the number of
/// bytes that follow and those are well-formed UTF-8, and the slice it
/// returns is those bytes, borrowed from the input.
#[verifier::external_body]
pub(crate) fn get_str<'a>(bytes: &'a [u8]) -> (text: Result<&'a str, bincode::Error>)
    ensures
        text is Ok <==> is_text(bytes@),
        text is Ok ==> text->Ok_0.spec_bytes() == bytes@.skip(8),
{
    bincode::options().with_fixint_encoding().deserialize(bytes)
}

} // verus!
