//! The fields of a record as `bincode` writes and reads them.
//!
//! Every function here hands one plain value to `bincode`, in the
//! configuration of its free functions: integers of fixed width, lowest byte
//! first, lengths as `u64`, no limit on the size, and bytes after the value
//! left alone. Nothing in this file is proved: each contract restates what
//! `bincode` does with that one value.

use vstd::bytes::*;
use vstd::prelude::*;
use vstd::utf8::*;

verus! {

/// `bincode::ErrorKind`, the error of every `bincode` call. Nothing is said of
/// what it holds: the library only hands it on or drops it.
#[verifier::external_type_specification]
#[verifier::external_body]
pub struct ExErrorKind(bincode::ErrorKind);

/// The bytes of a text field: the length of its UTF-8 encoding as a
/// little-endian `u64`, then the encoding itself.
pub open spec fn text_bytes(text: Seq<char>) -> Seq<u8> {
    spec_u64_to_le_bytes(encode_utf8(text).len() as u64) + encode_utf8(text)
}

/// The length that the first eight bytes of `bytes` announce.
pub open spec fn announced_len(bytes: Seq<u8>) -> nat {
    spec_u64_from_le_bytes(bytes.subrange(0, 8)) as nat
}

/// Whether `bytes` starts with a whole text field: eight bytes of length and
/// at least as many bytes after them as the length announces.
pub open spec fn has_text_frame(bytes: Seq<u8>) -> bool {
    bytes.len() >= 8 && announced_len(bytes) <= bytes.len() - 8
}

/// The bytes that follow the length of a text field, as many as it announces.
pub open spec fn text_payload(bytes: Seq<u8>) -> Seq<u8> {
    bytes.subrange(8, 8 + announced_len(bytes) as int)
}

/// `bincode::serialize` on a `u32`. It cannot fail: the size is unlimited and
/// the writer is a `Vec`. The result is the four bytes of the number, lowest
/// first.
#[verifier::external_body]
pub(crate) fn write_u32(value: u32) -> (r: Result<Vec<u8>, bincode::Error>)
    ensures
        r is Ok,
        r matches Ok(bytes) ==> bytes@ == spec_u32_to_le_bytes(value),
{
    bincode::serialize(&value)
}

/// `bincode::serialize` on a `str`. It cannot fail, for the same reason. The
/// result is the byte length of the text as a `u64`, lowest byte first, and
/// then the text's own bytes.
#[verifier::external_body]
pub(crate) fn write_text(text: &str) -> (r: Result<Vec<u8>, bincode::Error>)
    ensures
        r is Ok,
        r matches Ok(bytes) ==> bytes@ == text_bytes(text@),
{
    bincode::serialize(text)
}

/// `bincode::serialized_size` on a `str`: eight bytes for the length and one
/// for each byte of the text. It cannot fail either.
#[verifier::external_body]
pub(crate) fn text_size(text: &str) -> (r: Result<u64, bincode::Error>)
    ensures
        r is Ok,
        r matches Ok(size) ==> size == 8 + encode_utf8(text@).len(),
{
    bincode::serialized_size(text)
}

/// `bincode::deserialize` to a `u32`. It reads the first four bytes, lowest
/// first, and fails exactly when there are fewer than four.
#[verifier::external_body]
pub(crate) fn read_u32(bytes: &[u8]) -> (r: Result<u32, bincode::Error>)
    ensures
        r is Ok <==> bytes@.len() >= 4,
        r matches Ok(value) ==> value == spec_u32_from_le_bytes(bytes@.subrange(0, 4)),
{
    bincode::deserialize::<u32>(bytes)
}

/// `bincode::deserialize` to a `String`. It reads a length of eight bytes,
/// then that many bytes, and checks that they are UTF-8. It fails exactly
/// when the field is cut short or the bytes are not UTF-8; otherwise the
/// string's bytes are the bytes read.
#[verifier::external_body]
pub(crate) fn read_text(bytes: &[u8]) -> (r: Result<String, bincode::Error>)
    ensures
        r is Ok <==> (has_text_frame(bytes@) && valid_utf8(text_payload(bytes@))),
        r matches Ok(text) ==> encode_utf8(text@) == text_payload(bytes@),
{
    bincode::deserialize::<String>(bytes)
}

} // verus!
