//! The record codec: one log entry to bytes and back.
//!
//! A record is a tag of four bytes (0 for a put, 1 for a removal), then the
//! key and, for a put, the value, each as a length of eight bytes followed by
//! that many bytes of UTF-8. All integers are little-endian. A record
//! therefore tells its own length, and a log is records laid end to end.

use crate::error::KvError;
use crate::wire::{
    announced_len, has_text_frame, read_text, read_u32, text_bytes, text_payload, text_size,
    write_text, write_u32,
};
use vstd::bytes::*;
use vstd::prelude::*;
use vstd::slice::slice_subrange;
use vstd::utf8::*;

verus! {

/// The tag of a record that gives a key a value.
pub const PUT_TAG: u32 = 0;

/// The tag of a record that removes a key.
pub const REMOVE_TAG: u32 = 1;

/// One entry of the log.
#[derive(Debug, PartialEq, Eq)]
pub enum LogCommand {
    /// Gives the key (first) the value (second).
    Put(String, String),
    /// Takes the key out of the store.
    Remove(String),
}

/// What a [`LogCommand`] says, with its strings as sequences of characters.
pub enum Record {
    /// Gives the key (first) the value (second).
    Put(Seq<char>, Seq<char>),
    /// Takes the key out of the store.
    Remove(Seq<char>),
}

impl Record {
    /// The key that the record is about.
    pub open spec fn key(self) -> Seq<char> {
        match self {
            Record::Put(key, _) => key,
            Record::Remove(key) => key,
        }
    }

    /// Whether the length of each text of the record can be written in the
    /// eight bytes that the format gives it. Every record made from strings
    /// in memory fits.
    pub open spec fn fits(self) -> bool {
        match self {
            Record::Put(key, value) => text_fits(key) && text_fits(value),
            Record::Remove(key) => text_fits(key),
        }
    }
}

impl View for LogCommand {
    type V = Record;

    open spec fn view(&self) -> Record {
        match self {
            LogCommand::Put(key, value) => Record::Put(key@, value@),
            LogCommand::Remove(key) => Record::Remove(key@),
        }
    }
}

/// Whether the byte length of `text` can be written as a `u64`.
pub open spec fn text_fits(text: Seq<char>) -> bool {
    encode_utf8(text).len() <= u64::MAX
}

/// The bytes of a record.
pub open spec fn encode_record(record: Record) -> Seq<u8> {
    match record {
        Record::Put(key, value) => spec_u32_to_le_bytes(PUT_TAG) + text_bytes(key) + text_bytes(
            value,
        ),
        Record::Remove(key) => spec_u32_to_le_bytes(REMOVE_TAG) + text_bytes(key),
    }
}

/// The text field at the start of `bytes` and the number of bytes it takes.
/// A field that is cut short is corrupt; one that is whole but not UTF-8 is a
/// serialization error.
pub open spec fn decode_text(bytes: Seq<u8>) -> Result<(Seq<char>, nat), KvError> {
    if !has_text_frame(bytes) {
        Err(KvError::CorruptRecord)
    } else if !valid_utf8(text_payload(bytes)) {
        Err(KvError::SerializationError)
    } else {
        Ok((decode_utf8(text_payload(bytes)), 8 + announced_len(bytes)))
    }
}

/// The record at the start of `bytes` and the number of bytes it takes, or
/// the first fault met on the way: fields are read in order, and the first
/// that fails decides the error.
pub open spec fn decode_record(bytes: Seq<u8>) -> Result<(Record, nat), KvError> {
    if bytes.len() < 4 {
        Err(KvError::CorruptRecord)
    } else {
        let tag = spec_u32_from_le_bytes(bytes.subrange(0, 4));
        if tag == PUT_TAG {
            match decode_text(bytes.skip(4)) {
                Err(e) => Err(e),
                Ok((key, key_len)) => match decode_text(bytes.skip(4 + key_len as int)) {
                    Err(e) => Err(e),
                    Ok((value, value_len)) => Ok(
                        (Record::Put(key, value), 4 + key_len + value_len),
                    ),
                },
            }
        } else if tag == REMOVE_TAG {
            match decode_text(bytes.skip(4)) {
                Err(e) => Err(e),
                Ok((key, key_len)) => Ok((Record::Remove(key), 4 + key_len)),
            }
        } else {
            Err(KvError::CorruptRecord)
        }
    }
}

/// Encodes one command: its tag, its key and, for a put, its value.
pub fn encode(command: &LogCommand) -> (r: Result<Vec<u8>, KvError>)
    ensures
        r matches Ok(bytes) && bytes@ == encode_record(command@),
        command@.fits(),
{
    match command {
        LogCommand::Put(key, value) => {
            let mut bytes = encode_tag(PUT_TAG)?;
            let mut key_bytes = encode_text(key.as_str())?;
            let mut value_bytes = encode_text(value.as_str())?;
            bytes.append(&mut key_bytes);
            bytes.append(&mut value_bytes);
            Ok(bytes)
        },
        LogCommand::Remove(key) => {
            let mut bytes = encode_tag(REMOVE_TAG)?;
            let mut key_bytes = encode_text(key.as_str())?;
            bytes.append(&mut key_bytes);
            Ok(bytes)
        },
    }
}

/// Decodes the record at the start of `bytes` and tells how many bytes it
/// took. Bytes after the record are not looked at.
pub fn decode(bytes: &[u8]) -> (r: Result<(LogCommand, usize), KvError>)
    ensures
        match decode_record(bytes@) {
            Ok((record, used)) => r matches Ok((command, n)) && command@ == record && n == used,
            Err(e) => r matches Err(f) && f == e,
        },
{
    let tag = match read_u32(bytes) {
        Ok(tag) => tag,
        Err(_) => {
            return Err(KvError::CorruptRecord);
        },
    };
    if tag == PUT_TAG {
        let (key, key_len) = decode_text_at(bytes, 4)?;
        let (value, value_len) = decode_text_at(bytes, 4 + key_len)?;
        Ok((LogCommand::Put(key, value), 4 + key_len + value_len))
    } else if tag == REMOVE_TAG {
        let (key, key_len) = decode_text_at(bytes, 4)?;
        Ok((LogCommand::Remove(key), 4 + key_len))
    } else {
        Err(KvError::CorruptRecord)
    }
}

fn encode_tag(tag: u32) -> (r: Result<Vec<u8>, KvError>)
    ensures
        r matches Ok(bytes) && bytes@ == spec_u32_to_le_bytes(tag),
{
    match write_u32(tag) {
        Ok(bytes) => Ok(bytes),
        Err(_) => Err(KvError::SerializationError),
    }
}

fn encode_text(text: &str) -> (r: Result<Vec<u8>, KvError>)
    ensures
        r matches Ok(bytes) && bytes@ == text_bytes(text@),
        text_fits(text@),
{
    match write_text(text) {
        Ok(bytes) => {
            proof {
                lemma_auto_spec_u64_to_from_le_bytes();
                assert(text_bytes(text@).len() == bytes.len());
            }
            Ok(bytes)
        },
        Err(_) => Err(KvError::SerializationError),
    }
}

/// Decodes the text field that starts at `at` and tells how many bytes it
/// took.
fn decode_text_at(bytes: &[u8], at: usize) -> (r: Result<(String, usize), KvError>)
    requires
        at <= bytes.len(),
    ensures
        match decode_text(bytes@.skip(at as int)) {
            Ok((text, used)) => r matches Ok((s, n)) && s@ == text && n == used && at + n
                <= bytes.len(),
            Err(e) => r matches Err(f) && f == e,
        },
{
    let field = slice_subrange(bytes, at, bytes.len());
    match read_text(field) {
        Ok(text) => {
            proof {
                broadcast use encode_utf8_decode_utf8;

            }
            match text_size(text.as_str()) {
                Ok(size) => Ok((text, size as usize)),
                Err(_) => Err(KvError::SerializationError),
            }
        },
        Err(_) => Err(text_fault(field)),
    }
}

/// Why the text field at the start of `field` cannot be read.
fn text_fault(field: &[u8]) -> (e: KvError)
    requires
        decode_text(field@) is Err,
    ensures
        decode_text(field@) == Err::<(Seq<char>, nat), KvError>(e),
{
    if field.len() < 8 {
        return KvError::CorruptRecord;
    }
    let announced = u64_from_le_bytes(slice_subrange(field, 0, 8));
    if announced > (field.len() - 8) as u64 {
        KvError::CorruptRecord
    } else {
        KvError::SerializationError
    }
}

/// Reading back what was written gives the text again, whatever follows it.
proof fn lemma_text_round_trip(text: Seq<char>, rest: Seq<u8>)
    requires
        text_fits(text),
    ensures
        decode_text(text_bytes(text) + rest) == Ok::<(Seq<char>, nat), KvError>(
            (text, text_bytes(text).len()),
        ),
        text_bytes(text).len() == 8 + encode_utf8(text).len(),
{
    broadcast use {encode_utf8_valid_utf8, encode_utf8_decode_utf8};

    lemma_auto_spec_u64_to_from_le_bytes();
    let payload = encode_utf8(text);
    let head = spec_u64_to_le_bytes(payload.len() as u64);
    let bytes = text_bytes(text) + rest;
    assert(bytes.subrange(0, 8) =~= head);
    assert(announced_len(bytes) == payload.len());
    assert(text_payload(bytes) =~= payload);
}

/// A text that was read stands at the start of the bytes exactly as it would
/// be written.
proof fn lemma_text_read_is_written(bytes: Seq<u8>)
    requires
        decode_text(bytes) is Ok,
    ensures
        ({
            let (text, used) = decode_text(bytes)->Ok_0;
            &&& text_fits(text)
            &&& 8 <= used <= bytes.len()
            &&& bytes.subrange(0, used as int) == text_bytes(text)
        }),
{
    broadcast use decode_utf8_encode_utf8;

    lemma_auto_spec_u64_to_from_le_bytes();
    let payload = text_payload(bytes);
    let text = decode_utf8(payload);
    assert(encode_utf8(text) == payload);
    assert(spec_u64_to_le_bytes(payload.len() as u64) == bytes.subrange(0, 8));
    assert(bytes.subrange(0, 8 + payload.len() as int) =~= text_bytes(text));
}

/// A text field cut short anywhere is corrupt.
proof fn lemma_text_cut_short(bytes: Seq<u8>, keep: int)
    requires
        decode_text(bytes) is Ok,
        0 <= keep < (decode_text(bytes)->Ok_0).1,
    ensures
        decode_text(bytes.take(keep)) == Err::<(Seq<char>, nat), KvError>(KvError::CorruptRecord),
{
    if keep >= 8 {
        assert(bytes.take(keep).subrange(0, 8) =~= bytes.subrange(0, 8));
    }
}

/// Decoding what was encoded gives the record again and takes exactly the
/// bytes of the encoding, whatever follows them. It holds for empty keys and
/// values and for texts that hold any byte at all: a field is delimited by
/// its length, never by a byte of its content.
pub proof fn lemma_round_trip(record: Record, rest: Seq<u8>)
    requires
        record.fits(),
    ensures
        decode_record(encode_record(record) + rest) == Ok::<(Record, nat), KvError>(
            (record, encode_record(record).len()),
        ),
{
    lemma_auto_spec_u32_to_from_le_bytes();
    let bytes = encode_record(record) + rest;
    match record {
        Record::Put(key, value) => {
            let tag = spec_u32_to_le_bytes(PUT_TAG);
            assert(bytes.subrange(0, 4) =~= tag);
            assert(bytes.skip(4) =~= text_bytes(key) + (text_bytes(value) + rest));
            lemma_text_round_trip(key, text_bytes(value) + rest);
            assert(bytes.skip(4 + text_bytes(key).len() as int) =~= text_bytes(value) + rest);
            lemma_text_round_trip(value, rest);
        },
        Record::Remove(key) => {
            let tag = spec_u32_to_le_bytes(REMOVE_TAG);
            assert(bytes.subrange(0, 4) =~= tag);
            assert(bytes.skip(4) =~= text_bytes(key) + rest);
            lemma_text_round_trip(key, rest);
        },
    }
}

/// A record that was decoded stands at the start of the bytes exactly as it
/// would be encoded, and takes at least the twelve bytes of a tag and one
/// length.
pub proof fn lemma_decoded_is_encoded(bytes: Seq<u8>)
    requires
        decode_record(bytes) is Ok,
    ensures
        ({
            let (record, used) = decode_record(bytes)->Ok_0;
            &&& record.fits()
            &&& 12 <= used <= bytes.len()
            &&& used == encode_record(record).len()
            &&& bytes.subrange(0, used as int) == encode_record(record)
        }),
{
    lemma_auto_spec_u32_to_from_le_bytes();
    let (record, used) = decode_record(bytes)->Ok_0;
    let tag = bytes.subrange(0, 4);
    assert(spec_u32_to_le_bytes(spec_u32_from_le_bytes(tag)) == tag);
    lemma_text_read_is_written(bytes.skip(4));
    let key_len = (decode_text(bytes.skip(4))->Ok_0).1 as int;
    assert(bytes.skip(4).subrange(0, key_len) =~= bytes.subrange(4, 4 + key_len));
    match record {
        Record::Put(_, value) => {
            let after = bytes.skip(4 + key_len);
            lemma_text_read_is_written(after);
            let value_len = (decode_text(after)->Ok_0).1 as int;
            assert(after.subrange(0, value_len) =~= bytes.subrange(
                4 + key_len,
                4 + key_len + value_len,
            ));
            assert(bytes.subrange(0, used as int) =~= tag + bytes.subrange(4, 4 + key_len)
                + bytes.subrange(4 + key_len, 4 + key_len + value_len));
        },
        Record::Remove(_) => {
            assert(bytes.subrange(0, used as int) =~= tag + bytes.subrange(4, 4 + key_len));
        },
    }
}

/// What follows a record has no part in decoding it.
pub proof fn lemma_decode_ignores_rest(bytes: Seq<u8>, other: Seq<u8>)
    requires
        decode_record(bytes) is Ok,
        (decode_record(bytes)->Ok_0).1 <= other.len(),
        other.take((decode_record(bytes)->Ok_0).1 as int) == bytes.take(
            (decode_record(bytes)->Ok_0).1 as int,
        ),
    ensures
        decode_record(other) == decode_record(bytes),
{
    lemma_decoded_is_encoded(bytes);
    let (record, used) = decode_record(bytes)->Ok_0;
    lemma_round_trip(record, other.skip(used as int));
    assert(other =~= other.take(used as int) + other.skip(used as int));
}

/// A record cut short anywhere is corrupt: no shorter record hides in its
/// first bytes.
pub proof fn lemma_record_cut_short(bytes: Seq<u8>, keep: int)
    requires
        decode_record(bytes) is Ok,
        0 <= keep < (decode_record(bytes)->Ok_0).1,
    ensures
        decode_record(bytes.take(keep)) == Err::<(Record, nat), KvError>(KvError::CorruptRecord),
{
    let cut = bytes.take(keep);
    if keep >= 4 {
        assert(cut.subrange(0, 4) =~= bytes.subrange(0, 4));
        assert(cut.skip(4) =~= bytes.skip(4).take(keep - 4));
        let (key, key_nat) = decode_text(bytes.skip(4))->Ok_0;
        let key_len = key_nat as int;
        if keep - 4 < key_len {
            lemma_text_cut_short(bytes.skip(4), keep - 4);
        } else {
            lemma_text_read_is_written(bytes.skip(4));
            lemma_text_round_trip(key, cut.skip(4 + key_len));
            assert(cut.skip(4) =~= text_bytes(key) + cut.skip(4 + key_len));
            let after = bytes.skip(4 + key_len);
            assert(cut.skip(4 + key_len) =~= after.take(keep - 4 - key_len));
            if decode_record(bytes)->Ok_0.0 is Put {
                lemma_text_cut_short(after, keep - 4 - key_len);
            }
        }
    }
}

} // verus!
