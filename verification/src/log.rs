//! The append-only log: records laid end to end in one growing run of bytes.
//!
//! The log's length is the number of bytes written so far. A record is written
//! at the end and never changed afterwards, so the place where it starts names
//! it for good.

use crate::codec::{
    decode, decode_record, encode, encode_record, lemma_decode_ignores_rest,
    lemma_decoded_is_encoded, lemma_record_cut_short, lemma_round_trip, LogCommand, Record,
};
use crate::error::KvError;
use vstd::prelude::*;
use vstd::slice::slice_subrange;

verus! {

/// The record that starts at `ptr` and the number of bytes it takes. A place
/// at or past the end of the bytes holds no record.
pub open spec fn record_at(bytes: Seq<u8>, ptr: int) -> Result<(Record, nat), KvError> {
    if 0 <= ptr <= bytes.len() {
        decode_record(bytes.skip(ptr))
    } else {
        Err(KvError::CorruptRecord)
    }
}

/// The records of a log in the order in which they were written, or the fault
/// of the first stretch of bytes that is no record. The empty log holds no
/// records; bytes left over after the last whole record are a fault.
pub open spec fn log_records(bytes: Seq<u8>) -> Result<Seq<Record>, KvError>
    decreases bytes.len(),
    via log_records_decreases
{
    if bytes.len() == 0 {
        Ok(Seq::empty())
    } else {
        match decode_record(bytes) {
            Err(e) => Err(e),
            Ok((record, used)) => match log_records(bytes.skip(used as int)) {
                Err(e) => Err(e),
                Ok(rest) => Ok(seq![record] + rest),
            },
        }
    }
}

#[via_fn]
proof fn log_records_decreases(bytes: Seq<u8>) {
    if decode_record(bytes) is Ok {
        lemma_decoded_is_encoded(bytes);
    }
}

/// The bytes of a log that holds exactly these records.
pub open spec fn encode_all(records: Seq<Record>) -> Seq<u8>
    decreases records.len(),
{
    if records.len() == 0 {
        Seq::empty()
    } else {
        encode_all(records.drop_last()) + encode_record(records.last())
    }
}

/// Whether every record of the sequence can be encoded.
pub open spec fn all_fit(records: Seq<Record>) -> bool {
    forall|i: int| 0 <= i < records.len() ==> (#[trigger] records[i]).fits()
}

/// The place in the log where the record with index `i` starts: the length
/// of all the records before it.
pub open spec fn start_of(records: Seq<Record>, i: int) -> nat {
    encode_all(records.take(i)).len()
}

/// The log as a run of bytes.
pub struct KvLog {
    data: Vec<u8>,
}

impl View for KvLog {
    type V = Seq<u8>;

    closed spec fn view(&self) -> Seq<u8> {
        self.data@
    }
}

impl KvLog {
    /// Takes the bytes of a stored log as they are; an empty vector is a new
    /// log. Nothing is read here: a log that holds a fault is found out when
    /// it is replayed.
    pub fn open(bytes: Vec<u8>) -> (r: Result<KvLog, KvError>)
        ensures
            r matches Ok(log) && log@ == bytes@,
    {
        Ok(KvLog { data: bytes })
    }

    /// Writes the command at the end of the log and returns the place where
    /// it starts.
    pub fn append(&mut self, command: LogCommand) -> (r: Result<usize, KvError>)
        ensures
            r matches Ok(ptr) && ptr == old(self)@.len(),
            final(self)@ == old(self)@ + encode_record(command@),
            command@.fits(),
    {
        let mut encoded = encode(&command)?;
        let ptr = self.data.len();
        self.data.append(&mut encoded);
        Ok(ptr)
    }

    /// Decodes the record that starts at `ptr`.
    pub fn read(&self, ptr: usize) -> (r: Result<LogCommand, KvError>)
        ensures
            match record_at(self@, ptr as int) {
                Ok((record, _)) => r matches Ok(command) && command@ == record,
                Err(e) => r matches Err(f) && f == e,
            },
    {
        if ptr > self.data.len() {
            return Err(KvError::CorruptRecord);
        }
        let rest = slice_subrange(self.data.as_slice(), ptr, self.data.len());
        match decode(rest) {
            Ok((command, _)) => Ok(command),
            Err(e) => Err(e),
        }
    }

    /// Starts a walk over the records from the beginning of the log.
    pub fn iter(&self) -> (r: Result<LogIterator<'_>, KvError>)
        ensures
            r matches Ok(iter) && iter.bytes() == self@ && iter.offset() == 0,
    {
        Ok(LogIterator::new(self.data.as_slice()))
    }

    /// The number of bytes written so far.
    pub fn len(&self) -> (n: usize)
        ensures
            n == self@.len(),
    {
        self.data.len()
    }

    /// The bytes written so far.
    pub fn as_bytes(&self) -> (bytes: &[u8])
        ensures
            bytes@ == self@,
    {
        self.data.as_slice()
    }
}

/// A walk over the records of a log, from the first towards the last. It
/// sees the bytes that the log held when the walk began.
pub struct LogIterator<'a> {
    data: &'a [u8],
    position: usize,
}

impl<'a> LogIterator<'a> {
    /// The bytes that the walk goes over.
    pub closed spec fn bytes(&self) -> Seq<u8> {
        self.data@
    }

    /// The place of the record that comes next.
    pub closed spec fn offset(&self) -> int {
        self.position as int
    }

    /// Starts a walk at the beginning of `data`.
    pub fn new(data: &'a [u8]) -> (iter: LogIterator<'a>)
        ensures
            iter.bytes() == data@,
            iter.offset() == 0,
    {
        LogIterator { data, position: 0 }
    }

    /// The place of the record that comes next. After the last record it is
    /// the length of the log; where the walk stopped at a fault it is the
    /// place of the fault.
    pub fn position(&self) -> (p: usize)
        ensures
            p == self.offset(),
    {
        self.position
    }

    /// Hands out the next record with the place where it starts, and moves
    /// past it. It returns `None`, and stays where it is, at the end of the
    /// log and at bytes that are no record.
    pub fn next(&mut self) -> (r: Option<(LogCommand, usize)>)
        ensures
            final(self).bytes() == old(self).bytes(),
            match record_at(old(self).bytes(), old(self).offset()) {
                Ok((record, used)) => r matches Some((command, ptr)) && command@ == record && ptr
                    == old(self).offset() && final(self).offset() == ptr + used,
                Err(_) => r is None && final(self).offset() == old(self).offset(),
            },
    {
        if self.position >= self.data.len() {
            return None;
        }
        let rest = slice_subrange(self.data, self.position, self.data.len());
        match decode(rest) {
            Ok((command, used)) => {
                proof {
                    lemma_decoded_is_encoded(rest@);
                }
                let ptr = self.position;
                self.position = ptr + used;
                Some((command, ptr))
            },
            Err(_) => None,
        }
    }
}

/// The bytes of two runs of records, one after the other, are the bytes of
/// the first followed by the bytes of the second.
proof fn lemma_encode_all_concat(a: Seq<Record>, b: Seq<Record>)
    ensures
        encode_all(a + b) == encode_all(a) + encode_all(b),
    decreases b.len(),
{
    if b.len() == 0 {
        assert(a + b =~= a);
        assert(encode_all(a) + encode_all(b) =~= encode_all(a));
    } else {
        lemma_encode_all_concat(a, b.drop_last());
        assert((a + b).drop_last() =~= a + b.drop_last());
        assert(encode_all(a + b) =~= encode_all(a) + encode_all(b));
    }
}

/// A log that parses still parses with one more record written at its end,
/// and holds that record last.
pub proof fn lemma_append_parses(bytes: Seq<u8>, record: Record)
    requires
        log_records(bytes) is Ok,
        record.fits(),
    ensures
        log_records(bytes + encode_record(record)) == Ok::<Seq<Record>, KvError>(
            log_records(bytes)->Ok_0.push(record),
        ),
    decreases bytes.len(),
{
    let encoded = encode_record(record);
    let longer = bytes + encoded;
    if bytes.len() == 0 {
        assert(longer =~= encoded + Seq::<u8>::empty());
        lemma_round_trip(record, Seq::empty());
        lemma_decoded_is_encoded(longer);
        assert(longer.skip(encoded.len() as int) =~= Seq::<u8>::empty());
        assert(log_records(Seq::<u8>::empty()) == Ok::<Seq<Record>, KvError>(Seq::empty()));
        assert(log_records(bytes)->Ok_0 =~= Seq::<Record>::empty());
        assert(seq![record] + Seq::<Record>::empty() =~= Seq::<Record>::empty().push(record));
    } else {
        lemma_decoded_is_encoded(bytes);
        let (first, used) = decode_record(bytes)->Ok_0;
        let rest = log_records(bytes.skip(used as int))->Ok_0;
        assert(longer.take(used as int) =~= bytes.take(used as int));
        lemma_decode_ignores_rest(bytes, longer);
        assert(longer.skip(used as int) =~= bytes.skip(used as int) + encoded);
        lemma_append_parses(bytes.skip(used as int), record);
        assert(seq![first] + rest.push(record) =~= (seq![first] + rest).push(record));
    }
}

/// A log that parses is the encoding of its records, each of which fits.
pub proof fn lemma_parsed_is_encoded(bytes: Seq<u8>)
    requires
        log_records(bytes) is Ok,
    ensures
        bytes == encode_all(log_records(bytes)->Ok_0),
        all_fit(log_records(bytes)->Ok_0),
    decreases bytes.len(),
{
    if bytes.len() == 0 {
        assert(bytes =~= encode_all(Seq::empty()));
    } else {
        lemma_decoded_is_encoded(bytes);
        let (first, used) = decode_record(bytes)->Ok_0;
        let rest = log_records(bytes.skip(used as int))->Ok_0;
        lemma_parsed_is_encoded(bytes.skip(used as int));
        lemma_encode_all_concat(seq![first], rest);
        assert(seq![first].drop_last() =~= Seq::<Record>::empty());
        assert(encode_all(Seq::<Record>::empty()) =~= Seq::<u8>::empty());
        assert(encode_all(seq![first]) =~= encode_record(first));
        assert(bytes =~= bytes.subrange(0, used as int) + bytes.skip(used as int));
    }
}

/// The encoding of records that fit parses to those records.
pub proof fn lemma_encoded_parses(records: Seq<Record>)
    requires
        all_fit(records),
    ensures
        log_records(encode_all(records)) == Ok::<Seq<Record>, KvError>(records),
    decreases records.len(),
{
    if records.len() > 0 {
        lemma_encoded_parses(records.drop_last());
        lemma_append_parses(encode_all(records.drop_last()), records.last());
        assert(records.drop_last().push(records.last()) =~= records);
    } else {
        assert(records =~= Seq::<Record>::empty());
    }
}

/// Each record of a log is found at its start, and the next record starts
/// where it ends.
pub proof fn lemma_record_in_log(records: Seq<Record>, i: int)
    requires
        all_fit(records),
        0 <= i < records.len(),
    ensures
        record_at(encode_all(records), start_of(records, i) as int) == Ok::<
            (Record, nat),
            KvError,
        >((records[i], encode_record(records[i]).len())),
        start_of(records, i + 1) == start_of(records, i) + encode_record(records[i]).len(),
        start_of(records, i) < start_of(records, i + 1) <= encode_all(records).len(),
{
    let before = records.take(i);
    let after = records.skip(i + 1);
    let upto = records.take(i + 1);
    assert(upto.drop_last() =~= before);
    assert(records =~= upto + after);
    lemma_encode_all_concat(upto, after);
    let bytes = encode_all(records);
    assert(bytes.skip(start_of(records, i) as int) =~= encode_record(records[i]) + encode_all(
        after,
    ));
    lemma_round_trip(records[i], encode_all(after));
    lemma_decoded_is_encoded(bytes.skip(start_of(records, i) as int));
}

/// Records further on in the log start further on.
pub proof fn lemma_start_of_increases(records: Seq<Record>, i: int, j: int)
    requires
        all_fit(records),
        0 <= i < j <= records.len(),
    ensures
        start_of(records, i) < start_of(records, j),
        start_of(records, j) <= encode_all(records).len(),
    decreases j - i,
{
    lemma_record_in_log(records, j - 1);
    if i < j - 1 {
        lemma_start_of_increases(records, i, j - 1);
    }
}

/// A log cut off at any byte either parses to the records that were whole
/// before the cut, or is reported as corrupt. It never yields a record that
/// was not written, and never any other fault.
pub proof fn lemma_cut_log(bytes: Seq<u8>, keep: int)
    requires
        log_records(bytes) is Ok,
        0 <= keep <= bytes.len(),
    ensures
        match log_records(bytes.take(keep)) {
            Ok(records) => records.len() <= log_records(bytes)->Ok_0.len() && records
                == log_records(bytes)->Ok_0.take(records.len() as int),
            Err(e) => e == KvError::CorruptRecord,
        },
    decreases bytes.len(),
{
    let cut = bytes.take(keep);
    let whole = log_records(bytes)->Ok_0;
    if keep == 0 {
        assert(whole.take(0) =~= Seq::<Record>::empty());
    } else {
        lemma_decoded_is_encoded(bytes);
        let (first, used) = decode_record(bytes)->Ok_0;
        let rest = log_records(bytes.skip(used as int))->Ok_0;
        if keep < used {
            lemma_record_cut_short(bytes, keep);
        } else {
            assert(cut.take(used as int) =~= bytes.take(used as int));
            lemma_decode_ignores_rest(bytes, cut);
            assert(cut.skip(used as int) =~= bytes.skip(used as int).take(keep - used));
            lemma_cut_log(bytes.skip(used as int), keep - used);
            if log_records(cut) is Ok {
                let kept = log_records(cut.skip(used as int))->Ok_0;
                assert(seq![first] + kept =~= whole.take(kept.len() as int + 1));
            }
        }
    }
}

} // verus!
