//! The index: for each key that the store holds, the place in the log of the
//! put that gave it its value.
//!
//! The index is never stored. It is built from the log, record by record,
//! and then kept in step with every record that is written.

use crate::codec::{decode_record, lemma_decoded_is_encoded, LogCommand, Record};
use crate::error::KvError;
use crate::log::{encode_all, log_records, record_at, KvLog};
use crate::model::offsets;
use vstd::hash_map::StringHashMap;
use vstd::prelude::*;

verus! {

/// A map from keys to places in the log.
pub struct KvIndex {
    map: StringHashMap<usize>,
}

impl View for KvIndex {
    type V = Map<Seq<char>, nat>;

    closed spec fn view(&self) -> Map<Seq<char>, nat> {
        Map::new(|key: Seq<char>| self.map@.contains_key(key), |key: Seq<char>| self.map@[key] as nat)
    }
}

/// What is known of a log that has been read up to some place: the records
/// read so far, followed by whatever the rest of the bytes holds.
spec fn read_so_far(done: Seq<Record>, rest: Result<Seq<Record>, KvError>) -> Result<
    Seq<Record>,
    KvError,
> {
    match rest {
        Ok(records) => Ok(done + records),
        Err(e) => Err(e),
    }
}

impl KvIndex {
    /// An index that holds no key.
    pub fn empty() -> (index: KvIndex)
        ensures
            index@ == Map::<Seq<char>, nat>::empty(),
    {
        let index = KvIndex { map: StringHashMap::new() };
        assert(index@ =~= Map::<Seq<char>, nat>::empty());
        index
    }

    /// Builds the index of a log by going through its records from the
    /// first to the last. It fails with the log's first fault where the log
    /// is not records from end to end.
    pub fn new(log: &KvLog) -> (r: Result<KvIndex, KvError>)
        ensures
            match log_records(log@) {
                Ok(records) => r matches Ok(index) && index@ == offsets(records),
                Err(e) => r matches Err(f) && f == e,
            },
    {
        let mut index = KvIndex::empty();
        let mut iter = match log.iter() {
            Ok(iter) => iter,
            Err(e) => {
                return Err(e);
            },
        };
        let ghost mut done: Seq<Record> = Seq::empty();
        proof {
            assert(log@.skip(0) =~= log@);
            assert(done + log_records(log@)->Ok_0 =~= log_records(log@)->Ok_0);
        }
        loop
            invariant
                iter.bytes() == log@,
                0 <= iter.offset() <= log@.len(),
                iter.offset() == encode_all(done).len(),
                index@ == offsets(done),
                log_records(log@) == read_so_far(done, log_records(log@.skip(iter.offset()))),
            ensures
                record_at(log@, iter.offset()) is Err,
            decreases log@.len() - iter.offset(),
        {
            let ghost at = iter.offset();
            match iter.next() {
                Some((command, ptr)) => {
                    proof {
                        let rest = log@.skip(at);
                        lemma_decoded_is_encoded(rest);
                        let used = (decode_record(rest)->Ok_0).1 as int;
                        assert(rest.skip(used) =~= log@.skip(at + used));
                        let tail = log_records(log@.skip(at + used));
                        if tail is Ok {
                            assert(done + (seq![command@] + tail->Ok_0) =~= done.push(command@)
                                + tail->Ok_0);
                        }
                        assert(done.push(command@).drop_last() =~= done);
                        done = done.push(command@);
                    }
                    match command {
                        LogCommand::Put(key, _) => {
                            index.set(key, ptr);
                        },
                        LogCommand::Remove(key) => {
                            index.remove(key.as_str());
                        },
                    }
                },
                None => {
                    break ;
                },
            }
        }
        if iter.position() < log.len() {
            proof {
                assert(log@.skip(iter.offset()).len() > 0);
            }
            match log.read(iter.position()) {
                Ok(_) => Err(KvError::CorruptRecord),
                Err(e) => Err(e),
            }
        } else {
            proof {
                assert(log@.skip(iter.offset()) =~= Seq::<u8>::empty());
                assert(done + Seq::<Record>::empty() =~= done);
            }
            Ok(index)
        }
    }

    /// Sends `key` to `ptr`, in place of wherever it was sent before.
    pub fn set(&mut self, key: String, ptr: usize)
        ensures
            final(self)@ == old(self)@.insert(key@, ptr as nat),
    {
        self.map.insert(key, ptr);
        assert(self@ =~= old(self)@.insert(key@, ptr as nat));
    }

    /// Takes `key` out and tells whether it was there.
    pub fn remove(&mut self, key: &str) -> (present: bool)
        ensures
            present == old(self)@.contains_key(key@),
            final(self)@ == old(self)@.remove(key@),
    {
        let present = self.map.contains_key(key);
        self.map.remove(key);
        assert(self@ =~= old(self)@.remove(key@));
        present
    }

    /// The place that `key` is sent to, if it is in the index.
    pub fn lookup(&self, key: &str) -> (r: Option<usize>)
        ensures
            match r {
                Some(ptr) => self@.contains_key(key@) && self@[key@] == ptr,
                None => !self@.contains_key(key@),
            },
    {
        match self.map.get(key) {
            Some(ptr) => Some(*ptr),
            None => None,
        }
    }
}

} // verus!
