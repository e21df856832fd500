//! The store: a log and the index over it.
//!
//! Every change is first written to the log and then entered in the index,
//! so the log alone says what the store holds: opening the same bytes again
//! gives the same store.

use crate::codec::{encode_record, LogCommand, Record};
use crate::error::KvError;
use crate::index::KvIndex;
use crate::log::{
    all_fit, encode_all, lemma_append_parses, lemma_parsed_is_encoded, lemma_record_in_log,
    log_records, start_of, KvLog,
};
use crate::model::{
    compacted, contents, lemma_compaction_keeps_contents, lemma_index_has_the_keys,
    lemma_index_points_at_value, lemma_live_is_indexed, live_upto, offsets,
};
use vstd::prelude::*;

verus! {

/// A key-value store kept as a log of puts and removals.
pub struct KvStore {
    log: KvLog,
    index: KvIndex,
}

impl View for KvStore {
    type V = Map<Seq<char>, Seq<char>>;

    /// The keys that the store holds, each with its value: what the records
    /// of the log add up to.
    open spec fn view(&self) -> Map<Seq<char>, Seq<char>> {
        contents(self.records())
    }
}

impl KvStore {
    /// The bytes of the store's log.
    pub closed spec fn bytes(&self) -> Seq<u8> {
        self.log@
    }

    /// The store's index.
    pub closed spec fn places(&self) -> Map<Seq<char>, nat> {
        self.index@
    }

    /// The records of the store's log.
    pub open spec fn records(&self) -> Seq<Record> {
        log_records(self.bytes())->Ok_0
    }

    /// What holds of every store: its log is records from end to end, and
    /// its index is the index of that log.
    pub open spec fn wf(&self) -> bool {
        &&& log_records(self.bytes()) is Ok
        &&& self.places() == offsets(self.records())
    }

    /// A store that holds nothing, over an empty log.
    pub fn new() -> (r: Result<KvStore, KvError>)
        ensures
            r matches Ok(store) && store.wf() && store.bytes() == Seq::<u8>::empty() && store@
                == Map::<Seq<char>, Seq<char>>::empty(),
    {
        KvStore::open(Vec::new())
    }

    /// Opens the store whose log holds `bytes`, and builds its index by
    /// replaying them. It fails with the log's first fault where the bytes
    /// are not records from end to end.
    pub fn open(bytes: Vec<u8>) -> (r: Result<KvStore, KvError>)
        ensures
            match log_records(bytes@) {
                Ok(records) => r matches Ok(store) && store.wf() && store.bytes() == bytes@
                    && store@ == contents(records),
                Err(e) => r matches Err(f) && f == e,
            },
    {
        let log = KvLog::open(bytes)?;
        let index = KvIndex::new(&log)?;
        Ok(KvStore { log, index })
    }

    /// Gives `key` the value `val`: writes a put at the end of the log and
    /// points the index at it.
    pub fn set(&mut self, key: String, val: String) -> (r: Result<(), KvError>)
        requires
            old(self).wf(),
        ensures
            r is Ok,
            final(self).wf(),
            final(self).bytes() == old(self).bytes() + encode_record(Record::Put(key@, val@)),
            final(self).records() == old(self).records().push(Record::Put(key@, val@)),
            final(self)@ == old(self)@.insert(key@, val@),
    {
        let ghost record = Record::Put(key@, val@);
        let ghost before = self.records();
        let ptr = self.log.append(LogCommand::Put(key.clone(), val))?;
        self.index.set(key, ptr);
        proof {
            lemma_parsed_is_encoded(old(self).bytes());
            lemma_append_parses(old(self).bytes(), record);
            assert(before.push(record).drop_last() =~= before);
        }
        Ok(())
    }

    /// The value of `key`, or `None` where the store does not hold the key.
    pub fn get(&self, key: String) -> (r: Result<Option<String>, KvError>)
        requires
            self.wf(),
        ensures
            r matches Ok(found) && match found {
                Some(value) => self@.contains_key(key@) && self@[key@] == value@,
                None => !self@.contains_key(key@),
            },
    {
        proof {
            lemma_parsed_is_encoded(self.bytes());
            lemma_index_has_the_keys(self.records());
            if self.places().contains_key(key@) {
                lemma_index_points_at_value(self.records(), key@);
            }
        }
        match self.index.lookup(key.as_str()) {
            Some(ptr) => match self.log.read(ptr)? {
                LogCommand::Put(_, value) => Ok(Some(value)),
                LogCommand::Remove(_) => Err(KvError::CorruptRecord),
            },
            None => Ok(None),
        }
    }

    /// Takes `key` out of the store: writes a removal at the end of the log
    /// and drops the key from the index. Where the store does not hold the
    /// key it fails with `NonExistentKey` before anything is written.
    pub fn remove(&mut self, key: String) -> (r: Result<(), KvError>)
        requires
            old(self).wf(),
        ensures
            final(self).wf(),
            old(self)@.contains_key(key@) ==> r is Ok && final(self).bytes() == old(self).bytes()
                + encode_record(Record::Remove(key@)) && final(self).records() == old(
                self,
            ).records().push(Record::Remove(key@)) && final(self)@ == old(self)@.remove(key@),
            !old(self)@.contains_key(key@) ==> r == Err::<(), KvError>(KvError::NonExistentKey)
                && *final(self) == *old(self),
    {
        proof {
            lemma_index_has_the_keys(self.records());
        }
        if self.index.lookup(key.as_str()).is_none() {
            return Err(KvError::NonExistentKey);
        }
        let ghost record = Record::Remove(key@);
        let ghost before = self.records();
        self.log.append(LogCommand::Remove(key.clone()))?;
        self.index.remove(key.as_str());
        proof {
            lemma_parsed_is_encoded(old(self).bytes());
            lemma_append_parses(old(self).bytes(), record);
            assert(before.push(record).drop_last() =~= before);
        }
        Ok(())
    }

    /// Rewrites the log so that it holds one put for each key of the store,
    /// with the key's value, and nothing else. The puts keep the order they
    /// had in the old log. The store holds afterwards what it held before.
    pub fn compact(&mut self) -> (r: Result<(), KvError>)
        requires
            old(self).wf(),
        ensures
            r is Ok,
            final(self).wf(),
            final(self).records() == compacted(old(self).records()),
            final(self)@ == old(self)@,
    {
        let ghost records = self.records();
        proof {
            lemma_parsed_is_encoded(self.bytes());
            assert(records.take(0) =~= Seq::<Record>::empty());
        }
        let mut fresh = KvLog::open(Vec::new())?;
        let mut index = KvIndex::empty();
        let mut iter = self.log.iter()?;
        let ghost mut i: int = 0;
        loop
            invariant
                self.wf(),
                *self == *old(self),
                records == self.records(),
                all_fit(records),
                self.bytes() == encode_all(records),
                iter.bytes() == self.bytes(),
                0 <= i <= records.len(),
                iter.offset() == start_of(records, i),
                log_records(fresh@) == Ok::<Seq<Record>, KvError>(live_upto(records, i)),
                index@ == offsets(live_upto(records, i)),
            ensures
                i == records.len(),
            decreases records.len() - i,
        {
            proof {
                if i < records.len() {
                    lemma_record_in_log(records, i);
                } else {
                    assert(records.take(i) =~= records);
                    assert(self.bytes().skip(iter.offset()) =~= Seq::<u8>::empty());
                }
            }
            match iter.next() {
                Some((command, ptr)) => {
                    if let LogCommand::Put(key, value) = command {
                        proof {
                            lemma_live_is_indexed(records, i);
                        }
                        let live = match self.index.lookup(key.as_str()) {
                            Some(at) => at == ptr,
                            None => false,
                        };
                        if live {
                            let ghost kept = live_upto(records, i);
                            proof {
                                lemma_parsed_is_encoded(fresh@);
                                lemma_append_parses(fresh@, records[i]);
                                assert(kept.push(records[i]).drop_last() =~= kept);
                            }
                            let at = fresh.append(LogCommand::Put(key.clone(), value))?;
                            index.set(key, at);
                        }
                    }
                    proof {
                        i = i + 1;
                    }
                },
                None => {
                    break ;
                },
            }
        }
        proof {
            lemma_compaction_keeps_contents(records);
        }
        self.log = fresh;
        self.index = index;
        Ok(())
    }

    /// The bytes of the log, to be stored.
    pub fn log_bytes(&self) -> (bytes: &[u8])
        ensures
            bytes@ == self.bytes(),
    {
        self.log.as_bytes()
    }
}

} // verus!
