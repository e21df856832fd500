//! What a log means: the store that its records add up to, where the index
//! points, and which records a compaction keeps.

use crate::codec::{decode_record, lemma_decode_ignores_rest, lemma_decoded_is_encoded, Record};
use crate::log::{
    all_fit, encode_all, lemma_record_in_log, lemma_start_of_increases, record_at, start_of,
};
use vstd::prelude::*;

verus! {

/// The store after the records were applied in order: a put gives its key
/// its value, a removal takes its key out.
pub open spec fn contents(records: Seq<Record>) -> Map<Seq<char>, Seq<char>>
    decreases records.len(),
{
    if records.len() == 0 {
        Map::empty()
    } else {
        let earlier = contents(records.drop_last());
        match records.last() {
            Record::Put(key, value) => earlier.insert(key, value),
            Record::Remove(key) => earlier.remove(key),
        }
    }
}

/// The index after the records were applied in order: a put sends its key to
/// the place where that put starts in the log, a removal takes its key out.
pub open spec fn offsets(records: Seq<Record>) -> Map<Seq<char>, nat>
    decreases records.len(),
{
    if records.len() == 0 {
        Map::empty()
    } else {
        let earlier = offsets(records.drop_last());
        match records.last() {
            Record::Put(key, _) => earlier.insert(key, encode_all(records.drop_last()).len()),
            Record::Remove(key) => earlier.remove(key),
        }
    }
}

/// Whether record `i` is a put that no later record of the same key
/// follows: the put that decides what its key holds.
pub open spec fn is_live(records: Seq<Record>, i: int) -> bool {
    &&& 0 <= i < records.len()
    &&& records[i] is Put
    &&& forall|j: int|
        i < j < records.len() ==> (#[trigger] records[j]).key() != records[i].key()
}

/// The keys of the records from index `from` on.
spec fn later_keys(records: Seq<Record>, from: int) -> Set<Seq<char>> {
    Set::new(
        |key: Seq<char>|
            exists|j: int| from <= j < records.len() && (#[trigger] records[j]).key() == key,
    )
}

/// The live records among the first `n`, in the order of the log.
pub open spec fn live_upto(records: Seq<Record>, n: int) -> Seq<Record>
    decreases n,
{
    if n <= 0 {
        Seq::empty()
    } else if is_live(records, n - 1) {
        live_upto(records, n - 1).push(records[n - 1])
    } else {
        live_upto(records, n - 1)
    }
}

/// The records of the compacted log: the live records, in the order of the
/// log.
pub open spec fn compacted(records: Seq<Record>) -> Seq<Record> {
    live_upto(records, records.len() as int)
}

/// The last write wins: a put that no later record of its key follows
/// decides the value of its key, however often the key was put or removed
/// before.
pub proof fn lemma_last_put_wins(records: Seq<Record>, i: int)
    requires
        is_live(records, i),
    ensures
        records[i] matches Record::Put(key, value) && contents(records).contains_key(key)
            && contents(records)[key] == value,
    decreases records.len(),
{
    if i < records.len() - 1 {
        let earlier = records.drop_last();
        assert(records.last() == records[records.len() - 1]);
        assert(forall|j: int| 0 <= j < earlier.len() ==> earlier[j] == records[j]);
        lemma_last_put_wins(earlier, i);
    }
}

/// A key without such a put is absent: it was never put, or a removal
/// followed its last put.
pub proof fn lemma_absent_without_live_put(records: Seq<Record>, key: Seq<char>)
    requires
        forall|i: int| is_live(records, i) ==> (#[trigger] records[i]).key() != key,
    ensures
        !contents(records).contains_key(key),
    decreases records.len(),
{
    if records.len() > 0 {
        let earlier = records.drop_last();
        let last = records.len() - 1;
        if records[last].key() == key {
            if records[last] is Put {
                assert(is_live(records, last));
            }
        } else {
            assert forall|i: int| is_live(earlier, i) implies (#[trigger] earlier[i]).key()
                != key by {
                assert(forall|j: int| 0 <= j < earlier.len() ==> earlier[j] == records[j]);
                if earlier[i].key() == key {
                    assert(is_live(records, i));
                    assert(records[i].key() != key);
                }
            }
            lemma_absent_without_live_put(earlier, key);
        }
    }
}

/// The index holds exactly the keys that the store holds.
pub proof fn lemma_index_has_the_keys(records: Seq<Record>)
    ensures
        offsets(records).dom() == contents(records).dom(),
    decreases records.len(),
{
    if records.len() > 0 {
        lemma_index_has_the_keys(records.drop_last());
    }
    assert(offsets(records).dom() =~= contents(records).dom());
}

/// Where the index sends a key, the log holds the put that gives the key
/// the value it has in the store.
pub proof fn lemma_index_points_at_value(records: Seq<Record>, key: Seq<char>)
    requires
        all_fit(records),
        offsets(records).contains_key(key),
    ensures
        contents(records).contains_key(key),
        record_at(encode_all(records), offsets(records)[key] as int) matches Ok((record, _))
            && record == Record::Put(key, contents(records)[key]),
    decreases records.len(),
{
    let earlier = records.drop_last();
    let last = records.len() - 1;
    assert(records.take(last) =~= earlier);
    assert(all_fit(earlier)) by {
        assert(forall|j: int| 0 <= j < earlier.len() ==> earlier[j] == records[j]);
    }
    if records[last] is Put && records[last].key() == key {
        lemma_record_in_log(records, last);
    } else {
        lemma_index_points_at_value(earlier, key);
        let at = offsets(earlier)[key] as int;
        let shorter = encode_all(earlier).skip(at);
        let longer = encode_all(records).skip(at);
        lemma_decoded_is_encoded(shorter);
        let used = (decode_record(shorter)->Ok_0).1 as int;
        assert(longer.take(used) =~= shorter.take(used));
        lemma_decode_ignores_rest(shorter, longer);
    }
}

/// A put is live exactly when the index points at it.
pub proof fn lemma_live_is_indexed(records: Seq<Record>, i: int)
    requires
        all_fit(records),
        0 <= i < records.len(),
        records[i] is Put,
    ensures
        is_live(records, i) <==> offsets(records).contains_key(records[i].key()) && offsets(
            records,
        )[records[i].key()] == start_of(records, i),
    decreases records.len(),
{
    let earlier = records.drop_last();
    let last = records.len() - 1;
    assert(records.take(last) =~= earlier);
    assert(forall|j: int| 0 <= j < earlier.len() ==> earlier[j] == records[j]);
    if i < last {
        assert(records.take(i) =~= earlier.take(i));
        lemma_live_is_indexed(earlier, i);
        lemma_start_of_increases(records, i, last);
        if records[last].key() != records[i].key() {
            assert(is_live(records, i) <==> is_live(earlier, i));
        }
    }
}

/// The keys from one record on are the key of that record and the keys
/// from the next record on.
proof fn lemma_later_keys_step(records: Seq<Record>, m: int)
    requires
        0 <= m < records.len(),
    ensures
        later_keys(records, m) == later_keys(records, m + 1).insert(records[m].key()),
        is_live(records, m) <==> records[m] is Put && !later_keys(records, m + 1).contains(
            records[m].key(),
        ),
{
    let here = later_keys(records, m);
    let next = later_keys(records, m + 1).insert(records[m].key());
    assert forall|key: Seq<char>| here.contains(key) <==> next.contains(key) by {
        if here.contains(key) {
            let j = choose|j: int| m <= j < records.len() && (#[trigger] records[j]).key() == key;
            if j > m {
                assert(later_keys(records, m + 1).contains(key));
            }
        }
        if later_keys(records, m + 1).contains(key) {
            let j = choose|j: int|
                m + 1 <= j < records.len() && (#[trigger] records[j]).key() == key;
            assert(m <= j < records.len() && records[j].key() == key);
        }
        if key == records[m].key() {
            assert(m <= m < records.len() && records[m].key() == key);
        }
    }
    assert(here =~= next);
    if later_keys(records, m + 1).contains(records[m].key()) {
        let j = choose|j: int|
            m + 1 <= j < records.len() && (#[trigger] records[j]).key() == records[m].key();
        assert(!is_live(records, m));
    }
}

/// The live records among the first `n` hold what the first `n` records
/// add up to, less the keys that come again later.
proof fn lemma_live_upto_contents(records: Seq<Record>, n: int)
    requires
        0 <= n <= records.len(),
    ensures
        contents(live_upto(records, n)) == contents(records.take(n)).remove_keys(
            later_keys(records, n),
        ),
    decreases n,
{
    let kept = contents(live_upto(records, n));
    let all = contents(records.take(n)).remove_keys(later_keys(records, n));
    if n == 0 {
        assert(records.take(0) =~= Seq::<Record>::empty());
    } else {
        let m = n - 1;
        lemma_live_upto_contents(records, m);
        lemma_later_keys_step(records, m);
        assert(records.take(n).drop_last() =~= records.take(m));
        assert(records.take(n).last() == records[m]);
        if is_live(records, m) {
            assert(live_upto(records, n).drop_last() =~= live_upto(records, m));
        }
    }
    assert(kept =~= all);
}

/// Compaction changes nothing in what the store holds.
pub proof fn lemma_compaction_keeps_contents(records: Seq<Record>)
    ensures
        contents(compacted(records)) == contents(records),
{
    let n = records.len() as int;
    lemma_live_upto_contents(records, n);
    assert(records.take(n) =~= records);
    assert(later_keys(records, n) =~= Set::empty());
    assert(contents(records).remove_keys(Set::empty()) =~= contents(records));
}

/// Whether the records are all puts, no two of the same key.
spec fn distinct_puts(records: Seq<Record>) -> bool {
    &&& forall|i: int| 0 <= i < records.len() ==> (#[trigger] records[i]) is Put
    &&& forall|i: int, j: int|
        0 <= i < j < records.len() ==> (#[trigger] records[i]).key() != (
        #[trigger] records[j]).key()
}

/// The live records among the first `n` are puts of different keys, none of
/// which comes again from record `n` on.
proof fn lemma_live_upto_distinct(records: Seq<Record>, n: int)
    requires
        0 <= n <= records.len(),
    ensures
        distinct_puts(live_upto(records, n)),
        forall|i: int|
            0 <= i < live_upto(records, n).len() ==> !later_keys(records, n).contains(
                (#[trigger] live_upto(records, n)[i]).key(),
            ),
    decreases n,
{
    if n > 0 {
        let m = n - 1;
        lemma_live_upto_distinct(records, m);
        lemma_later_keys_step(records, m);
    }
}

/// Among puts of different keys every record is live.
proof fn lemma_distinct_puts_are_live(records: Seq<Record>, n: int)
    requires
        distinct_puts(records),
        0 <= n <= records.len(),
    ensures
        live_upto(records, n) == records.take(n),
    decreases n,
{
    if n > 0 {
        lemma_distinct_puts_are_live(records, n - 1);
        assert(is_live(records, n - 1));
        assert(records.take(n - 1).push(records[n - 1]) =~= records.take(n));
    } else {
        assert(records.take(n) =~= Seq::<Record>::empty());
    }
}

/// Compacting a compacted log changes nothing: the second compaction keeps
/// every record of the first, in the same order, so the log it writes, and
/// with it the index, are those of the first.
pub proof fn lemma_compaction_is_idempotent(records: Seq<Record>)
    ensures
        compacted(compacted(records)) == compacted(records),
        offsets(compacted(compacted(records))) == offsets(compacted(records)),
        contents(compacted(compacted(records))) == contents(records),
{
    let once = compacted(records);
    lemma_live_upto_distinct(records, records.len() as int);
    lemma_distinct_puts_are_live(once, once.len() as int);
    assert(once.take(once.len() as int) =~= once);
    lemma_compaction_keeps_contents(records);
}

} // verus!
