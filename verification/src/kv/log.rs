//! The log as a sequence of records, and the mapping and the index that
//! its records leave.

use crate::kv::entry::{lemma_record_at_encoded, lemma_record_at_ok, record_at};
use crate::kv::entry::{CmdKind, EntryView};
use crate::kv::error::KvsError;
use vstd::prelude::*;

verus! {

/// A record of the log together with the offset of its first byte.
pub struct LogRecord {
    pub off: int,
    pub entry: EntryView,
}

/// The records that a scan of `log` reads, starting at `off` and going from
/// each record to the byte after it, up to the first offset at which no whole
/// record stands.
pub open spec fn records_from(log: Seq<u8>, off: int) -> Seq<LogRecord>
    decreases log.len() - off,
{
    match record_at(log, off) {
        Ok(e) => seq![LogRecord { off, entry: e }] + records_from(log, off + e.size()),
        Err(_) => Seq::empty(),
    }
}

/// The error that ends the scan of `log` from `off`: `EOF` where the records
/// reach the end of the log exactly, the error of the first bad record
/// otherwise.
pub open spec fn stop_from(log: Seq<u8>, off: int) -> KvsError
    decreases log.len() - off,
{
    match record_at(log, off) {
        Ok(e) => stop_from(log, off + e.size()),
        Err(err) => err,
    }
}

/// All the records of `log`.
pub open spec fn records(log: Seq<u8>) -> Seq<LogRecord> {
    records_from(log, 0)
}

/// The log consists of whole records and nothing else.
pub open spec fn clean(log: Seq<u8>) -> bool {
    stop_from(log, 0) == KvsError::EOF
}

/// Sum of the sizes of the records.
pub open spec fn total_size(recs: Seq<LogRecord>) -> int
    decreases recs.len(),
{
    if recs.len() == 0 {
        0
    } else {
        total_size(recs.drop_last()) + recs.last().entry.size()
    }
}

/// The encodings of the records, one after the other.
pub open spec fn encode_all(recs: Seq<LogRecord>) -> Seq<u8>
    decreases recs.len(),
{
    if recs.len() == 0 {
        Seq::empty()
    } else {
        encode_all(recs.drop_last()) + recs.last().entry.encode()
    }
}

/// Position in `recs` of the last record on `key`, if there is one.
pub open spec fn latest(recs: Seq<LogRecord>, key: Seq<char>) -> Option<int>
    decreases recs.len(),
{
    if recs.len() == 0 {
        None
    } else if recs.last().entry.key == key {
        Some(recs.len() - 1)
    } else {
        latest(recs.drop_last(), key)
    }
}

/// The key has a value: the last record on it is a `PUT`.
pub open spec fn holds(recs: Seq<LogRecord>, key: Seq<char>) -> bool {
    latest(recs, key) is Some && recs[latest(recs, key)->Some_0].entry.kind == CmdKind::PUT
}

/// The record at position `i` is the one that gives its key its value: a
/// `PUT` after which no record on that key comes.
pub open spec fn is_live(recs: Seq<LogRecord>, i: int) -> bool {
    &&& 0 <= i < recs.len()
    &&& recs[i].entry.kind == CmdKind::PUT
    &&& latest(recs, recs[i].entry.key) == Some(i)
}

/// The mapping that the records leave: each key that holds a value, with the
/// value of the last record on it.
pub open spec fn visible(recs: Seq<LogRecord>) -> Map<Seq<char>, Seq<char>> {
    Map::new(
        |k: Seq<char>| holds(recs, k),
        |k: Seq<char>| recs[latest(recs, k)->Some_0].entry.value,
    )
}

/// The index that the records leave: each key that holds a value, with the
/// offset of the last record on it.
pub open spec fn index_of(recs: Seq<LogRecord>) -> Map<Seq<char>, u64> {
    Map::new(
        |k: Seq<char>| holds(recs, k),
        |k: Seq<char>| recs[latest(recs, k)->Some_0].off as u64,
    )
}

/// The mapping that a store shows whose log is `log`.
pub open spec fn contents(log: Seq<u8>) -> Map<Seq<char>, Seq<char>> {
    visible(records(log))
}

/// What one record does to a mapping.
pub open spec fn apply(m: Map<Seq<char>, Seq<char>>, e: EntryView) -> Map<Seq<char>, Seq<char>> {
    match e.kind {
        CmdKind::PUT => m.insert(e.key, e.value),
        CmdKind::DEL => m.remove(e.key),
    }
}

/// What one record at offset `off` does to an index.
pub open spec fn apply_index(m: Map<Seq<char>, u64>, r: LogRecord) -> Map<Seq<char>, u64> {
    match r.entry.kind {
        CmdKind::PUT => m.insert(r.entry.key, r.off as u64),
        CmdKind::DEL => m.remove(r.entry.key),
    }
}

/// The live records among the first `n`, in their order, each moved to the
/// offset at which it stands once the others are gone.
pub open spec fn compacted_upto(recs: Seq<LogRecord>, n: int) -> Seq<LogRecord>
    decreases n,
{
    if n <= 0 {
        Seq::empty()
    } else {
        let prev = compacted_upto(recs, n - 1);
        if is_live(recs, n - 1) {
            prev.push(LogRecord { off: total_size(prev), entry: recs[n - 1].entry })
        } else {
            prev
        }
    }
}

/// The live records of `recs`, moved together.
pub open spec fn compacted(recs: Seq<LogRecord>) -> Seq<LogRecord> {
    compacted_upto(recs, recs.len() as int)
}

/// The log that a compaction of `log` writes: the encodings of its live
/// records, in the order in which they stand in `log`.
pub open spec fn compacted_log(log: Seq<u8>) -> Seq<u8> {
    encode_all(compacted(records(log)))
}

/// Number of bytes that the live records take.
pub open spec fn live_size(recs: Seq<LogRecord>) -> int {
    total_size(compacted(recs))
}

/// Each record stands where the ones before it end, and is well formed.
pub open spec fn packed(recs: Seq<LogRecord>) -> bool
    decreases recs.len(),
{
    recs.len() == 0 || {
        &&& packed(recs.drop_last())
        &&& recs.last().off == total_size(recs.drop_last())
        &&& recs.last().entry.well_formed()
    }
}

/// A record that lies inside the log is read the same after more bytes
/// are appended.
pub proof fn lemma_record_at_append(log: Seq<u8>, extra: Seq<u8>, off: int)
    requires
        record_at(log, off) is Ok,
    ensures
        record_at(log + extra, off) == record_at(log, off),
{
    let e = record_at(log, off)->Ok_0;
    lemma_record_at_ok(log, off);
    let longer = log + extra;
    assert(longer.subrange(off, off + e.size()) =~= log.subrange(off, off + e.size()));
    lemma_record_at_encoded(longer, off, e);
}

/// The scan's records lie inside the log, one after the other, from `off` on.
pub proof fn lemma_records_from_layout(log: Seq<u8>, off: int)
    requires
        0 <= off,
    ensures
        forall|i: int|
            0 <= i < records_from(log, off).len() ==> {
                let r = #[trigger] records_from(log, off)[i];
                &&& off <= r.off
                &&& r.off + r.entry.size() <= log.len()
                &&& record_at(log, r.off) == Ok::<EntryView, KvsError>(r.entry)
                &&& r.entry.well_formed()
            },
        forall|i: int, j: int|
            0 <= i < j < records_from(log, off).len() ==> (#[trigger] records_from(log, off)[i]).off
                + records_from(log, off)[i].entry.size() <= (#[trigger] records_from(
                log,
                off,
            )[j]).off,
        total_size(records_from(log, off)) <= log.len() - off || records_from(log, off).len() == 0,
        stop_from(log, off) == KvsError::EOF && off <= log.len() ==> total_size(
            records_from(log, off),
        ) == log.len() - off,
    decreases log.len() - off,
{
    match record_at(log, off) {
        Ok(e) => {
            lemma_record_at_ok(log, off);
            let next = off + e.size();
            lemma_records_from_layout(log, next);
            let first = LogRecord { off, entry: e };
            let rest = records_from(log, next);
            let all = records_from(log, off);
            assert(all =~= seq![first] + rest);
            lemma_total_size_prepend(first, rest);
            assert forall|i: int| 0 <= i < all.len() implies {
                let r = #[trigger] all[i];
                &&& off <= r.off
                &&& r.off + r.entry.size() <= log.len()
                &&& record_at(log, r.off) == Ok::<EntryView, KvsError>(r.entry)
                &&& r.entry.well_formed()
            } by {
                if i > 0 {
                    assert(all[i] == rest[i - 1]);
                }
            }
            assert forall|i: int, j: int| 0 <= i < j < all.len() implies (#[trigger] all[i]).off
                + all[i].entry.size() <= (#[trigger] all[j]).off by {
                assert(all[j] == rest[j - 1]);
                if i > 0 {
                    assert(all[i] == rest[i - 1]);
                }
            }
        },
        Err(_) => {},
    }
}

/// The size of a sequence of records with one more in front.
pub proof fn lemma_total_size_prepend(first: LogRecord, rest: Seq<LogRecord>)
    ensures
        total_size(seq![first] + rest) == first.entry.size() + total_size(rest),
    decreases rest.len(),
{
    let all = seq![first] + rest;
    if rest.len() == 0 {
        assert(all.drop_last() =~= Seq::<LogRecord>::empty());
        assert(total_size(all.drop_last()) == 0);
        assert(all.last() == first);
    } else {
        assert(all.drop_last() =~= seq![first] + rest.drop_last());
        assert(all.last() == rest.last());
        lemma_total_size_prepend(first, rest.drop_last());
    }
}

/// Appending the encoding of a well-formed record to a log of whole records
/// adds that record, at the old end of the log, to the records that a scan
/// reads, and the log still consists of whole records.
pub proof fn lemma_records_from_append(log: Seq<u8>, off: int, e: EntryView)
    requires
        0 <= off <= log.len(),
        stop_from(log, off) == KvsError::EOF,
        e.well_formed(),
    ensures
        records_from(log + e.encode(), off) == records_from(log, off).push(
            LogRecord { off: log.len() as int, entry: e },
        ),
        stop_from(log + e.encode(), off) == KvsError::EOF,
    decreases log.len() - off,
{
    let longer = log + e.encode();
    let added = LogRecord { off: log.len() as int, entry: e };
    if off == log.len() {
        assert(longer.subrange(off, off + e.size()) =~= e.encode());
        lemma_record_at_encoded(longer, off, e);
        assert(record_at(longer, off + e.size()) is Err);
        assert(records_from(longer, off + e.size()) =~= Seq::<LogRecord>::empty());
        assert(records_from(longer, off) =~= seq![added]);
        assert(records_from(log, off).push(added) =~= seq![added]);
        assert(stop_from(longer, off + e.size()) == KvsError::EOF);
    } else {
        let r = record_at(log, off)->Ok_0;
        lemma_record_at_ok(log, off);
        lemma_record_at_append(log, e.encode(), off);
        lemma_records_from_append(log, off + r.size(), e);
        let first = LogRecord { off, entry: r };
        assert(records_from(longer, off) =~= (seq![first] + records_from(log, off + r.size())).push(
            added,
        ));
    }
}

/// The last record on a key has that key, and no record after it has.
pub proof fn lemma_latest_is_last(recs: Seq<LogRecord>, key: Seq<char>)
    ensures
        match latest(recs, key) {
            Some(i) => {
                &&& 0 <= i < recs.len()
                &&& recs[i].entry.key == key
                &&& forall|j: int| i < j < recs.len() ==> (#[trigger] recs[j]).entry.key != key
            },
            None => forall|j: int| 0 <= j < recs.len() ==> (#[trigger] recs[j]).entry.key != key,
        },
    decreases recs.len(),
{
    if recs.len() > 0 && recs.last().entry.key != key {
        let front = recs.drop_last();
        lemma_latest_is_last(front, key);
        match latest(front, key) {
            Some(i) => {
                assert forall|j: int| i < j < recs.len() implies (#[trigger] recs[j]).entry.key
                    != key by {
                    if j < front.len() {
                        assert(recs[j] == front[j]);
                    }
                }
            },
            None => {
                assert forall|j: int| 0 <= j < recs.len() implies (#[trigger] recs[j]).entry.key
                    != key by {
                    if j < front.len() {
                        assert(recs[j] == front[j]);
                    }
                }
            },
        }
    }
}

/// The last record on a key, after one more record.
pub proof fn lemma_latest_push(recs: Seq<LogRecord>, r: LogRecord, key: Seq<char>)
    ensures
        latest(recs.push(r), key) == if r.entry.key == key {
            Some(recs.len() as int)
        } else {
            latest(recs, key)
        },
        latest(recs, key) is Some ==> 0 <= latest(recs, key)->Some_0 < recs.len(),
{
    assert(recs.push(r).drop_last() =~= recs);
    lemma_latest_is_last(recs, key);
}

/// One more record changes the visible mapping as `apply` says.
pub proof fn lemma_visible_push(recs: Seq<LogRecord>, r: LogRecord)
    ensures
        visible(recs.push(r)) == apply(visible(recs), r.entry),
{
    let more = recs.push(r);
    assert forall|k: Seq<char>|
        holds(more, k) == apply(visible(recs), r.entry).contains_key(k) && (holds(more, k)
            ==> more[latest(more, k)->Some_0].entry.value == apply(visible(recs), r.entry)[k]) by {
        lemma_latest_push(recs, r, k);
    }
    assert(visible(more) =~= apply(visible(recs), r.entry));
}

/// One more record changes the index as `apply_index` says.
pub proof fn lemma_index_push(recs: Seq<LogRecord>, r: LogRecord)
    ensures
        index_of(recs.push(r)) == apply_index(index_of(recs), r),
{
    let more = recs.push(r);
    assert forall|k: Seq<char>|
        holds(more, k) == apply_index(index_of(recs), r).contains_key(k) && (holds(more, k)
            ==> more[latest(more, k)->Some_0].off as u64 == apply_index(index_of(recs), r)[k]) by {
        lemma_latest_push(recs, r, k);
    }
    assert(index_of(more) =~= apply_index(index_of(recs), r));
}

} // verus!
