//! What a compaction keeps: facts on the live records of a log.

use crate::kv::entry::{lemma_encode_round_trip, CmdKind, EntryView};
use crate::kv::log::{clean, compacted, compacted_log, compacted_upto, contents, encode_all};
use crate::kv::log::{holds, index_of, is_live, latest, live_size, packed, records};
use crate::kv::log::{lemma_latest_is_last, lemma_latest_push, lemma_records_from_append};
use crate::kv::log::{lemma_records_from_layout, total_size, visible, LogRecord};
use vstd::prelude::*;

verus! {

/// Number of bytes of the record that gives `key` its value, or 0 where the
/// key has none: what one more record on `key` makes reclaimable.
pub open spec fn superseded_size(recs: Seq<LogRecord>, key: Seq<char>) -> int {
    if holds(recs, key) {
        recs[latest(recs, key)->Some_0].entry.size()
    } else {
        0
    }
}

/// The size of the first `n` records.
pub proof fn lemma_total_size_take(recs: Seq<LogRecord>, n: int)
    requires
        0 < n <= recs.len(),
    ensures
        total_size(recs.take(n)) == total_size(recs.take(n - 1)) + recs[n - 1].entry.size(),
{
    assert(recs.take(n).drop_last() =~= recs.take(n - 1));
}

/// The live records that were moved together are `PUT`s, stand packed where
/// the records they come from are well formed, and take no more room than
/// the records they were chosen from.
pub proof fn lemma_compacted_upto_shape(recs: Seq<LogRecord>, n: int)
    requires
        0 <= n <= recs.len(),
    ensures
        compacted_upto(recs, n).len() <= n,
        forall|j: int|
            0 <= j < compacted_upto(recs, n).len() ==> (#[trigger] compacted_upto(
                recs,
                n,
            )[j]).entry.kind == CmdKind::PUT,
        (forall|i: int| 0 <= i < n ==> (#[trigger] recs[i]).entry.well_formed()) ==> packed(
            compacted_upto(recs, n),
        ),
        0 <= total_size(compacted_upto(recs, n)) <= total_size(recs.take(n)),
    decreases n,
{
    if n > 0 {
        lemma_compacted_upto_shape(recs, n - 1);
        lemma_total_size_take(recs, n);
        let prev = compacted_upto(recs, n - 1);
        if is_live(recs, n - 1) {
            let moved = LogRecord { off: total_size(prev), entry: recs[n - 1].entry };
            assert(prev.push(moved).drop_last() =~= prev);
        }
    } else {
        assert(recs.take(0) =~= Seq::<LogRecord>::empty());
    }
}

/// A key holds a value in the live records that were moved together exactly
/// where the record that gives it its value is among those they were chosen
/// from, and then it is a copy of that record which gives it its value there.
pub proof fn lemma_compacted_upto_latest(recs: Seq<LogRecord>, n: int, key: Seq<char>)
    requires
        0 <= n <= recs.len(),
    ensures
        ({
            let c = compacted_upto(recs, n);
            if holds(recs, key) && latest(recs, key)->Some_0 < n {
                &&& latest(c, key) is Some
                &&& 0 <= latest(c, key)->Some_0 < c.len()
                &&& c[latest(c, key)->Some_0].entry == recs[latest(recs, key)->Some_0].entry
            } else {
                latest(c, key) is None
            }
        }),
    decreases n,
{
    lemma_latest_is_last(recs, key);
    if n > 0 {
        lemma_compacted_upto_latest(recs, n - 1, key);
        let prev = compacted_upto(recs, n - 1);
        let c = compacted_upto(recs, n);
        let r = recs[n - 1];
        if is_live(recs, n - 1) {
            let moved = LogRecord { off: total_size(prev), entry: r.entry };
            assert(c == prev.push(moved));
            lemma_latest_push(prev, moved, key);
            if r.entry.key == key {
                assert(c[prev.len() as int] == moved);
            } else if holds(recs, key) && latest(recs, key)->Some_0 < n {
                let j = latest(prev, key)->Some_0;
                assert(c[j] == prev[j]);
            }
        } else {
            assert(c == prev);
        }
    }
}

/// Moving the live records together changes neither which keys hold a value
/// nor the values.
pub proof fn lemma_compacted_visible(recs: Seq<LogRecord>)
    ensures
        visible(compacted(recs)) == visible(recs),
        index_of(compacted(recs)).dom() == index_of(recs).dom(),
{
    let c = compacted(recs);
    lemma_compacted_upto_shape(recs, recs.len() as int);
    assert forall|k: Seq<char>|
        holds(c, k) == holds(recs, k) && (holds(recs, k) ==> c[latest(c, k)->Some_0].entry.value
            == recs[latest(recs, k)->Some_0].entry.value) by {
        lemma_compacted_upto_latest(recs, recs.len() as int, k);
        lemma_latest_is_last(recs, k);
        lemma_latest_is_last(c, k);
    }
    assert(visible(c) =~= visible(recs));
    assert(index_of(c).dom() =~= index_of(recs).dom());
}

/// Packed records are what a scan of their encodings reads.
pub proof fn lemma_packed_records(recs: Seq<LogRecord>)
    requires
        packed(recs),
    ensures
        records(encode_all(recs)) == recs,
        clean(encode_all(recs)),
        encode_all(recs).len() == total_size(recs),
    decreases recs.len(),
{
    if recs.len() == 0 {
        assert(records(encode_all(recs)) =~= recs);
    } else {
        let front = recs.drop_last();
        lemma_packed_records(front);
        let e = recs.last().entry;
        lemma_records_from_append(encode_all(front), 0, e);
        lemma_encode_round_trip(e);
        assert(front.push(recs.last()) =~= recs);
    }
}

/// The live records take no more room than all the records.
pub proof fn lemma_live_size_bound(recs: Seq<LogRecord>)
    ensures
        0 <= live_size(recs) <= total_size(recs),
{
    lemma_compacted_upto_shape(recs, recs.len() as int);
    assert(recs.take(recs.len() as int) =~= recs);
}

/// What the records of a log leave after a compaction: the log that it
/// writes consists of the live records moved together and of nothing else,
/// shows the same mapping, and is no longer than the log was.
pub proof fn lemma_compaction(log: Seq<u8>)
    ensures
        records(compacted_log(log)) == compacted(records(log)),
        clean(compacted_log(log)),
        contents(compacted_log(log)) == contents(log),
        compacted_log(log).len() == live_size(records(log)),
        compacted_log(log).len() <= log.len(),
{
    let recs = records(log);
    lemma_records_from_layout(log, 0);
    lemma_compacted_upto_shape(recs, recs.len() as int);
    lemma_packed_records(compacted(recs));
    lemma_compacted_visible(recs);
    lemma_live_size_bound(recs);
}

/// Room that the first `n` live records take once one more record is added
/// at the end: a live record on the new record's key is live no longer.
proof fn lemma_live_size_push_upto(recs: Seq<LogRecord>, r: LogRecord, n: int)
    requires
        0 <= n <= recs.len(),
    ensures
        total_size(compacted_upto(recs.push(r), n)) == total_size(compacted_upto(recs, n)) - (
        if holds(recs, r.entry.key) && latest(recs, r.entry.key)->Some_0 < n {
            superseded_size(recs, r.entry.key)
        } else {
            0
        }),
    decreases n,
{
    let key = r.entry.key;
    lemma_latest_is_last(recs, key);
    if n > 0 {
        let more = recs.push(r);
        let x = recs[n - 1];
        lemma_live_size_push_upto(recs, r, n - 1);
        lemma_latest_push(recs, r, x.entry.key);
        assert(more[n - 1] == x);
        let prev = compacted_upto(recs, n - 1);
        let prev_more = compacted_upto(more, n - 1);
        let moved = LogRecord { off: total_size(prev), entry: x.entry };
        let moved_more = LogRecord { off: total_size(prev_more), entry: x.entry };
        assert(prev.push(moved).drop_last() =~= prev);
        assert(prev_more.push(moved_more).drop_last() =~= prev_more);
        assert(total_size(prev.push(moved)) == total_size(prev) + x.entry.size());
        assert(total_size(prev_more.push(moved_more)) == total_size(prev_more) + x.entry.size());
        if x.entry.key == key {
            assert(!is_live(more, n - 1));
            if is_live(recs, n - 1) {
                assert(holds(recs, key) && latest(recs, key)->Some_0 == n - 1);
            } else {
                assert(!(holds(recs, key) && latest(recs, key)->Some_0 == n - 1));
            }
        } else {
            assert(is_live(more, n - 1) == is_live(recs, n - 1));
            assert(latest(recs, key) != Some(n - 1));
        }
    }
}

/// Room that the live records take once one more record is added: the
/// record that it supersedes no longer counts, and the new record counts if
/// it is a `PUT`.
pub proof fn lemma_live_size_push(recs: Seq<LogRecord>, r: LogRecord)
    ensures
        live_size(recs.push(r)) == live_size(recs) - superseded_size(recs, r.entry.key) + (
        if r.entry.kind == CmdKind::PUT {
            r.entry.size()
        } else {
            0
        }),
        total_size(recs.push(r)) == total_size(recs) + r.entry.size(),
{
    let more = recs.push(r);
    let n = recs.len() as int;
    lemma_live_size_push_upto(recs, r, n);
    lemma_latest_push(recs, r, r.entry.key);
    lemma_latest_is_last(recs, r.entry.key);
    let prev = compacted_upto(more, n);
    if is_live(more, n) {
        let moved = LogRecord { off: total_size(prev), entry: r.entry };
        assert(prev.push(moved).drop_last() =~= prev);
    }
    assert(more.drop_last() =~= recs);
}

/// The record that gives a key its value is among the live ones: it takes
/// no more room than they do.
pub proof fn lemma_superseded_bound(recs: Seq<LogRecord>, key: Seq<char>)
    ensures
        0 <= superseded_size(recs, key) <= live_size(recs),
{
    let gone = LogRecord {
        off: 0,
        entry: EntryView {
            key_len: 0,
            value_len: 0,
            key,
            value: Seq::empty(),
            kind: CmdKind::DEL,
        },
    };
    lemma_live_size_push(recs, gone);
    lemma_live_size_bound(recs.push(gone));
}

/// A record is live exactly if it is a `PUT` and the index has its offset
/// for its key.
pub proof fn lemma_live_by_offset(log: Seq<u8>, n: int)
    requires
        log.len() <= u64::MAX,
        0 <= n < records(log).len(),
    ensures
        is_live(records(log), n) <==> {
            let r = records(log)[n];
            &&& r.entry.kind == CmdKind::PUT
            &&& index_of(records(log)).contains_key(r.entry.key)
            &&& index_of(records(log))[r.entry.key] == r.off as u64
        },
{
    let recs = records(log);
    lemma_records_from_layout(log, 0);
    lemma_latest_is_last(recs, recs[n].entry.key);
    if holds(recs, recs[n].entry.key) {
        let i = latest(recs, recs[n].entry.key)->Some_0;
        if i < n {
            assert(recs[i].off + recs[i].entry.size() <= recs[n].off);
        } else if n < i {
            assert(recs[n].off + recs[n].entry.size() <= recs[i].off);
        }
    }
}

/// In packed records each one stands where the ones before it end, and the
/// first so many of them are packed too.
pub proof fn lemma_packed_take(recs: Seq<LogRecord>, j: int)
    requires
        packed(recs),
        0 <= j <= recs.len(),
    ensures
        packed(recs.take(j)),
        j < recs.len() ==> recs[j].off == total_size(recs.take(j)) && recs[j].entry.well_formed(),
        j < recs.len() ==> recs.take(j + 1) == recs.take(j).push(recs[j]),
    decreases recs.len(),
{
    if j == recs.len() {
        assert(recs.take(j) =~= recs);
    } else {
        let front = recs.drop_last();
        lemma_packed_take(front, j);
        assert(front.take(j) =~= recs.take(j));
        assert(recs.take(j + 1) =~= recs.take(j).push(recs[j]));
        if j == recs.len() - 1 {
            assert(front.take(j) =~= front);
        }
    }
}

} // verus!
