//! The store as its users see it, and what holds of its operations taken
//! together.

use crate::kv::compaction::{lemma_compacted_upto_latest, lemma_compaction};
use crate::kv::entry::{entry_of, CmdKind};
use crate::kv::error::KvsError;
use crate::kv::log::{compacted, latest, records, LogRecord};
use crate::kv::log::{lemma_latest_push, lemma_records_from_append};
use crate::kv::storage::{get_effect, merge_effect, open_effect, put_effect, remove_effect};
use crate::kv::storage::{sync_effect, updated, FileUpdate, SimplifiedBitcask, Storage};
use vstd::prelude::*;

verus! {

/// A key-value store of strings whose state is the log of the commands that
/// made it.
pub struct KvStore {
    storage: SimplifiedBitcask,
}

impl View for KvStore {
    type V = Map<Seq<char>, Seq<char>>;

    /// The mapping that the store shows.
    open spec fn view(&self) -> Map<Seq<char>, Seq<char>> {
        self.engine()@
    }
}

impl KvStore {
    /// The engine behind the store.
    pub closed spec fn engine(&self) -> SimplifiedBitcask {
        self.storage
    }

    /// The store's invariant: that of its engine.
    pub open spec fn wf(&self) -> bool {
        self.engine().wf()
    }

    /// Opens a store on the bytes of its data file. Fails exactly where they
    /// are not whole records, with the error of the first bad one.
    pub fn open(data: Vec<u8>) -> (r: Result<KvStore, KvsError>)
        ensures
            match r {
                Ok(store) => open_effect(data@, Ok(store.engine())),
                Err(e) => open_effect(data@, Err(e)),
            },
    {
        let storage = SimplifiedBitcask::open(data)?;
        Ok(KvStore { storage })
    }

    /// The value of `key`, or `None` where it has none.
    pub fn get(&mut self, key: String) -> (r: Result<Option<String>, KvsError>)
        requires
            old(self).wf(),
        ensures
            get_effect(old(self).engine(), final(self).engine(), key@, r),
    {
        self.storage.get(key)
    }

    /// Gives `key` the value `val`.
    pub fn set(&mut self, key: String, val: String) -> (r: Result<(), KvsError>)
        requires
            old(self).wf(),
        ensures
            put_effect(old(self).engine(), final(self).engine(), key@, val@, r),
    {
        self.storage.put(key, val)
    }

    /// Takes `key` out of the store; `KeyNotFound` where it has no value.
    pub fn remove(&mut self, key: String) -> (r: Result<(), KvsError>)
        requires
            old(self).wf(),
        ensures
            remove_effect(old(self).engine(), final(self).engine(), key@, r),
    {
        self.storage.remove(key)
    }

    /// What has to be done to the data file so that it holds the store's log.
    pub fn sync(&mut self) -> (u: FileUpdate)
        requires
            old(self).wf(),
        ensures
            sync_effect(old(self).engine(), final(self).engine(), u),
    {
        self.storage.sync()
    }
}

/// No record of `log` is on `key`.
pub open spec fn untouched(log: Seq<u8>, key: Seq<char>) -> bool {
    latest(records(log), key) is None
}

/// A `get` right after a `set` of the same key gives the value that was set.
pub proof fn lemma_set_then_get(
    s0: SimplifiedBitcask,
    s1: SimplifiedBitcask,
    s2: SimplifiedBitcask,
    key: Seq<char>,
    val: Seq<char>,
    set: Result<(), KvsError>,
    got: Result<Option<String>, KvsError>,
)
    requires
        s0.wf(),
        put_effect(s0, s1, key, val, set),
        get_effect(s1, s2, key, got),
    ensures
        set is Ok,
        got is Ok,
        got->Ok_0 is Some,
        got->Ok_0->Some_0@ == val,
{
}

/// Of two `set`s of one key the later one wins: a `get` gives its value.
pub proof fn lemma_latest_set_wins(
    s0: SimplifiedBitcask,
    s1: SimplifiedBitcask,
    s2: SimplifiedBitcask,
    s3: SimplifiedBitcask,
    key: Seq<char>,
    first: Seq<char>,
    second: Seq<char>,
    set1: Result<(), KvsError>,
    set2: Result<(), KvsError>,
    got: Result<Option<String>, KvsError>,
)
    requires
        s0.wf(),
        put_effect(s0, s1, key, first, set1),
        put_effect(s1, s2, key, second, set2),
        get_effect(s2, s3, key, got),
    ensures
        got is Ok,
        got->Ok_0 is Some,
        got->Ok_0->Some_0@ == second,
{
}

/// A `remove` after a `set` of the same key succeeds, and a `get` then
/// finds no value.
pub proof fn lemma_remove_erases(
    s0: SimplifiedBitcask,
    s1: SimplifiedBitcask,
    s2: SimplifiedBitcask,
    s3: SimplifiedBitcask,
    key: Seq<char>,
    val: Seq<char>,
    set: Result<(), KvsError>,
    removed: Result<(), KvsError>,
    got: Result<Option<String>, KvsError>,
)
    requires
        s0.wf(),
        put_effect(s0, s1, key, val, set),
        remove_effect(s1, s2, key, removed),
        get_effect(s2, s3, key, got),
    ensures
        removed is Ok,
        got is Ok,
        got->Ok_0 is None,
{
}

/// A `remove` of a key that no record of the log is on fails with
/// `KeyNotFound` and leaves the log as it is.
pub proof fn lemma_remove_untouched(
    s0: SimplifiedBitcask,
    s1: SimplifiedBitcask,
    key: Seq<char>,
    removed: Result<(), KvsError>,
)
    requires
        s0.wf(),
        untouched(s0.log(), key),
        remove_effect(s0, s1, key, removed),
    ensures
        removed == Err::<(), KvsError>(KvsError::KeyNotFound),
        s1.log() == s0.log(),
        untouched(s1.log(), key),
{
}

/// A store that was opened on no bytes has no record on any key.
pub proof fn lemma_fresh_untouched(r: Result<SimplifiedBitcask, KvsError>, key: Seq<char>)
    requires
        open_effect(Seq::empty(), r),
    ensures
        r is Ok,
        untouched(r->Ok_0.log(), key),
{
}

/// A `set` of one key leaves every other key untouched that was so before.
/// The key and the value are a string's: their byte lengths fit the length
/// fields of a record.
pub proof fn lemma_set_leaves_others_untouched(
    s0: SimplifiedBitcask,
    s1: SimplifiedBitcask,
    key: Seq<char>,
    val: Seq<char>,
    set: Result<(), KvsError>,
    other: Seq<char>,
)
    requires
        s0.wf(),
        entry_of(key, val, CmdKind::PUT).well_formed(),
        put_effect(s0, s1, key, val, set),
        other != key,
        untouched(s0.log(), other),
    ensures
        untouched(s1.log(), other),
{
    let rec = entry_of(key, val, CmdKind::PUT);
    let appended = s0.log() + rec.encode();
    let recs = records(s0.log());
    let added = LogRecord { off: s0.log().len() as int, entry: rec };
    lemma_records_from_append(s0.log(), 0, rec);
    lemma_latest_push(recs, added, other);
    assert(untouched(appended, other));
    lemma_compaction(appended);
    lemma_compacted_upto_latest(records(appended), records(appended).len() as int, other);
}

/// A store that is opened on the bytes of the data file, after a `sync`
/// whose update was carried out, shows what the store showed that was
/// synced, has the same index, and the same log.
pub proof fn lemma_reopen(
    s0: SimplifiedBitcask,
    s1: SimplifiedBitcask,
    u: FileUpdate,
    reopened: Result<SimplifiedBitcask, KvsError>,
)
    requires
        s0.wf(),
        sync_effect(s0, s1, u),
        open_effect(updated(s0.disk(), u), reopened),
    ensures
        reopened is Ok,
        reopened->Ok_0@ == s0@,
        reopened->Ok_0.index() == s0.index(),
        reopened->Ok_0.log() == s0.log(),
{
}

/// A compaction changes nothing that the store shows, and the log does not
/// grow by it.
pub proof fn lemma_merge_preserves(
    s0: SimplifiedBitcask,
    s1: SimplifiedBitcask,
    merged: Result<(), KvsError>,
    key: Seq<char>,
)
    requires
        s0.wf(),
        merge_effect(s0, s1, merged),
    ensures
        merged is Ok,
        s1@ == s0@,
        s1@.contains_key(key) == s0@.contains_key(key),
        s1@.contains_key(key) ==> s1@[key] == s0@[key],
        s1.log().len() <= s0.log().len(),
        s0.pending() > 0 && compacted(records(s0.log())).len() > 0 ==> s1.log().len()
            < s0.log().len(),
{
}

} // verus!
