//! The engine: replay, reads, writes and compaction on the log.

use crate::kv::compaction::{lemma_compacted_upto_shape, lemma_compacted_visible, lemma_compaction};
use crate::kv::compaction::{lemma_live_by_offset, lemma_live_size_bound, lemma_live_size_push};
use crate::kv::compaction::{lemma_packed_records, lemma_packed_take, lemma_superseded_bound};
use crate::kv::compaction::superseded_size;
use crate::kv::entry::{entry_of, lemma_encode_round_trip, lemma_record_at_ok, record_at};
use crate::kv::entry::{CmdKind, Entry, EntryView, ENTRY_HEAD_LEN};
use crate::kv::error::KvsError;
use crate::kv::log::{apply_index, clean, compacted, compacted_log, compacted_upto, contents};
use crate::kv::log::{encode_all, holds, index_of, is_live, latest, live_size, packed};
use crate::kv::log::{lemma_index_push, lemma_records_from_append, lemma_records_from_layout};
use crate::kv::log::{lemma_latest_push, lemma_visible_push, records, records_from, stop_from};
use crate::kv::log::{lemma_latest_is_last, LogRecord};
use crate::kv::positioned::{BufReaderWithPos, BufWriterWithPos};
use vstd::hash_map::StringHashMap;
use vstd::prelude::*;
use vstd::slice::{slice_subrange, slice_to_vec};
use vstd::string::*;
use vstd::utf8::*;

verus! {

/// What the names of the data file and of the file that a compaction writes
/// begin with.
pub const STORAGE_FILE_PREFIX: &'static str = "miniDB";

/// Name of the data file in the store's directory.
pub fn data_file_name() -> (name: String)
    ensures
        name@ == "miniDB.data"@,
{
    let name = String::from_str(STORAGE_FILE_PREFIX).concat(".data");
    proof {
        reveal_strlit("miniDB");
        reveal_strlit(".data");
        reveal_strlit("miniDB.data");
        assert(name@ =~= "miniDB.data"@);
    }
    name
}

/// Name of the file that a compaction writes beside the data file, before
/// it takes the data file's place.
pub fn merge_file_name() -> (name: String)
    ensures
        name@ == "miniDB.merge"@,
{
    let name = String::from_str(STORAGE_FILE_PREFIX).concat(".merge");
    proof {
        reveal_strlit("miniDB");
        reveal_strlit(".merge");
        reveal_strlit("miniDB.merge");
        assert(name@ =~= "miniDB.merge"@);
    }
    name
}

/// Number of reclaimable bytes from which on a `put` compacts the log: 64 KiB.
pub const COMPACTION_THRESHOLD: u64 = 0x1_0000;

/// The header bytes as an array.
fn header_array(bytes: &Vec<u8>) -> (buf: [u8; ENTRY_HEAD_LEN])
    requires
        bytes@.len() == ENTRY_HEAD_LEN,
    ensures
        buf@ == bytes@,
{
    let mut buf: [u8; ENTRY_HEAD_LEN] = [0; ENTRY_HEAD_LEN];
    let mut i: usize = 0;
    while i < ENTRY_HEAD_LEN
        invariant
            i <= ENTRY_HEAD_LEN,
            bytes@.len() == ENTRY_HEAD_LEN,
            forall|j: int| 0 <= j < i ==> buf@[j] == bytes@[j],
        decreases ENTRY_HEAD_LEN - i,
    {
        buf[i] = bytes[i];
        i += 1;
    }
    assert(buf@ =~= bytes@);
    buf
}

/// The store's engine: the data file's bytes, a reader and a writer on
/// them, the index from each live key to the offset of its latest `PUT`, and
/// the count of bytes that a compaction would reclaim.
pub struct SimplifiedBitcask {
    file: Vec<u8>,
    reader: BufReaderWithPos,
    writer: BufWriterWithPos,
    index: StringHashMap<u64>,
    pending_compact: u64,
    synced: usize,
    rewritten: bool,
    disk: Ghost<Seq<u8>>,
}

/// What the owner of the data file has to do to it so that it holds the
/// engine's log.
#[derive(Debug)]
pub enum FileUpdate {
    /// Nothing: the file holds the log.
    Unchanged,
    /// Append these bytes to the file.
    Append(Vec<u8>),
    /// Write a new file of these bytes and put it in the place of the old one.
    Replace(Vec<u8>),
}

/// The file's bytes after an update, where `disk` were its bytes before.
pub open spec fn updated(disk: Seq<u8>, u: FileUpdate) -> Seq<u8> {
    match u {
        FileUpdate::Unchanged => disk,
        FileUpdate::Append(bytes) => disk + bytes@,
        FileUpdate::Replace(bytes) => bytes@,
    }
}

/// A store of keys and values. What is stated here holds of every store;
/// an engine may promise more.
pub trait Storage {
    /// The store's invariant.
    spec fn valid(&self) -> bool;

    /// The mapping that the store shows.
    spec fn shown(&self) -> Map<Seq<char>, Seq<char>>;

    /// The value of `key`, or `None` where it has none. The store shows the
    /// same mapping afterwards.
    fn get(&mut self, key: String) -> (r: Result<Option<String>, KvsError>)
        requires
            old(self).valid(),
        ensures
            final(self).valid(),
            final(self).shown() == old(self).shown(),
            r matches Ok(Some(v)) ==> old(self).shown().contains_key(key@),
            r matches Ok(Some(v)) ==> v@ == old(self).shown()[key@],
            r matches Ok(None) ==> !old(self).shown().contains_key(key@),
            r matches Err(e) ==> e != KvsError::KeyNotFound && e != KvsError::EOF,
    ;

    /// Gives `key` the value `val`. Where this succeeds, the store shows
    /// the mapping it showed before with `key` at `val`.
    fn put(&mut self, key: String, val: String) -> (r: Result<(), KvsError>)
        requires
            old(self).valid(),
        ensures
            r is Ok ==> final(self).valid(),
            r is Ok ==> final(self).shown() == old(self).shown().insert(key@, val@),
            r matches Err(e) ==> e != KvsError::KeyNotFound && e != KvsError::EOF,
    ;

    /// Takes `key` out of the store. Fails with `KeyNotFound` exactly where
    /// the key has no value, and the store is then as it was.
    fn remove(&mut self, key: String) -> (r: Result<(), KvsError>)
        requires
            old(self).valid(),
        ensures
            r matches Err(KvsError::KeyNotFound) <==> !old(self).shown().contains_key(key@),
            r is Ok ==> final(self).valid(),
            r is Ok ==> final(self).shown() == old(self).shown().remove(key@),
            r matches Err(KvsError::KeyNotFound) ==> final(self).valid(),
            r matches Err(KvsError::KeyNotFound) ==> final(self).shown() == old(self).shown(),
            r matches Err(e) ==> e != KvsError::EOF,
    ;
}

impl View for SimplifiedBitcask {
    type V = Map<Seq<char>, Seq<char>>;

    /// The mapping that the store shows: what its log leaves.
    open spec fn view(&self) -> Map<Seq<char>, Seq<char>> {
        contents(self.log())
    }
}

impl SimplifiedBitcask {
    /// The bytes of the data file.
    pub closed spec fn log(&self) -> Seq<u8> {
        self.file@
    }

    /// The index: the offset of the record that gives each live key its value.
    pub closed spec fn index(&self) -> Map<Seq<char>, u64> {
        self.index@
    }

    /// The count of bytes known to be reclaimable.
    pub closed spec fn pending(&self) -> u64 {
        self.pending_compact
    }

    /// The offset at which the writer appends next.
    pub closed spec fn writer_pos(&self) -> u64 {
        self.writer.pos
    }

    /// The bytes that the data file holds if its owner has carried out every
    /// update that `sync` has handed out.
    pub closed spec fn disk(&self) -> Seq<u8> {
        self.disk@
    }

    /// Number of bytes of the log that the data file holds already.
    pub closed spec fn synced(&self) -> int {
        self.synced as int
    }

    /// A compaction has rewritten the log since the last `sync`.
    pub closed spec fn rewritten(&self) -> bool {
        self.rewritten
    }

    /// The engine is as `before` was, but for where its reader stands.
    pub open spec fn same_as(&self, before: SimplifiedBitcask) -> bool {
        &&& self.log() == before.log()
        &&& self.index() == before.index()
        &&& self.pending() == before.pending()
        &&& self.writer_pos() == before.writer_pos()
        &&& self.disk() == before.disk()
        &&& self.synced() == before.synced()
        &&& self.rewritten() == before.rewritten()
    }

    /// The engine's invariant. The log consists of whole records; the index
    /// is the one that a replay of the log gives; the writer stands at the
    /// end of the log; a compaction would reclaim at least the pending
    /// count of bytes; and unless a compaction has rewritten the log, the
    /// data file holds its first `synced` bytes.
    pub open spec fn wf(&self) -> bool {
        &&& clean(self.log())
        &&& self.index() == index_of(records(self.log()))
        &&& self.writer_pos() == self.log().len()
        &&& self.pending() + live_size(records(self.log())) <= self.log().len()
        &&& !self.rewritten() ==> 0 <= self.synced() <= self.log().len() && self.disk()
            == self.log().take(self.synced())
    }

    /// The index points at the record that gives a key its value: read at
    /// the offset that the index has for a key, the log gives a `PUT` on that
    /// key, whose value is the one that the store shows.
    pub proof fn lemma_index_fidelity(self, key: Seq<char>)
        requires
            self.wf(),
            self.index().contains_key(key),
        ensures
            self@.contains_key(key),
            record_at(self.log(), self.index()[key] as int) is Ok,
            record_at(self.log(), self.index()[key] as int)->Ok_0.kind == CmdKind::PUT,
            record_at(self.log(), self.index()[key] as int)->Ok_0.key == key,
            record_at(self.log(), self.index()[key] as int)->Ok_0.value == self@[key],
            record_at(self.log(), self.index()[key] as int)->Ok_0.size() == superseded_size(
                records(self.log()),
                key,
            ),
    {
        let recs = records(self.log());
        lemma_records_from_layout(self.log(), 0);
        lemma_latest_is_last(recs, key);
        let i = latest(recs, key)->Some_0;
        assert(recs[i].off as u64 as int == recs[i].off);
    }

    /// The pending count is a lower bound on what a compaction reclaims: the
    /// compacted log is shorter than the log by that count at least.
    pub proof fn lemma_pending_is_reclaimable(self)
        requires
            self.wf(),
        ensures
            compacted_log(self.log()).len() + self.pending() <= self.log().len(),
    {
        lemma_compaction(self.log());
    }

    /// Opens the engine on the bytes of a data file: replays them into the
    /// index and puts the writer at their end. Fails, with the error of the
    /// first bad record, exactly where the bytes are not whole records.
    pub fn open(data: Vec<u8>) -> (r: Result<SimplifiedBitcask, KvsError>)
        ensures
            open_effect(data@, r),
    {
        let synced = data.len();
        let ghost disk = data@;
        let mut instance = SimplifiedBitcask {
            file: data,
            reader: BufReaderWithPos::new(),
            writer: BufWriterWithPos::new(),
            index: StringHashMap::new(),
            pending_compact: 0,
            synced,
            rewritten: false,
            disk: Ghost(disk),
        };
        instance.load_index()?;
        proof {
            lemma_live_size_bound(records(disk));
            lemma_records_from_layout(disk, 0);
            assert(disk.take(disk.len() as int) =~= disk);
        }
        Ok(instance)
    }

    /// The bytes of the log.
    pub fn data(&self) -> (bytes: &Vec<u8>)
        ensures
            bytes@ == self.log(),
    {
        &self.file
    }

    /// The count of bytes known to be reclaimable.
    pub fn pending_compact(&self) -> (n: u64)
        ensures
            n == self.pending(),
    {
        self.pending_compact
    }

    /// Looks `key` up in the index and reads its record.
    fn read(&mut self, key: &str) -> (r: Result<Entry, KvsError>)
        ensures
            final(self).same_as(*old(self)),
            match r {
                Ok(e) => old(self).index().contains_key(key@) && record_at(
                    old(self).log(),
                    old(self).index()[key@] as int,
                ) == Ok::<EntryView, KvsError>(e@),
                Err(err) => if old(self).index().contains_key(key@) {
                    record_at(old(self).log(), old(self).index()[key@] as int) == Err::<
                        EntryView,
                        KvsError,
                    >(err)
                } else {
                    err == KvsError::KeyNotFound
                },
            },
    {
        if let Some(offset) = self.index.get(key) {
            let pos = *offset;
            return self.read_at(pos);
        }
        Err(KvsError::KeyNotFound)
    }

    /// Replays the log from its start into the empty index, and puts the
    /// writer at the end of the log.
    fn load_index(&mut self) -> (r: Result<(), KvsError>)
        requires
            old(self).index() == Map::<Seq<char>, u64>::empty(),
        ensures
            final(self).log() == old(self).log(),
            final(self).pending() == old(self).pending(),
            final(self).synced() == old(self).synced(),
            final(self).rewritten() == old(self).rewritten(),
            final(self).disk() == old(self).disk(),
            match r {
                Ok(()) => {
                    &&& clean(old(self).log())
                    &&& final(self).index() == index_of(records(old(self).log()))
                    &&& final(self).writer_pos() == old(self).log().len()
                },
                Err(e) => !clean(old(self).log()) && e == stop_from(old(self).log(), 0),
            },
    {
        let ghost log = self.file@;
        let ghost mut done: Seq<LogRecord> = Seq::empty();
        let file_len: usize = self.file.len();
        let mut offset: u64 = 0;
        proof {
            assert(index_of(done) =~= Map::<Seq<char>, u64>::empty());
        }
        loop
            invariant
                log.len() == file_len,
                log == old(self).log(),
                self.log() == log,
                self.pending() == old(self).pending(),
                self.synced() == old(self).synced(),
                self.rewritten() == old(self).rewritten(),
                self.disk() == old(self).disk(),
                offset <= log.len(),
                records(log) == done + records_from(log, offset as int),
                stop_from(log, 0) == stop_from(log, offset as int),
                self.index@ == index_of(done),
            decreases log.len() - offset,
        {
            match self.read_at(offset) {
                Ok(e) => {
                    proof {
                        lemma_record_at_ok(log, offset as int);
                        lemma_index_push(done, LogRecord { off: offset as int, entry: e@ });
                        assert(done.push(LogRecord { off: offset as int, entry: e@ })
                            + records_from(log, offset + e@.size()) =~= done + records_from(
                            log,
                            offset as int,
                        ));
                        done = done.push(LogRecord { off: offset as int, entry: e@ });
                    }
                    let size = e.size() as u64;
                    match e.kind() {
                        CmdKind::DEL => {
                            self.index.remove(e.key().as_str());
                        },
                        CmdKind::PUT => {
                            self.index.insert(e.into_key(), offset);
                        },
                    }
                    offset += size;
                },
                Err(KvsError::EOF) => {
                    proof {
                        assert(done + records_from(log, offset as int) =~= done);
                    }
                    self.writer.pos = offset;
                    return Ok(());
                },
                Err(e) => {
                    return Err(e);
                },
            }
        }
    }

    /// Appends `entry` to the log and points the index at it for its key. A
    /// record that it supersedes is read for its size, which the pending
    /// count grows by.
    fn write(&mut self, entry: Entry) -> (r: Result<(), KvsError>)
        requires
            old(self).wf(),
            entry@.well_formed(),
        ensures
            r is Ok,
            final(self).log() == old(self).log() + entry@.encode(),
            final(self).index() == old(self).index().insert(
                entry@.key,
                old(self).log().len() as u64,
            ),
            final(self).pending() == old(self).pending() + superseded_size(
                records(old(self).log()),
                entry@.key,
            ),
            final(self).writer_pos() == final(self).log().len(),
            final(self).synced() == old(self).synced(),
            final(self).rewritten() == old(self).rewritten(),
            final(self).disk() == old(self).disk(),
    {
        let key = entry.key().clone();
        proof {
            lemma_superseded_bound(records(self.file@), key@);
            if self.index().contains_key(key@) {
                self.lemma_index_fidelity(key@);
            }
        }
        let file_len: usize = self.file.len();
        let old_pos: Option<u64> = match self.index.get(key.as_str()) {
            Some(pos) => Some(*pos),
            None => None,
        };
        self.index.insert(key, self.writer.pos);
        if let Some(old_pos) = old_pos {
            match self.read_at(old_pos) {
                Ok(old_entry) => {
                    self.pending_compact += old_entry.size() as u64;
                },
                Err(e) => {
                    return Err(e);
                },
            }
        }
        let buf = entry.encode();
        self.writer.write(&mut self.file, buf.as_slice());
        Ok(())
    }

    /// Compacts the log: writes a new log of the live records alone, in the
    /// order in which they stand, and points the index at them. Where no
    /// record is live the log is left as it is. The store shows the same
    /// mapping afterwards, and nothing is pending.
    pub fn merge(&mut self) -> (r: Result<(), KvsError>)
        requires
            old(self).wf(),
        ensures
            merge_effect(*old(self), *final(self), r),
    {
        let ghost log = self.file@;
        let ghost recs = records(log);
        let ghost mut n: int = 0;
        let file_len: usize = self.file.len();
        let mut offset: u64 = 0;
        let mut valid_entry: Vec<Entry> = Vec::new();
        proof {
            lemma_records_from_layout(log, 0);
            assert(recs.skip(0) =~= recs);
        }
        loop
            invariant
                log.len() == file_len,
                recs == records(log),
                self.log() == log,
                self.index() == index_of(recs),
                self.writer_pos() == old(self).writer_pos(),
                self.pending() == old(self).pending(),
                self.synced() == old(self).synced(),
                self.rewritten() == old(self).rewritten(),
                self.disk() == old(self).disk(),
                0 <= n <= recs.len(),
                offset <= log.len(),
                records_from(log, offset as int) == recs.skip(n),
                stop_from(log, offset as int) == KvsError::EOF,
                valid_entry@.len() == compacted_upto(recs, n).len(),
                forall|j: int|
                    0 <= j < valid_entry@.len() ==> (#[trigger] valid_entry@[j])@ == compacted_upto(
                        recs,
                        n,
                    )[j].entry,
            ensures
                n == recs.len(),
                self.log() == log,
                self.index() == index_of(recs),
                self.writer_pos() == old(self).writer_pos(),
                self.pending() == old(self).pending(),
                self.synced() == old(self).synced(),
                self.rewritten() == old(self).rewritten(),
                self.disk() == old(self).disk(),
                valid_entry@.len() == compacted_upto(recs, n).len(),
                forall|j: int|
                    0 <= j < valid_entry@.len() ==> (#[trigger] valid_entry@[j])@ == compacted_upto(
                        recs,
                        n,
                    )[j].entry,
            decreases log.len() - offset,
        {
            match self.read_at(offset) {
                Ok(e) => {
                    proof {
                        lemma_record_at_ok(log, offset as int);
                        let here = LogRecord { off: offset as int, entry: e@ };
                        let rest = records_from(log, offset + e@.size());
                        assert(records_from(log, offset as int) == seq![here] + rest);
                        assert((seq![here] + rest)[0] == here);
                        assert(recs.skip(n).len() > 0);
                        assert(recs.skip(n)[0] == here);
                        assert(recs[n] == here);
                        assert(rest =~= recs.skip(n).skip(1));
                        assert(rest =~= recs.skip(n + 1));
                        lemma_live_by_offset(log, n);
                    }
                    let size = e.size() as u64;
                    let live = match self.index.get(e.key().as_str()) {
                        Some(valid_pos) => e.kind() == CmdKind::PUT && *valid_pos == offset,
                        None => false,
                    };
                    if live {
                        valid_entry.push(e);
                    }
                    offset += size;
                    proof {
                        n = n + 1;
                    }
                },
                Err(KvsError::EOF) => {
                    proof {
                        assert(recs.skip(n).len() == 0);
                    }
                    break ;
                },
                Err(e) => {
                    return Err(e);
                },
            }
        }

        let ghost c = compacted(recs);
        let ghost old_index = self.index@;
        proof {
            lemma_compacted_upto_shape(recs, recs.len() as int);
            lemma_compaction(log);
            lemma_compacted_visible(recs);
        }
        if !valid_entry.is_empty() {
            let mut merged: Vec<u8> = Vec::new();
            let mut write_buf = BufWriterWithPos::new();
            let mut j: usize = 0;
            proof {
                assert(c.take(0) =~= Seq::<LogRecord>::empty());
                assert(index_of(c.take(0)) =~= Map::<Seq<char>, u64>::empty());
                assert(old_index.union_prefer_right(index_of(c.take(0))) =~= old_index);
            }
            while j < valid_entry.len()
                invariant
                    j <= valid_entry@.len() == c.len(),
                    packed(c),
                    forall|i: int|
                        0 <= i < valid_entry@.len() ==> (#[trigger] valid_entry@[i])@ == c[i].entry,
                    forall|i: int| 0 <= i < c.len() ==> (#[trigger] c[i]).entry.kind == CmdKind::PUT,
                    merged@ == encode_all(c.take(j as int)),
                    write_buf.pos == merged@.len(),
                    self.index() == old_index.union_prefer_right(index_of(c.take(j as int))),
                    self.pending() == old(self).pending(),
                    self.synced() == old(self).synced(),
                    self.rewritten() == old(self).rewritten(),
                    self.disk() == old(self).disk(),
                decreases valid_entry@.len() - j,
            {
                let e = &valid_entry[j];
                proof {
                    lemma_packed_take(c, j as int);
                    lemma_packed_records(c.take(j as int));
                    lemma_index_push(c.take(j as int), c[j as int]);
                    assert(c.take(j + 1).drop_last() =~= c.take(j as int));
                    assert(old_index.union_prefer_right(index_of(c.take(j as int))).insert(
                        e@.key,
                        write_buf.pos,
                    ) =~= old_index.union_prefer_right(index_of(c.take(j + 1))));
                }
                let key = e.key().clone();
                self.index.insert(key, write_buf.pos);
                let bytes = e.encode();
                write_buf.write(&mut merged, bytes.as_slice());
                j += 1;
            }
            proof {
                assert(c.take(j as int) =~= c);
                assert(self.index@ =~= index_of(c));
                lemma_live_size_bound(c);
                lemma_records_from_layout(merged@, 0);
            }
            self.writer = write_buf;
            self.reader = BufReaderWithPos::new();
            self.file = merged;
            self.rewritten = true;
        }
        self.pending_compact = 0;
        Ok(())
    }

    /// Hands out what the owner of the data file has to do to it so that it
    /// holds the log: nothing, an append of the bytes written since the last
    /// call, or, after a compaction, a new file.
    pub fn sync(&mut self) -> (u: FileUpdate)
        requires
            old(self).wf(),
        ensures
            sync_effect(*old(self), *final(self), u),
    {
        let len = self.file.len();
        let ghost log = self.file@;
        let u = if self.rewritten {
            FileUpdate::Replace(slice_to_vec(self.file.as_slice()))
        } else if self.synced < len {
            let tail = slice_to_vec(slice_subrange(self.file.as_slice(), self.synced, len));
            proof {
                assert(log.take(self.synced as int) + tail@ =~= log);
                assert(tail@ =~= log.skip(self.synced as int));
            }
            FileUpdate::Append(tail)
        } else {
            proof {
                assert(log.take(self.synced as int) =~= log);
            }
            FileUpdate::Unchanged
        };
        self.synced = len;
        self.rewritten = false;
        self.disk = Ghost(log);
        proof {
            assert(log.take(len as int) =~= log);
        }
        u
    }

    /// Reads the record at `offset`: its header, then its key and its value,
    /// each checked to be UTF-8. At or past the end of the log the result is
    /// `EOF`.
    pub fn read_at(&mut self, offset: u64) -> (r: Result<Entry, KvsError>)
        ensures
            final(self).same_as(*old(self)),
            match r {
                Ok(e) => record_at(old(self).log(), offset as int) == Ok::<EntryView, KvsError>(
                    e@,
                ),
                Err(err) => record_at(old(self).log(), offset as int) == Err::<
                    EntryView,
                    KvsError,
                >(err),
            },
    {
        broadcast use {decode_utf8_encode_utf8, encode_utf8_decode_utf8};

        let ghost log = self.file@;
        let ghost key_at = offset + ENTRY_HEAD_LEN;
        self.reader.seek(offset);
        let head = self.reader.read(&self.file, ENTRY_HEAD_LEN);
        if head.len() == 0 {
            return Err(KvsError::EOF);
        }
        if head.len() < ENTRY_HEAD_LEN {
            return Err(KvsError::SliceDecode);
        }
        let buf = header_array(&head);
        assert(buf@ =~= log.subrange(offset as int, offset + ENTRY_HEAD_LEN));
        let mut e = Entry::decode(&buf)?;
        let ghost h = e@;
        let ghost value_at = key_at + h.key_len;
        let ghost end = value_at + h.value_len;
        let key_buf = self.reader.read_exact(&self.file, e.key_len())?;
        let ghost key_bytes = key_buf@;
        assert(key_bytes =~= log.subrange(key_at, value_at));
        match String::from_utf8(key_buf) {
            Ok(key) => {
                assert(decode_utf8(encode_utf8(key@)) == key@);
                e.set_key(key);
            },
            Err(_) => {
                return Err(KvsError::StringDecode);
            },
        }
        let val_buf = self.reader.read_exact(&self.file, e.value_len())?;
        let ghost val_bytes = val_buf@;
        assert(val_bytes =~= log.subrange(value_at, end));
        match String::from_utf8(val_buf) {
            Ok(value) => {
                assert(decode_utf8(encode_utf8(value@)) == value@);
                e.set_value(value);
            },
            Err(_) => {
                return Err(KvsError::StringDecode);
            },
        }
        assert(e@ == (EntryView {
            key: decode_utf8(log.subrange(key_at, value_at)),
            value: decode_utf8(log.subrange(value_at, end)),
            ..h
        }));
        Ok(e)
    }
}

/// What `open` gives on the bytes `data`: an engine whose log they are,
/// with nothing pending and the data file in step, exactly where they are
/// whole records, and the error of the first bad record otherwise.
pub open spec fn open_effect(data: Seq<u8>, r: Result<SimplifiedBitcask, KvsError>) -> bool {
    match r {
        Ok(s) => {
            &&& clean(data)
            &&& s.wf()
            &&& s.log() == data
            &&& s.pending() == 0
            &&& s.disk() == data
            &&& s.synced() == data.len()
            &&& !s.rewritten()
        },
        Err(e) => !clean(data) && e == stop_from(data, 0),
    }
}

/// What `get` does: the engine stays as it was, and the result is the
/// value that the store shows for `key`, or `None` where it shows none.
pub open spec fn get_effect(
    before: SimplifiedBitcask,
    after: SimplifiedBitcask,
    key: Seq<char>,
    r: Result<Option<String>, KvsError>,
) -> bool {
    &&& after.wf()
    &&& after.same_as(before)
    &&& match r {
        Ok(Some(v)) => before@.contains_key(key) && v@ == before@[key],
        Ok(None) => !before@.contains_key(key),
        Err(_) => false,
    }
}

/// What `put` does: it succeeds, and the store shows `val` for `key` and
/// the rest as before. The log has the new `PUT` record at its end, and the
/// pending count has grown by the size of the record that this one
/// supersedes; where the count has thereby reached the threshold, the log
/// is the compacted one instead and nothing is pending.
pub open spec fn put_effect(
    before: SimplifiedBitcask,
    after: SimplifiedBitcask,
    key: Seq<char>,
    val: Seq<char>,
    r: Result<(), KvsError>,
) -> bool {
    let appended = before.log() + entry_of(key, val, CmdKind::PUT).encode();
    let pending = before.pending() + superseded_size(records(before.log()), key);
    &&& r is Ok
    &&& after.wf()
    &&& after@ == before@.insert(key, val)
    &&& after.disk() == before.disk()
    &&& after.synced() == before.synced()
    &&& pending >= COMPACTION_THRESHOLD ==> {
        &&& after.log() == compacted_log(appended)
        &&& after.pending() == 0
        &&& after.rewritten()
    }
    &&& pending < COMPACTION_THRESHOLD ==> {
        &&& after.log() == appended
        &&& after.pending() == pending
        &&& after.rewritten() == before.rewritten()
    }
}

/// What `remove` does. Where the store shows a value for `key`, it succeeds:
/// the store shows none for it any more, the log has a `DEL` record at its
/// end, and the pending count has grown by the size of the record that gave
/// the key its value. Otherwise it fails with `KeyNotFound` and the engine
/// stays as it was.
pub open spec fn remove_effect(
    before: SimplifiedBitcask,
    after: SimplifiedBitcask,
    key: Seq<char>,
    r: Result<(), KvsError>,
) -> bool {
    &&& after.wf()
    &&& before@.contains_key(key) ==> {
        &&& r is Ok
        &&& after@ == before@.remove(key)
        &&& after.log() == before.log() + entry_of(key, Seq::empty(), CmdKind::DEL).encode()
        &&& after.pending() == before.pending() + superseded_size(records(before.log()), key)
        &&& after.disk() == before.disk()
        &&& after.synced() == before.synced()
        &&& after.rewritten() == before.rewritten()
    }
    &&& !before@.contains_key(key) ==> {
        &&& r == Err::<(), KvsError>(KvsError::KeyNotFound)
        &&& after.same_as(before)
    }
}

/// What `merge` does: it succeeds, the store shows what it showed, and
/// nothing is pending. Where some record is live, the log is the compacted
/// one, shorter than the old one by the pending count at least; where none
/// is, the log is left as it is.
pub open spec fn merge_effect(
    before: SimplifiedBitcask,
    after: SimplifiedBitcask,
    r: Result<(), KvsError>,
) -> bool {
    let live = compacted(records(before.log()));
    &&& r is Ok
    &&& after.wf()
    &&& after@ == before@
    &&& after.pending() == 0
    &&& after.disk() == before.disk()
    &&& after.synced() == before.synced()
    &&& after.log().len() <= before.log().len()
    &&& live.len() > 0 ==> {
        &&& after.log() == compacted_log(before.log())
        &&& after.log().len() + before.pending() <= before.log().len()
        &&& after.rewritten()
    }
    &&& live.len() == 0 ==> {
        &&& after.log() == before.log()
        &&& after.index() == before.index()
        &&& after.rewritten() == before.rewritten()
    }
}

/// What `sync` does: it hands out the update that brings the data file to
/// the log, a new file after a compaction and otherwise the bytes that the
/// file lacks, and takes the file to hold the log from then on.
pub open spec fn sync_effect(
    before: SimplifiedBitcask,
    after: SimplifiedBitcask,
    u: FileUpdate,
) -> bool {
    &&& after.wf()
    &&& after.log() == before.log()
    &&& after.index() == before.index()
    &&& after.pending() == before.pending()
    &&& after.disk() == before.log()
    &&& after.synced() == before.log().len()
    &&& !after.rewritten()
    &&& updated(before.disk(), u) == before.log()
    &&& match u {
        FileUpdate::Unchanged => !before.rewritten() && before.synced() == before.log().len(),
        FileUpdate::Append(bytes) => {
            &&& !before.rewritten()
            &&& before.synced() < before.log().len()
            &&& bytes@ == before.log().skip(before.synced())
        },
        FileUpdate::Replace(bytes) => before.rewritten() && bytes@ == before.log(),
    }
}

impl Storage for SimplifiedBitcask {
    open spec fn valid(&self) -> bool {
        self.wf()
    }

    open spec fn shown(&self) -> Map<Seq<char>, Seq<char>> {
        self@
    }

    /// The value of `key`, read from the log at the offset that the index
    /// has for it; `None` where the index has none. Never fails.
    fn get(&mut self, key: String) -> (r: Result<Option<String>, KvsError>)
        ensures
            get_effect(*old(self), *final(self), key@, r),
    {
        proof {
            if self.index().contains_key(key@) {
                self.lemma_index_fidelity(key@);
            }
        }
        match self.read(key.as_str()) {
            Ok(e) => Ok(Some(e.into_value())),
            Err(KvsError::KeyNotFound) => Ok(None),
            Err(e) => Err(e),
        }
    }

    /// Appends a `PUT` record and points the index at it; then, where the
    /// pending count has reached the threshold, compacts the log. Never fails.
    fn put(&mut self, key: String, val: String) -> (r: Result<(), KvsError>)
        ensures
            put_effect(*old(self), *final(self), key@, val@, r),
    {
        let ghost log = self.file@;
        let ghost recs = records(log);
        let e = Entry::new(key, val, CmdKind::PUT);
        let ghost rec = e@;
        let ghost added = LogRecord { off: log.len() as int, entry: rec };
        self.write(e)?;
        proof {
            lemma_records_from_append(log, 0, rec);
            lemma_index_push(recs, added);
            lemma_visible_push(recs, added);
            lemma_live_size_push(recs, added);
            lemma_encode_round_trip(rec);
            if !self.rewritten {
                assert(self.file@.take(self.synced as int) =~= log.take(self.synced as int));
            }
            let more = recs.push(added);
            lemma_latest_push(recs, added, key@);
            assert(is_live(more, recs.len() as int));
            lemma_compacted_upto_shape(more, recs.len() as int);
        }
        if self.pending_compact >= COMPACTION_THRESHOLD {
            self.merge()?;
        }
        Ok(())
    }

    /// Where the index has `key`: appends a `DEL` record and takes the key
    /// out of the index. Fails with `KeyNotFound`, and writes nothing, where
    /// the index has no such key.
    fn remove(&mut self, key: String) -> (r: Result<(), KvsError>)
        ensures
            remove_effect(*old(self), *final(self), key@, r),
    {
        if self.index.contains_key(key.as_str()) {
            let ghost log = self.file@;
            let ghost recs = records(log);
            let e = Entry::new(key.clone(), String::new(), CmdKind::DEL);
            let ghost rec = e@;
            let ghost added = LogRecord { off: log.len() as int, entry: rec };
            self.write(e)?;
            self.index.remove(key.as_str());
            proof {
                lemma_records_from_append(log, 0, rec);
                lemma_index_push(recs, added);
                lemma_visible_push(recs, added);
                lemma_live_size_push(recs, added);
                lemma_encode_round_trip(rec);
                if !self.rewritten {
                    assert(self.file@.take(self.synced as int) =~= log.take(self.synced as int));
                }
                assert(self.index@ =~= apply_index(index_of(recs), added));
            }
            return Ok(());
        }
        Err(KvsError::KeyNotFound)
    }
}

} // verus!
