//! The record of the log and its layout in bytes.

use crate::kv::bytes::{be_bytes, be_value, lemma_be_bytes_of_value, lemma_be_value_of_bytes};
use crate::kv::bytes::{push_be_u64, read_be_u64};
use crate::kv::error::KvsError;
use crate::kv::external::{deserialize_byte, serialize_byte};
use vstd::prelude::*;
use vstd::slice::slice_subrange;
use vstd::string::*;
use vstd::utf8::*;

verus! {

/// Width in bytes of each of the two length fields of a record header.
pub const LEN_WIDTH: usize = 8;

/// Length in bytes of a record header: two length fields and the kind byte.
pub const ENTRY_HEAD_LEN: usize = LEN_WIDTH * 2 + 1;

/// What a record does to its key.
#[derive(PartialEq, Eq, Debug, Clone, Copy, Structural)]
pub enum CmdKind {
    /// The key gets the record's value.
    PUT,
    /// The key is removed.
    DEL,
}

/// The byte that stands for a kind in a record header.
pub open spec fn kind_byte(kind: CmdKind) -> u8 {
    match kind {
        CmdKind::PUT => 1,
        CmdKind::DEL => 2,
    }
}

/// The kind that a header byte stands for, if any.
pub open spec fn kind_of_byte(b: u8) -> Option<CmdKind> {
    if b == 1 {
        Some(CmdKind::PUT)
    } else if b == 2 {
        Some(CmdKind::DEL)
    } else {
        None
    }
}

impl CmdKind {
    /// The byte that stands for this kind in a record header.
    pub fn to_byte(self) -> (b: u8)
        ensures
            b == kind_byte(self),
    {
        match self {
            CmdKind::PUT => 1,
            CmdKind::DEL => 2,
        }
    }

    /// The kind that `b` stands for; `ReprDecode` where it stands for none.
    pub fn from_byte(b: u8) -> (r: Result<CmdKind, KvsError>)
        ensures
            r == match kind_of_byte(b) {
                Some(kind) => Ok::<CmdKind, KvsError>(kind),
                None => Err(KvsError::ReprDecode),
            },
    {
        if b == 1 {
            Ok(CmdKind::PUT)
        } else if b == 2 {
            Ok(CmdKind::DEL)
        } else {
            Err(KvsError::ReprDecode)
        }
    }
}

/// What an [`Entry`] holds, as mathematical values.
pub struct EntryView {
    pub key_len: u64,
    pub value_len: u64,
    pub key: Seq<char>,
    pub value: Seq<char>,
    pub kind: CmdKind,
}

impl EntryView {
    /// The two length fields are the byte lengths of the key and of the value.
    pub open spec fn well_formed(self) -> bool {
        &&& self.key_len == encode_utf8(self.key).len()
        &&& self.value_len == encode_utf8(self.value).len()
    }

    /// Number of bytes that the record takes in the log.
    pub open spec fn size(self) -> int {
        ENTRY_HEAD_LEN + self.key_len + self.value_len
    }

    /// The header: key length, value length, kind.
    pub open spec fn header(self) -> Seq<u8> {
        be_bytes(self.key_len) + be_bytes(self.value_len) + seq![kind_byte(self.kind)]
    }

    /// The record as it stands in the log: header, key bytes, value bytes.
    pub open spec fn encode(self) -> Seq<u8> {
        self.header() + encode_utf8(self.key) + encode_utf8(self.value)
    }

    /// The entry that a header alone gives: its lengths and kind, no key and
    /// no value yet.
    pub open spec fn header_only(self) -> EntryView {
        EntryView { key: Seq::empty(), value: Seq::empty(), ..self }
    }
}

/// The record of the given kind on `key` with `value`, its length fields set
/// to their byte lengths.
pub open spec fn entry_of(key: Seq<char>, value: Seq<char>, kind: CmdKind) -> EntryView {
    EntryView {
        key_len: encode_utf8(key).len() as u64,
        value_len: encode_utf8(value).len() as u64,
        key,
        value,
        kind,
    }
}

/// What decoding a header gives: the lengths and the kind, or `ReprDecode`
/// where the kind byte names no command.
pub open spec fn decode_header(h: Seq<u8>) -> Result<EntryView, KvsError>
    recommends
        h.len() == ENTRY_HEAD_LEN,
{
    match kind_of_byte(h[16]) {
        Some(kind) => Ok(
            EntryView {
                key_len: be_value(h.subrange(0, 8)),
                value_len: be_value(h.subrange(8, 16)),
                key: Seq::empty(),
                value: Seq::empty(),
                kind,
            },
        ),
        None => Err(KvsError::ReprDecode),
    }
}

/// What reading one whole record at offset `off` of `log` gives.
///
/// At or past the end of the log there is no record: `EOF`. A header that the
/// log cuts short is `SliceDecode`, a kind byte that names no command is
/// `ReprDecode`, a key or a value that the log cuts short is `IO`, and one that
/// is not UTF-8 is `StringDecode`. The key is read and checked before the value.
pub open spec fn record_at(log: Seq<u8>, off: int) -> Result<EntryView, KvsError> {
    if off < 0 || off >= log.len() {
        Err(KvsError::EOF)
    } else if log.len() - off < ENTRY_HEAD_LEN {
        Err(KvsError::SliceDecode)
    } else {
        match decode_header(log.subrange(off, off + ENTRY_HEAD_LEN)) {
            Err(e) => Err(e),
            Ok(h) => {
                let key_at = off + ENTRY_HEAD_LEN;
                let value_at = key_at + h.key_len;
                let end = value_at + h.value_len;
                if value_at > log.len() {
                    Err(KvsError::IO)
                } else if !valid_utf8(log.subrange(key_at, value_at)) {
                    Err(KvsError::StringDecode)
                } else if end > log.len() {
                    Err(KvsError::IO)
                } else if !valid_utf8(log.subrange(value_at, end)) {
                    Err(KvsError::StringDecode)
                } else {
                    Ok(
                        EntryView {
                            key: decode_utf8(log.subrange(key_at, value_at)),
                            value: decode_utf8(log.subrange(value_at, end)),
                            ..h
                        },
                    )
                }
            },
        }
    }
}

/// A record that stands encoded at `off` is what reading at `off` gives.
pub proof fn lemma_record_at_encoded(log: Seq<u8>, off: int, e: EntryView)
    requires
        e.well_formed(),
        0 <= off,
        off + e.size() <= log.len(),
        log.subrange(off, off + e.size()) == e.encode(),
    ensures
        record_at(log, off) == Ok::<EntryView, KvsError>(e),
{
    broadcast use {encode_utf8_valid_utf8, encode_utf8_decode_utf8};

    let enc = e.encode();
    let head = log.subrange(off, off + ENTRY_HEAD_LEN);
    lemma_be_value_of_bytes(e.key_len);
    lemma_be_value_of_bytes(e.value_len);
    assert(head =~= enc.subrange(0, 17));
    assert(head =~= e.header());
    assert(head.subrange(0, 8) =~= be_bytes(e.key_len));
    assert(head.subrange(8, 16) =~= be_bytes(e.value_len));
    assert(head[16] == kind_byte(e.kind));
    let key_at = off + ENTRY_HEAD_LEN;
    let value_at = key_at + e.key_len;
    let end = value_at + e.value_len;
    assert(log.subrange(key_at, value_at) =~= enc.subrange(17, 17 + e.key_len));
    assert(log.subrange(key_at, value_at) =~= encode_utf8(e.key));
    assert(log.subrange(value_at, end) =~= enc.subrange(17 + e.key_len, e.size()));
    assert(log.subrange(value_at, end) =~= encode_utf8(e.value));
}

/// What reading at `off` gives is well formed, lies inside the log, and
/// stands there encoded.
pub proof fn lemma_record_at_ok(log: Seq<u8>, off: int)
    requires
        record_at(log, off) is Ok,
    ensures
        record_at(log, off)->Ok_0.well_formed(),
        0 <= off,
        off + record_at(log, off)->Ok_0.size() <= log.len(),
        log.subrange(off, off + record_at(log, off)->Ok_0.size()) == record_at(
            log,
            off,
        )->Ok_0.encode(),
{
    broadcast use decode_utf8_encode_utf8;

    let e = record_at(log, off)->Ok_0;
    let head = log.subrange(off, off + ENTRY_HEAD_LEN);
    let key_at = off + ENTRY_HEAD_LEN;
    let value_at = key_at + e.key_len;
    let end = value_at + e.value_len;
    lemma_be_bytes_of_value(head.subrange(0, 8));
    lemma_be_bytes_of_value(head.subrange(8, 16));
    assert(head =~= e.header());
    assert(log.subrange(off, off + e.size()) =~= head + log.subrange(key_at, value_at)
        + log.subrange(value_at, end));
}

/// A record and its encoding: reading the encoding back gives the record, and
/// the encoding is as long as the record's size.
pub proof fn lemma_encode_round_trip(e: EntryView)
    requires
        e.well_formed(),
    ensures
        e.encode().len() == e.size(),
        record_at(e.encode(), 0) == Ok::<EntryView, KvsError>(e),
        decode_header(e.encode().subrange(0, ENTRY_HEAD_LEN as int)) == Ok::<
            EntryView,
            KvsError,
        >(e.header_only()),
{
    let enc = e.encode();
    assert(enc.subrange(0, e.size()) =~= enc);
    lemma_record_at_encoded(enc, 0, e);
    lemma_be_value_of_bytes(e.key_len);
    lemma_be_value_of_bytes(e.value_len);
    let head = enc.subrange(0, 17);
    assert(head =~= e.header());
    assert(head.subrange(0, 8) =~= be_bytes(e.key_len));
    assert(head.subrange(8, 16) =~= be_bytes(e.value_len));
}

/// One record of the log: a command on a key, self-describing through its
/// two length fields.
#[derive(Debug)]
pub struct Entry {
    key_len: u64,
    value_len: u64,
    key: String,
    value: String,
    kind: CmdKind,
}

impl View for Entry {
    type V = EntryView;

    closed spec fn view(&self) -> EntryView {
        EntryView {
            key_len: self.key_len,
            value_len: self.value_len,
            key: self.key@,
            value: self.value@,
            kind: self.kind,
        }
    }
}

impl Entry {
    /// A record of the given kind for `key` and `value`, with the length
    /// fields set to their byte lengths.
    pub fn new(key: String, value: String, kind: CmdKind) -> (e: Entry)
        ensures
            e@ == entry_of(key@, value@, kind),
            e@.well_formed(),
    {
        let key_len: u64 = key.as_str().as_bytes().len() as u64;
        let value_len: u64 = value.as_str().as_bytes().len() as u64;
        Entry { key_len, value_len, key, value, kind }
    }

    /// Number of bytes that the record takes in the log.
    pub fn size(&self) -> (n: usize)
        requires
            self@.size() <= usize::MAX,
        ensures
            n == self@.size(),
    {
        ENTRY_HEAD_LEN + self.key_len as usize + self.value_len as usize
    }

    /// The bytes of the record: both lengths big-endian, the kind byte, the
    /// key, the value.
    pub fn encode(&self) -> (buf: Vec<u8>)
        requires
            self@.well_formed(),
        ensures
            buf@ == self@.encode(),
            buf@.len() == self@.size(),
    {
        let mut buf: Vec<u8> = Vec::new();
        push_be_u64(&mut buf, self.key_len);
        push_be_u64(&mut buf, self.value_len);
        let kind_bytes = serialize_byte(self.kind.to_byte()).unwrap();
        buf.extend_from_slice(kind_bytes.as_slice());
        buf.extend_from_slice(self.key.as_str().as_bytes());
        buf.extend_from_slice(self.value.as_str().as_bytes());
        assert(buf@ =~= self@.encode());
        buf
    }

    /// Decodes a header into an entry that has the lengths and the kind, and
    /// neither key nor value yet. Fails with `ReprDecode` exactly where the
    /// kind byte names no command.
    pub fn decode(b: &[u8; ENTRY_HEAD_LEN]) -> (r: Result<Entry, KvsError>)
        ensures
            match r {
                Ok(e) => decode_header(b@) == Ok::<EntryView, KvsError>(e@),
                Err(err) => decode_header(b@) == Err::<EntryView, KvsError>(err),
            },
    {
        let key_len = read_be_u64(b.as_slice(), 0);
        let value_len = read_be_u64(b.as_slice(), LEN_WIDTH);
        let kind_bytes = slice_subrange(b.as_slice(), LEN_WIDTH * 2, ENTRY_HEAD_LEN);
        let kind = match deserialize_byte(kind_bytes) {
            Ok(byte) => CmdKind::from_byte(byte)?,
            Err(_) => {
                return Err(KvsError::ReprDecode);
            },
        };
        Ok(Entry { key_len, value_len, kind, key: String::new(), value: String::new() })
    }

    /// The key.
    pub fn key(&self) -> (k: &String)
        ensures
            k@ == self@.key,
    {
        &self.key
    }

    /// The value.
    pub fn value(&self) -> (v: &String)
        ensures
            v@ == self@.value,
    {
        &self.value
    }

    /// The kind.
    pub fn kind(&self) -> (k: CmdKind)
        ensures
            k == self@.kind,
    {
        self.kind
    }

    /// The key's length in bytes, as the header gives it.
    pub fn key_len(&self) -> (n: u64)
        ensures
            n == self@.key_len,
    {
        self.key_len
    }

    /// The value's length in bytes, as the header gives it.
    pub fn value_len(&self) -> (n: u64)
        ensures
            n == self@.value_len,
    {
        self.value_len
    }

    /// Gives the entry its key, leaving the length fields as they are.
    pub fn set_key(&mut self, key: String)
        ensures
            final(self)@ == (EntryView { key: key@, ..old(self)@ }),
    {
        self.key = key;
    }

    /// Gives the entry its value, leaving the length fields as they are.
    pub fn set_value(&mut self, value: String)
        ensures
            final(self)@ == (EntryView { value: value@, ..old(self)@ }),
    {
        self.value = value;
    }

    /// Takes the key out of the entry.
    pub fn into_key(self) -> (k: String)
        ensures
            k@ == self@.key,
    {
        self.key
    }

    /// Takes the value out of the entry.
    pub fn into_value(self) -> (v: String)
        ensures
            v@ == self@.value,
    {
        self.value
    }
}

} // verus!
