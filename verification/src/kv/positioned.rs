//! A reader and a writer on the bytes of the data file, each with the offset
//! at which it stands.

use crate::kv::error::KvsError;
use vstd::prelude::*;
use vstd::slice::{slice_subrange, slice_to_vec};

verus! {

/// The bytes that a read of up to `len` bytes gets at position `pos` of
/// `file`: those that are there, none at or past the end.
pub open spec fn read_span(file: Seq<u8>, pos: u64, len: int) -> Seq<u8> {
    if pos >= file.len() || len <= 0 {
        Seq::empty()
    } else if pos + len <= file.len() {
        file.subrange(pos as int, pos + len)
    } else {
        file.subrange(pos as int, file.len() as int)
    }
}

/// A reader over the bytes of the data file that knows the offset at which
/// its next read begins.
#[derive(Debug)]
pub struct BufReaderWithPos {
    pub pos: u64,
}

impl BufReaderWithPos {
    /// A reader at the start of the file.
    pub fn new() -> (r: Self)
        ensures
            r.pos == 0,
    {
        BufReaderWithPos { pos: 0 }
    }

    /// Moves to the absolute offset `pos`, which may lie past the end.
    pub fn seek(&mut self, pos: u64) -> (p: u64)
        ensures
            final(self).pos == pos,
            p == pos,
    {
        self.pos = pos;
        pos
    }

    /// Reads up to `len` bytes and moves on by as many as were read. A
    /// result shorter than `len` means that the file ends there.
    pub fn read(&mut self, file: &Vec<u8>, len: usize) -> (out: Vec<u8>)
        ensures
            out@ == read_span(file@, old(self).pos, len as int),
            final(self).pos == old(self).pos + out@.len(),
    {
        let file_len = file.len();
        if self.pos >= file_len as u64 || len == 0 {
            return Vec::new();
        }
        let start: usize = self.pos as usize;
        let left: usize = file_len - start;
        let n: usize = if len <= left {
            len
        } else {
            left
        };
        let out = slice_to_vec(slice_subrange(file.as_slice(), start, start + n));
        self.pos = self.pos + n as u64;
        out
    }

    /// Reads exactly `len` bytes, or fails with `IO` where the file ends
    /// before that; the reader has then moved to the end of the file.
    pub fn read_exact(&mut self, file: &Vec<u8>, len: u64) -> (r: Result<Vec<u8>, KvsError>)
        ensures
            final(self).pos == old(self).pos + read_span(file@, old(self).pos, len as int).len(),
            match r {
                Ok(out) => out@.len() == len && out@ == read_span(file@, old(self).pos, len as int),
                Err(e) => e == KvsError::IO && read_span(file@, old(self).pos, len as int).len()
                    < len,
            },
    {
        let want: usize = if len > file.len() as u64 {
            file.len()
        } else {
            len as usize
        };
        let out = self.read(file, want);
        if (out.len() as u64) < len {
            Err(KvsError::IO)
        } else {
            Ok(out)
        }
    }
}

/// A writer that appends to the bytes of the data file and knows the offset
/// at which its next write begins.
#[derive(Debug)]
pub struct BufWriterWithPos {
    pub pos: u64,
}

impl BufWriterWithPos {
    /// A writer at the start of the file.
    pub fn new() -> (w: Self)
        ensures
            w.pos == 0,
    {
        BufWriterWithPos { pos: 0 }
    }

    /// Sets the offset that the writer takes its next write to begin at.
    pub fn seek(&mut self, pos: u64) -> (p: u64)
        ensures
            final(self).pos == pos,
            p == pos,
    {
        self.pos = pos;
        pos
    }

    /// Appends `buf` to the file and moves on by its length.
    pub fn write(&mut self, file: &mut Vec<u8>, buf: &[u8]) -> (n: usize)
        requires
            old(self).pos <= old(file)@.len(),
        ensures
            final(file)@ == old(file)@ + buf@,
            final(self).pos == old(self).pos + buf@.len(),
            n == buf@.len(),
    {
        file.extend_from_slice(buf);
        let grown: usize = file.len();
        assert(self.pos + buf@.len() <= grown);
        self.pos = self.pos + buf.len() as u64;
        buf.len()
    }
}

} // verus!
