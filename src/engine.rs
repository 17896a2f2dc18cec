//! The log engine: the offset index, recovery by scan, appends and reads.
use vstd::prelude::*;
use vstd::slice::slice_subrange;
use vstd::utf8::{valid_utf8, decode_utf8, encode_utf8};
use std::collections::HashMap;
use crate::bytes::{le_value, read_le, lemma_le_value_bound, lemma_pow256_8};
use crate::format::{
    Frame, HEADER_SIZE, FIXED_PREFIX, parse_frame, frame_size, frame_bytes, frame_of, header_spec,
    header_valid, header_bytes, header_is_valid, encode_frame, parse_frame_at, bytes_words,
};
use crate::outside::{
    Metadata, crc32_of, json_object_of, json_object_from, checksum, metadata_json,
    metadata_from_json, utf8_text,
};

verus! {

broadcast use vstd::std_specs::hash::group_hash_axioms;

/// The offset index and last id that a scan from `p` onward produces,
/// starting from `index` and `last`. A complete frame is indexed at its
/// offset and skipped whole; any other byte is skipped alone; the scan
/// stops when fewer than 21 bytes remain.
pub open spec fn scan_from(file: Seq<u8>, p: int, index: Map<u64, u64>, last: u64) -> (Map<u64, u64>, u64)
    decreases file.len() - p,
{
    if p < 0 || file.len() - p < 21 {
        (index, last)
    } else {
        match parse_frame(file.skip(p)) {
            Some(f) => scan_from(
                file,
                p + frame_size(f),
                index.insert(f.id, p as u64),
                if f.id > last {
                    f.id
                } else {
                    last
                },
            ),
            None => scan_from(file, p + 1, index, last),
        }
    }
}

/// The offset index and last id recovered from a file.
pub open spec fn recovered(file: Seq<u8>) -> (Map<u64, u64>, u64) {
    scan_from(file, HEADER_SIZE as int, Map::empty(), 0)
}

/// A record as the reader hands it out; the vector holds the bit patterns of
/// its 32-bit floats.
pub struct MnemoRecord {
    pub id: u64,
    pub content: String,
    pub vector: Vec<u32>,
    pub timestamp: u64,
    pub ttl: Option<u64>,
    pub metadata: Option<Metadata>,
}

pub struct RecordModel {
    pub id: u64,
    pub content: Seq<char>,
    pub vector: Seq<u32>,
    pub timestamp: u64,
    pub ttl: Option<u64>,
    pub metadata: Option<Seq<(Seq<char>, Seq<char>)>>,
}

impl View for MnemoRecord {
    type V = RecordModel;

    open spec fn view(&self) -> RecordModel {
        RecordModel {
            id: self.id,
            content: self.content@,
            vector: self.vector@,
            timestamp: self.timestamp,
            ttl: self.ttl,
            metadata: self.metadata.deep_view(),
        }
    }
}

/// The record a frame holds, if its content is UTF-8 and its metadata a
/// JSON object of strings.
pub open spec fn decode_frame(f: Frame) -> Option<RecordModel> {
    if !valid_utf8(f.content) {
        None
    } else {
        let metadata = match f.meta {
            Some(mb) => json_object_from(mb),
            None => None,
        };
        if f.meta is Some && metadata is None {
            None
        } else {
            Some(
                RecordModel {
                    id: f.id,
                    content: decode_utf8(f.content),
                    vector: bytes_words(f.vector),
                    timestamp: f.timestamp,
                    ttl: f.ttl,
                    metadata,
                },
            )
        }
    }
}

/// What a read of `id` finds in `map` through `index`.
pub open spec fn read_spec(index: Map<u64, u64>, map: Seq<u8>, id: u64) -> Option<RecordModel> {
    if !index.contains_key(id) || index[id] > map.len() {
        None
    } else {
        match parse_frame(map.skip(index[id] as int)) {
            Some(f) => if f.id == id {
                decode_frame(f)
            } else {
                None
            },
            None => None,
        }
    }
}

#[derive(PartialEq, Eq, Structural, Clone, Copy, Debug)]
pub enum EngineError {
    /// The id space is used up.
    IdExhausted,
    /// The content is longer than a 32-bit length can say.
    ContentTooLong,
    /// The vector is longer than a 32-bit length can say.
    VectorTooLong,
    /// The metadata could not be written as JSON.
    MetadataEncoding,
    /// The metadata's JSON is longer than a 32-bit length can say.
    MetadataTooLong,
    /// A commit names an id other than the next one.
    IdOutOfOrder,
    /// The file would outgrow a 64-bit length.
    FileTooLarge,
    /// A query vector's length differs from the embedding dimension.
    DimensionMismatch,
    /// A search asked for a negative number of results.
    NegativeLimit,
}

/// The number of results a search asks for, which must not be negative.
pub fn check_limit(limit: i32) -> (r: Result<usize, EngineError>)
    ensures
        limit < 0 ==> r == Err::<usize, EngineError>(EngineError::NegativeLimit),
        limit >= 0 ==> r == Ok::<usize, EngineError>(limit as usize),
{
    if limit < 0 {
        Err(EngineError::NegativeLimit)
    } else {
        Ok(limit as usize)
    }
}

/// Accepts a query vector of `len` elements for an index of dimension `dim`.
pub fn check_dimension(len: usize, dim: usize) -> (r: Result<(), EngineError>)
    ensures
        len == dim ==> r is Ok,
        len != dim ==> r == Err::<(), EngineError>(EngineError::DimensionMismatch),
{
    if len == dim {
        Ok(())
    } else {
        Err(EngineError::DimensionMismatch)
    }
}

/// The records that `ids` resolve to, in their order; ids that do not
/// resolve are left out.
pub open spec fn recalled(index: Map<u64, u64>, map: Seq<u8>, ids: Seq<u64>) -> Seq<RecordModel>
    decreases ids.len(),
{
    if ids.len() == 0 {
        Seq::empty()
    } else {
        let r = recalled(index, map, ids.drop_last());
        match read_spec(index, map, ids.last()) {
            Some(m) => r.push(m),
            None => r,
        }
    }
}

/// The metadata bytes a frame carries for `metadata`, if it can be written.
pub open spec fn meta_json(metadata: Option<Seq<(Seq<char>, Seq<char>)>>) -> Option<Option<Seq<u8>>> {
    match metadata {
        None => Some(None),
        Some(m) => match json_object_of(m) {
            None => None,
            Some(b) => Some(Some(b)),
        },
    }
}

/// The little-endian words in `map` between `a` and `b`.
fn read_words(map: &[u8], a: usize, b: usize) -> (r: Vec<u32>)
    requires
        a <= b <= map@.len(),
        (b - a) % 4 == 0,
    ensures
        r@ == bytes_words(map@.subrange(a as int, b as int)),
{
    let ghost s = map@.subrange(a as int, b as int);
    let n: usize = (b - a) / 4;
    let mut out: Vec<u32> = Vec::new();
    let mut i: usize = 0;
    while i < n
        invariant
            i <= n,
            n == (b - a) / 4,
            a <= b <= map@.len(),
            (b - a) % 4 == 0,
            s == map@.subrange(a as int, b as int),
            out@ == bytes_words(s).take(i as int),
        decreases n - i,
    {
        let p: usize = a + 4 * i;
        let w = read_le(map, p, 4);
        assert(s.subrange(4 * i, 4 * i + 4) =~= map@.subrange(p as int, p + 4));
        proof {
            lemma_le_value_bound(map@.subrange(p as int, p + 4));
            lemma_pow256_8();
        }
        out.push(w as u32);
        assert(out@ =~= bytes_words(s).take(i + 1));
        i = i + 1;
    }
    assert(bytes_words(s).take(n as int) =~= bytes_words(s));
    out
}

/// The log engine's state: the offset index, the last id, the file length it
/// has accounted for, and the length of the read mapping it holds, if any.
pub struct MnemoEngine {
    pub index: HashMap<u64, u64>,
    pub last_id: u64,
    pub file_len: u64,
    pub mapped_len: Option<u64>,
}

impl MnemoEngine {
    /// Scans the record stream of `file` for complete frames.
    pub fn scan_records(file: &[u8]) -> (r: (HashMap<u64, u64>, u64))
        ensures
            (r.0@, r.1) == recovered(file@),
    {
        let mut index: HashMap<u64, u64> = HashMap::new();
        let mut last: u64 = 0;
        if file.len() < 64 {
            return (index, last);
        }
        let mut pos: usize = 64;
        while file.len() - pos >= FIXED_PREFIX
            invariant
                64 <= pos <= file@.len(),
                recovered(file@) == scan_from(file@, pos as int, index@, last),
            decreases file@.len() - pos,
        {
            match parse_frame_at(file, pos) {
                Some(fr) => {
                    index.insert(fr.id, pos as u64);
                    if fr.id > last {
                        last = fr.id;
                    }
                    pos = fr.end;
                },
                None => {
                    pos = pos + 1;
                },
            }
        }
        (index, last)
    }

    /// Opens over the current contents of the file. Where they begin with a
    /// valid header, the index is recovered from them; otherwise the engine
    /// starts empty and hands back the header that must replace the file.
    pub fn new(file: &[u8]) -> (r: (MnemoEngine, Option<Vec<u8>>))
        ensures
            header_valid(file@) ==> {
                &&& r.1 is None
                &&& (r.0.index@, r.0.last_id) == recovered(file@)
                &&& r.0.file_len == file@.len()
                &&& r.0.mapped_len == if file@.len() > 64 {
                    Some(file@.len() as u64)
                } else {
                    None
                }
            },
            !header_valid(file@) ==> {
                &&& r.1 matches Some(h) && h@ == header_spec()
                &&& r.0.index@ == Map::<u64, u64>::empty()
                &&& r.0.last_id == 0
                &&& r.0.file_len == 64
                &&& r.0.mapped_len is None
            },
    {
        if header_is_valid(file) {
            let (index, last_id) = Self::scan_records(file);
            let len = file.len() as u64;
            let mapped_len = if len > 64 {
                Some(len)
            } else {
                None
            };
            (MnemoEngine { index, last_id, file_len: len, mapped_len }, None)
        } else {
            let engine = MnemoEngine {
                index: HashMap::new(),
                last_id: 0,
                file_len: HEADER_SIZE,
                mapped_len: None,
            };
            (engine, Some(header_bytes()))
        }
    }

    /// The number of records in the offset index.
    pub fn count(&self) -> (r: usize)
        ensures
            r == self.index@.len(),
    {
        self.index.len()
    }

    /// Whether a read must first map the file again: no mapping is held, or
    /// the one held is shorter than the file.
    pub fn needs_remap(&self) -> (r: bool)
        ensures
            r == match self.mapped_len {
                None => true,
                Some(m) => m < self.file_len,
            },
    {
        match self.mapped_len {
            None => true,
            Some(m) => m < self.file_len,
        }
    }

    /// Notes that a mapping of `len` bytes is now held.
    pub fn note_mapped(&mut self, len: u64)
        ensures
            final(self).mapped_len == Some(len),
            final(self).index@ == old(self).index@,
            final(self).last_id == old(self).last_id,
            final(self).file_len == old(self).file_len,
    {
        self.mapped_len = Some(len);
    }

    /// The frame that appends a record with the next id, for a caller to
    /// write at the end of the file before it commits it.
    pub fn append_with_vector(
        &self,
        content: &str,
        vector: &[u32],
        metadata: Option<&Metadata>,
        ttl: Option<u64>,
        timestamp: u64,
    ) -> (r: Result<(u64, Vec<u8>), EngineError>)
        ensures
            self.last_id == u64::MAX ==> r == Err::<(u64, Vec<u8>), EngineError>(
                EngineError::IdExhausted,
            ),
            self.last_id < u64::MAX ==> {
                let cb = encode_utf8(content@);
                let mj = meta_json(
                    match metadata {
                        Some(m) => Some(m.deep_view()),
                        None => None,
                    },
                );
                if cb.len() as u64 >= 0x1_0000_0000 {
                    r == Err::<(u64, Vec<u8>), EngineError>(EngineError::ContentTooLong)
                } else if vector@.len() >= 0x1_0000_0000 {
                    r == Err::<(u64, Vec<u8>), EngineError>(EngineError::VectorTooLong)
                } else if mj is None {
                    r == Err::<(u64, Vec<u8>), EngineError>(EngineError::MetadataEncoding)
                } else if mj matches Some(Some(b)) && b.len() >= 0x1_0000_0000 {
                    r == Err::<(u64, Vec<u8>), EngineError>(EngineError::MetadataTooLong)
                } else {
                    r matches Ok((id, b)) && id == self.last_id + 1 && b@ == frame_bytes(
                        frame_of(
                            id,
                            timestamp,
                            ttl,
                            mj.unwrap(),
                            cb,
                            vector@,
                            crc32_of(cb),
                        ),
                    )
                }
            },
    {
        if self.last_id == u64::MAX {
            return Err(EngineError::IdExhausted);
        }
        let id = self.last_id + 1;
        let cb = content.as_bytes();
        if cb.len() as u64 >= 0x1_0000_0000 {
            return Err(EngineError::ContentTooLong);
        }
        if vector.len() as u64 >= 0x1_0000_0000 {
            return Err(EngineError::VectorTooLong);
        }
        let meta_bytes: Option<Vec<u8>> = match metadata {
            None => None,
            Some(m) => match metadata_json(m) {
                None => {
                    return Err(EngineError::MetadataEncoding);
                },
                Some(b) => {
                    if b.len() as u64 >= 0x1_0000_0000 {
                        return Err(EngineError::MetadataTooLong);
                    }
                    Some(b)
                },
            },
        };
        let crc = checksum(cb);
        let frame = match &meta_bytes {
            Some(b) => encode_frame(id, timestamp, ttl, Some(b.as_slice()), cb, vector, crc),
            None => encode_frame(id, timestamp, ttl, None, cb, vector, crc),
        };
        Ok((id, frame))
    }

    /// Accounts for a frame of `frame_len` bytes, written at the end of the
    /// file, that holds the record `id`. The mapping is dropped.
    pub fn commit_append(&mut self, id: u64, frame_len: u64) -> (r: Result<(), EngineError>)
        ensures
            old(self).last_id == u64::MAX || id != old(self).last_id + 1 ==> r == Err::<(), EngineError>(EngineError::IdOutOfOrder) && *final(self) == *old(self),
            old(self).last_id < u64::MAX && id == old(self).last_id + 1 && old(self).file_len + frame_len > u64::MAX ==> r == Err::<(), EngineError>(EngineError::FileTooLarge) && *final(self) == *old(self),
            old(self).last_id < u64::MAX && id == old(self).last_id + 1 && old(self).file_len + frame_len <= u64::MAX ==> {
                &&& r is Ok
                &&& final(self).index@ == old(self).index@.insert(id, old(self).file_len)
                &&& final(self).last_id == id
                &&& final(self).file_len == old(self).file_len + frame_len
                &&& final(self).mapped_len is None
            },
    {
        if self.last_id == u64::MAX || id != self.last_id + 1 {
            return Err(EngineError::IdOutOfOrder);
        }
        if frame_len > u64::MAX - self.file_len {
            return Err(EngineError::FileTooLarge);
        }
        self.mapped_len = None;
        self.index.insert(id, self.file_len);
        self.last_id = id;
        self.file_len = self.file_len + frame_len;
        Ok(())
    }

    /// Reads the record `id` from `map`, a mapping of the file. Gives `None`
    /// where the index has no such id, or the bytes at its offset hold no
    /// complete frame of that id, or its content or metadata cannot be read.
    /// The checksum is not verified.
    pub fn read_record(&self, map: &[u8], id: u64) -> (r: Option<MnemoRecord>)
        ensures
            match r {
                Some(rec) => read_spec(self.index@, map@, id) == Some(rec@),
                None => read_spec(self.index@, map@, id) is None,
            },
    {
        let off: u64 = match self.index.get(&id) {
            Some(o) => *o,
            None => {
                return None;
            },
        };
        if off > map.len() as u64 {
            return None;
        }
        let pos = off as usize;
        let fr = match parse_frame_at(map, pos) {
            Some(fr) => fr,
            None => {
                return None;
            },
        };
        if fr.id != id {
            return None;
        }
        let ghost f = parse_frame(map@.skip(pos as int)).unwrap();
        let content = match utf8_text(slice_subrange(map, fr.content.0, fr.content.1)) {
            Some(c) => c,
            None => {
                return None;
            },
        };
        let metadata: Option<Metadata> = match fr.meta {
            Some((a, b)) => match metadata_from_json(slice_subrange(map, a, b)) {
                Some(m) => Some(m),
                None => {
                    return None;
                },
            },
            None => None,
        };
        let vector = read_words(map, fr.vector.0, fr.vector.1);
        Some(
            MnemoRecord {
                id,
                content,
                vector,
                timestamp: fr.timestamp,
                ttl: fr.ttl,
                metadata,
            },
        )
    }

    /// Reads the records that a search returned, keeping its order.
    pub fn recall_ids(&self, map: &[u8], ids: &[u64]) -> (r: Vec<MnemoRecord>)
        ensures
            r@.map_values(|x: MnemoRecord| x@) == recalled(self.index@, map@, ids@),
    {
        let mut out: Vec<MnemoRecord> = Vec::new();
        let mut i: usize = 0;
        while i < ids.len()
            invariant
                i <= ids@.len(),
                out@.map_values(|x: MnemoRecord| x@) == recalled(self.index@, map@, ids@.take(i as int)),
            decreases ids@.len() - i,
        {
            let ghost before = out@;
            assert(ids@.take(i + 1).drop_last() =~= ids@.take(i as int));
            match self.read_record(map, ids[i]) {
                Some(rec) => {
                    out.push(rec);
                    assert(out@.map_values(|x: MnemoRecord| x@) =~= before.map_values(|x: MnemoRecord| x@).push(rec@));
                },
                None => {},
            }
            i = i + 1;
        }
        assert(ids@.take(ids@.len() as int) =~= ids@);
        out
    }
}

} // verus!
