//! Properties of recovery that relate the writer, the scan and the reader.
use vstd::prelude::*;
use crate::format::{Frame, header_spec, magic, take_ttl, take_meta, take_blob, has_ttl, has_meta, frame_wf, frame_bytes, frame_size, parse_frame, header_valid, lemma_frame_round_trip};
use crate::engine::{scan_from, recovered, read_spec, RecordModel, MnemoEngine};
use crate::format::{frame_of, bytes_words, words_bytes, lemma_words_bytes_len};
use crate::bytes::{le_value, le_bytes, lemma_le_bytes_len, lemma_pow256_8, lemma_le_round_trip};
use crate::outside::json_object_from;
use vstd::utf8::encode_utf8;

verus! {

/// A file whose first four bytes are zero does not hold a valid header, so
/// opening it starts over with a fresh one.
pub proof fn lemma_zeroed_magic_not_valid(file: Seq<u8>)
    requires
        file.len() >= 4,
        file[0] == 0 && file[1] == 0 && file[2] == 0 && file[3] == 0,
    ensures
        !header_valid(file),
{
    assert(file.take(4)[0] == 0);
}

/// The bytes at `off` hold a complete frame of id `k` within the file.
pub open spec fn entry_sound(file: Seq<u8>, off: u64, k: u64) -> bool {
    match parse_frame(file.skip(off as int)) {
        Some(f) => f.id == k && off + frame_size(f) <= file.len(),
        None => false,
    }
}

/// Every entry that a scan adds points at a complete frame of that id that
/// lies within the file; so after a torn tail every indexed record is whole.
pub proof fn lemma_scan_sound(file: Seq<u8>, p: int, index: Map<u64, u64>, last: u64)
    requires
        file.len() <= u64::MAX,
        forall|k: u64| #[trigger] index.contains_key(k) ==> entry_sound(file, index[k], k),
    ensures
        forall|k: u64| #[trigger]
            scan_from(file, p, index, last).0.contains_key(k) ==> entry_sound(
                file,
                scan_from(file, p, index, last).0[k],
                k,
            ),
    decreases file.len() - p,
{
    if p < 0 || file.len() - p < 21 {
    } else {
        assert(file.skip(p) =~= file.skip((p as u64) as int));
        match parse_frame(file.skip(p)) {
            Some(f) => {
                lemma_frame_within(file.skip(p), f);
                let next = index.insert(f.id, p as u64);
                assert(forall|k: u64| #[trigger] next.contains_key(k) ==> entry_sound(file, next[k], k));
                let l2 = if f.id > last {
                    f.id
                } else {
                    last
                };
                lemma_scan_sound(file, p + frame_size(f), next, l2);
                assert(scan_from(file, p, index, last) == scan_from(file, p + frame_size(f), next, l2));
            },
            None => {
                lemma_scan_sound(file, p + 1, index, last);
                assert(scan_from(file, p, index, last) == scan_from(file, p + 1, index, last));
            },
        }
    }
}

/// A frame that parses lies within the bytes it was parsed from.
pub proof fn lemma_frame_within(s: Seq<u8>, f: Frame)
    requires
        parse_frame(s) == Some(f),
    ensures
        frame_size(f) <= s.len(),
{
    let t0 = s.skip(21);
    let flags = s[12];
    let (ttl, t1) = take_ttl(t0, has_ttl(flags)).unwrap();
    let (meta, t2) = take_meta(t1, has_meta(flags)).unwrap();
    let (content, t3) = take_blob(t2, 1).unwrap();
    let (vector, t4) = take_blob(t3, 4).unwrap();
    assert(t1.len() + (if ttl is Some { 8int } else { 0int }) == t0.len());
    assert(t2.len() + (match meta {
        Some(m) => 4 + m.len() as int,
        None => 0int,
    }) == t1.len());
    assert(t3.len() + 4 + content.len() == t2.len());
    assert(t4.len() + 4 + vector.len() == t3.len());
}

/// Recovering a file leaves only entries that point at whole frames.
pub proof fn lemma_recovered_sound(file: Seq<u8>)
    requires
        file.len() <= u64::MAX,
    ensures
        forall|k: u64| #[trigger]
            recovered(file).0.contains_key(k) ==> entry_sound(file, recovered(file).0[k], k),
{
    lemma_scan_sound(file, 64, Map::empty(), 0);
}

proof fn lemma_skip_prefix(a: Seq<u8>, b: Seq<u8>, c: Seq<u8>)
    ensures
        (a + b + c).skip(a.len() as int) == b + c,
{
    assert((a + b + c).skip(a.len() as int) =~= b + c);
}

/// In a file that holds a well-formed frame at `p`, the scan indexes that
/// frame at `p` and resumes right after it.
#[verifier::rlimit(80)]
pub proof fn lemma_scan_step(pre: Seq<u8>, f: Frame, rest: Seq<u8>, index: Map<u64, u64>, last: u64)
    requires
        frame_wf(f),
    ensures
        ({
            let file = pre + frame_bytes(f) + rest;
            let p = pre.len() as int;
            scan_from(file, p, index, last) == scan_from(
                file,
                p + frame_size(f),
                index.insert(f.id, p as u64),
                if f.id > last {
                    f.id
                } else {
                    last
                },
            )
        }),
{
    let file = pre + frame_bytes(f) + rest;
    let p = pre.len() as int;
    lemma_frame_round_trip(f, rest);
    lemma_skip_prefix(pre, frame_bytes(f), rest);
    assert(parse_frame(file.skip(p)) == Some(f));
    assert(file.len() - p >= 21);
}

/// The bytes of `fs`, one frame after another.
pub open spec fn frames_bytes(fs: Seq<Frame>) -> Seq<u8>
    decreases fs.len(),
{
    if fs.len() == 0 {
        Seq::empty()
    } else {
        frame_bytes(fs[0]) + frames_bytes(fs.drop_first())
    }
}

/// The index and last id after indexing `fs` in order, the first at `p` and
/// each next one right after the one before.
pub open spec fn index_frames(p: int, fs: Seq<Frame>, index: Map<u64, u64>, last: u64) -> (Map<u64, u64>, u64)
    decreases fs.len(),
{
    if fs.len() == 0 {
        (index, last)
    } else {
        index_frames(
            p + frame_size(fs[0]),
            fs.drop_first(),
            index.insert(fs[0].id, p as u64),
            if fs[0].id > last {
                fs[0].id
            } else {
                last
            },
        )
    }
}

/// A scan over well-formed frames that run to the end of the file indexes
/// each of them, in order, at its own offset.
pub proof fn lemma_scan_frames(pre: Seq<u8>, fs: Seq<Frame>, index: Map<u64, u64>, last: u64)
    requires
        forall|i: int| 0 <= i < fs.len() ==> #[trigger] frame_wf(fs[i]),
    ensures
        scan_from(pre + frames_bytes(fs), pre.len() as int, index, last) == index_frames(
            pre.len() as int,
            fs,
            index,
            last,
        ),
    decreases fs.len(),
{
    if fs.len() == 0 {
        assert(pre + frames_bytes(fs) =~= pre);
    } else {
        let f = fs[0];
        let tail = fs.drop_first();
        assert(frame_wf(fs[0]));
        assert forall|i: int| 0 <= i < tail.len() implies #[trigger] frame_wf(tail[i]) by {
            assert(tail[i] == fs[i + 1]);
        }
        lemma_scan_step(pre, f, frames_bytes(tail), index, last);
        lemma_frame_round_trip(f, Seq::empty());
        let pre2 = pre + frame_bytes(f);
        vstd::seq_lib::lemma_concat_associative(pre, frame_bytes(f), frames_bytes(tail));
        assert(pre + frames_bytes(fs) == pre2 + frames_bytes(tail));
        let l2 = if f.id > last {
            f.id
        } else {
            last
        };
        lemma_scan_frames(pre2, tail, index.insert(f.id, pre.len() as u64), l2);
    }
}

/// Reopening a file that holds a header and then well-formed frames recovers
/// exactly those frames: each id at the offset of its last frame, and the
/// largest id as the last one.
pub proof fn lemma_recovery(header: Seq<u8>, fs: Seq<Frame>)
    requires
        header.len() == 64,
        forall|i: int| 0 <= i < fs.len() ==> #[trigger] frame_wf(fs[i]),
    ensures
        recovered(header + frames_bytes(fs)) == index_frames(64, fs, Map::empty(), 0),
{
    lemma_scan_frames(header, fs, Map::empty(), 0);
}

/// Indexing frames whose ids run on from `last` by one each indexes exactly
/// the ids `last + 1` to `last + n` and ends with `last + n` as the last id.
pub proof fn lemma_contiguous_ids(p: int, fs: Seq<Frame>, index: Map<u64, u64>, last: u64)
    requires
        forall|i: int| 0 <= i < fs.len() ==> (#[trigger] fs[i]).id == last + 1 + i,
        forall|k: u64| #[trigger] index.contains_key(k) ==> k <= last,
    ensures
        index_frames(p, fs, index, last).1 == last + fs.len(),
        forall|k: u64|
            #[trigger] index_frames(p, fs, index, last).0.contains_key(k) <==> (index.contains_key(k)
                || last < k <= last + fs.len()),
    decreases fs.len(),
{
    if fs.len() > 0 {
        let f = fs[0];
        let tail = fs.drop_first();
        assert(f.id == last + 1);
        assert forall|i: int| 0 <= i < tail.len() implies (#[trigger] tail[i]).id == f.id + 1 + i by {
            assert(tail[i] == fs[i + 1]);
        }
        let next = index.insert(f.id, p as u64);
        lemma_contiguous_ids(p + frame_size(f), tail, next, f.id);
    }
}

/// Words written as bytes read back as the same words.
pub proof fn lemma_words_round_trip(v: Seq<u32>)
    ensures
        bytes_words(words_bytes(v)) == v,
    decreases v.len(),
{
    lemma_words_bytes_len(v);
    if v.len() > 0 {
        let init = v.drop_last();
        lemma_words_round_trip(init);
        lemma_words_bytes_len(init);
        let x = words_bytes(init);
        let l = le_bytes(v.last() as nat, 4);
        lemma_le_bytes_len(v.last() as nat, 4);
        lemma_pow256_8();
        lemma_le_round_trip(v.last() as nat, 4);
        let w = words_bytes(v);
        assert(w == x + l);
        assert forall|i: int| 0 <= i < v.len() implies #[trigger] bytes_words(w)[i] == v[i] by {
            if i < v.len() - 1 {
                assert(w.subrange(4 * i, 4 * i + 4) =~= x.subrange(4 * i, 4 * i + 4));
                assert(bytes_words(x)[i] == init[i]);
            } else {
                assert(w.subrange(4 * i, 4 * i + 4) =~= l);
            }
        }
        assert(bytes_words(w) =~= v);
    }
}

/// A record written with the next id and appended at the end of the file
/// reads back from the index entry that its commit adds: the content and
/// vector as written, the timestamp and time-to-live, and the metadata as
/// read from the JSON text written for it.
pub proof fn lemma_append_then_read(
    index: Map<u64, u64>,
    file: Seq<u8>,
    id: u64,
    timestamp: u64,
    ttl: Option<u64>,
    meta: Option<Seq<u8>>,
    content: Seq<char>,
    vector: Seq<u32>,
    crc: u32,
)
    requires
        file.len() <= u64::MAX,
        encode_utf8(content).len() < 0x1_0000_0000,
        vector.len() < 0x1_0000_0000,
        meta matches Some(m) ==> m.len() < 0x1_0000_0000,
    ensures
        ({
            let f = frame_of(id, timestamp, ttl, meta, encode_utf8(content), vector, crc);
            let metadata = match meta {
                Some(mb) => json_object_from(mb),
                None => None,
            };
            read_spec(index.insert(id, file.len() as u64), file + frame_bytes(f), id) == if meta
                is Some && metadata is None {
                None
            } else {
                Some(
                    RecordModel {
                        id,
                        content,
                        vector,
                        timestamp,
                        ttl,
                        metadata,
                    },
                )
            }
        }),
{
    let f = frame_of(id, timestamp, ttl, meta, encode_utf8(content), vector, crc);
    lemma_words_bytes_len(vector);
    assert(frame_wf(f));
    lemma_frame_round_trip(f, Seq::empty());
    let file2 = file + frame_bytes(f);
    assert(file2.skip(file.len() as int) =~= frame_bytes(f) + Seq::empty());
    vstd::utf8::encode_utf8_valid_utf8(content);
    vstd::utf8::encode_utf8_decode_utf8(content);
    lemma_words_round_trip(vector);
}

proof fn lemma_blob_extend(a: Seq<u8>, t: Seq<u8>, unit: nat)
    requires
        take_blob(a, unit) is Some,
    ensures
        take_blob(a + t, unit) == Some((take_blob(a, unit).unwrap().0, take_blob(a, unit).unwrap().1 + t)),
{
    let n: int = (le_value(a.take(4)) * unit) as int;
    assert((a + t).take(4) =~= a.take(4));
    assert((a + t).subrange(4, 4 + n) =~= a.subrange(4, 4 + n));
    assert((a + t).skip(4 + n) =~= a.skip(4 + n) + t);
}

/// A frame that parses from some bytes parses the same with more bytes after them.
pub proof fn lemma_parse_extend(a: Seq<u8>, t: Seq<u8>)
    requires
        parse_frame(a) is Some,
    ensures
        parse_frame(a + t) == parse_frame(a),
{
    let s = a + t;
    assert(s.take(4) =~= a.take(4));
    assert(s[12] == a[12]);
    assert(s.subrange(4, 12) =~= a.subrange(4, 12));
    assert(s.subrange(13, 21) =~= a.subrange(13, 21));
    assert(s.skip(21) =~= a.skip(21) + t);
    let flags = a[12];
    let t0 = a.skip(21);
    if has_ttl(flags) {
        assert((t0 + t).take(8) =~= t0.take(8));
        assert((t0 + t).skip(8) =~= t0.skip(8) + t);
    }
    let (ttl, t1) = take_ttl(t0, has_ttl(flags)).unwrap();
    assert(take_ttl(t0 + t, has_ttl(flags)) == Some((ttl, t1 + t)));
    if has_meta(flags) {
        lemma_blob_extend(t1, t, 1);
    }
    let (meta, t2) = take_meta(t1, has_meta(flags)).unwrap();
    assert(take_meta(t1 + t, has_meta(flags)) == Some((meta, t2 + t)));
    lemma_blob_extend(t2, t, 1);
    let (content, t3) = take_blob(t2, 1).unwrap();
    lemma_blob_extend(t3, t, 4);
    let (vector, t4) = take_blob(t3, 4).unwrap();
    assert((t4 + t).take(4) =~= t4.take(4));
}

/// Appending bytes at the end of the file and indexing a new id there leaves
/// the read of every other id that points at a whole frame unchanged.
pub proof fn lemma_append_keeps_reads(
    index: Map<u64, u64>,
    file: Seq<u8>,
    id: u64,
    added: Seq<u8>,
    k: u64,
)
    requires
        k != id,
        index.contains_key(k),
        entry_sound(file, index[k], k),
    ensures
        read_spec(index.insert(id, file.len() as u64), file + added, k) == read_spec(index, file, k),
{
    let off = index[k] as int;
    assert((file + added).skip(off) =~= file.skip(off) + added);
    lemma_parse_extend(file.skip(off), added);
}

/// The state of `engine` describes `file`: it accounts for all of it, the
/// header is valid, and every indexed id, none above the last id, points at
/// a whole frame of that id.
pub open spec fn consistent(engine: MnemoEngine, file: Seq<u8>) -> bool {
    &&& engine.file_len == file.len()
    &&& header_valid(file)
    &&& forall|k: u64| #[trigger]
        engine.index@.contains_key(k) ==> entry_sound(file, engine.index@[k], k) && k
            <= engine.last_id
}

proof fn lemma_scan_ids_bounded(file: Seq<u8>, p: int, index: Map<u64, u64>, last: u64)
    requires
        forall|k: u64| #[trigger] index.contains_key(k) ==> k <= last,
    ensures
        forall|k: u64| #[trigger]
            scan_from(file, p, index, last).0.contains_key(k) ==> k <= scan_from(file, p, index, last).1,
    decreases file.len() - p,
{
    if p < 0 || file.len() - p < 21 {
    } else {
        match parse_frame(file.skip(p)) {
            Some(f) => {
                let l2 = if f.id > last {
                    f.id
                } else {
                    last
                };
                lemma_scan_ids_bounded(file, p + frame_size(f), index.insert(f.id, p as u64), l2);
                assert(scan_from(file, p, index, last) == scan_from(
                    file,
                    p + frame_size(f),
                    index.insert(f.id, p as u64),
                    l2,
                ));
            },
            None => {
                lemma_scan_ids_bounded(file, p + 1, index, last);
                assert(scan_from(file, p, index, last) == scan_from(file, p + 1, index, last));
            },
        }
    }
}

/// Opening a file with a valid header yields an engine consistent with it.
pub proof fn lemma_open_consistent(engine: MnemoEngine, file: Seq<u8>)
    requires
        file.len() <= u64::MAX,
        header_valid(file),
        (engine.index@, engine.last_id) == recovered(file),
        engine.file_len == file.len(),
    ensures
        consistent(engine, file),
{
    lemma_recovered_sound(file);
    lemma_scan_ids_bounded(file, 64, Map::empty(), 0);
    assert forall|k: u64| #[trigger] engine.index@.contains_key(k) implies entry_sound(
        file,
        engine.index@[k],
        k,
    ) && k <= engine.last_id by {
        assert(recovered(file).0.contains_key(k));
    }
}

/// A fresh header with an engine that indexes nothing is consistent.
pub proof fn lemma_fresh_consistent(engine: MnemoEngine)
    requires
        engine.index@ == Map::<u64, u64>::empty(),
        engine.file_len == 64,
    ensures
        consistent(engine, header_spec()),
{
    lemma_le_bytes_len(3, 2);
    assert(header_spec().take(4) =~= magic());
}

/// Writing the frame of the next id at the end of the file and committing it
/// keeps the engine consistent with the longer file.
pub proof fn lemma_commit_consistent(before: MnemoEngine, after: MnemoEngine, file: Seq<u8>, f: Frame)
    requires
        consistent(before, file),
        frame_wf(f),
        before.last_id < u64::MAX,
        f.id == before.last_id + 1,
        after.index@ == before.index@.insert(f.id, before.file_len),
        after.last_id == f.id,
        after.file_len == before.file_len + frame_bytes(f).len(),
    ensures
        consistent(after, file + frame_bytes(f)),
{
    let file2 = file + frame_bytes(f);
    lemma_frame_round_trip(f, Seq::empty());
    assert(file2.skip(file.len() as int) =~= frame_bytes(f) + Seq::empty());
    assert(file2.take(4) =~= file.take(4));
    assert forall|k: u64| #[trigger] after.index@.contains_key(k) implies entry_sound(
        file2,
        after.index@[k],
        k,
    ) && k <= after.last_id by {
        if k != f.id {
            let off = before.index@[k] as int;
            assert(file2.skip(off) =~= file.skip(off) + frame_bytes(f));
            lemma_parse_extend(file.skip(off), frame_bytes(f));
        }
    }
}

} // verus!
