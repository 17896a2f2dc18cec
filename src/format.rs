//! The on-disk layout: the file header and the record frames that follow it.
use vstd::prelude::*;
use crate::bytes::{le_bytes, le_value, push_le, read_le, lemma_le_bytes_len, lemma_le_round_trip, lemma_le_value_bound, lemma_pow256_8};

verus! {

/// Size of the file header; the record stream starts right after it.
pub const HEADER_SIZE: u64 = 64;

/// Format version written into new files.
pub const CURRENT_VERSION: u16 = 3;

/// Flags bit: the frame carries a time-to-live.
pub const FLAG_HAS_TTL: u8 = 1;

/// Flags bit: the frame carries a metadata object.
pub const FLAG_HAS_METADATA: u8 = 2;

/// Bytes before the first optional field: sync, id, flags, timestamp.
pub const FIXED_PREFIX: usize = 21;

/// The file magic, `"MNMO"`.
pub open spec fn magic() -> Seq<u8> {
    seq![0x4Du8, 0x4Eu8, 0x4Du8, 0x4Fu8]
}

/// The marker that opens every frame.
pub open spec fn sync_marker() -> Seq<u8> {
    seq![0xFAu8, 0xFAu8, 0xFAu8, 0xFAu8]
}

/// The header of a new file: magic, version, then zeros up to 64 bytes.
pub open spec fn header_spec() -> Seq<u8> {
    magic() + le_bytes(CURRENT_VERSION as nat, 2) + Seq::new(58, |i: int| 0u8)
}

/// Whether `file` begins with a header this engine recovers from.
pub open spec fn header_valid(file: Seq<u8>) -> bool {
    file.len() >= HEADER_SIZE && file.take(4) == magic()
}

pub open spec fn has_ttl(flags: u8) -> bool {
    flags % 2 == 1
}

pub open spec fn has_meta(flags: u8) -> bool {
    (flags / 2) % 2 == 1
}

/// The flags byte for a frame with the given optional fields.
pub open spec fn flags_for(ttl: bool, meta: bool) -> u8 {
    ((if ttl { 1u8 } else { 0u8 }) + (if meta { 2u8 } else { 0u8 })) as u8
}

/// The contents of one frame, with the vector as its raw little-endian bytes.
pub struct Frame {
    pub id: u64,
    pub flags: u8,
    pub timestamp: u64,
    pub ttl: Option<u64>,
    pub meta: Option<Seq<u8>>,
    pub content: Seq<u8>,
    pub vector: Seq<u8>,
    pub crc: u32,
}

/// A length-prefixed field at the start of `t`: a u32 count of `unit`-byte
/// elements, then the elements. Gives the field and what follows it.
pub open spec fn take_blob(t: Seq<u8>, unit: nat) -> Option<(Seq<u8>, Seq<u8>)> {
    if t.len() < 4 {
        None
    } else {
        let n: int = (le_value(t.take(4)) * unit) as int;
        if t.len() - 4 < n {
            None
        } else {
            Some((t.subrange(4, 4 + n), t.skip(4 + n)))
        }
    }
}

/// The optional time-to-live at the start of `t`, and what follows it.
pub open spec fn take_ttl(t: Seq<u8>, present: bool) -> Option<(Option<u64>, Seq<u8>)> {
    if !present {
        Some((None, t))
    } else if t.len() < 8 {
        None
    } else {
        Some((Some(le_value(t.take(8)) as u64), t.skip(8)))
    }
}

/// The optional metadata at the start of `t`, and what follows it.
pub open spec fn take_meta(t: Seq<u8>, present: bool) -> Option<(Option<Seq<u8>>, Seq<u8>)> {
    if !present {
        Some((None, t))
    } else {
        match take_blob(t, 1) {
            None => None,
            Some((m, rest)) => Some((Some(m), rest)),
        }
    }
}

/// The frame that `s` begins with, if a complete one does.
pub open spec fn parse_frame(s: Seq<u8>) -> Option<Frame> {
    if s.len() < 21 || s.take(4) != sync_marker() {
        None
    } else {
        let flags = s[12];
        match take_ttl(s.skip(21), has_ttl(flags)) {
            None => None,
            Some((ttl, t1)) => match take_meta(t1, has_meta(flags)) {
                None => None,
                Some((meta, t2)) => match take_blob(t2, 1) {
                    None => None,
                    Some((content, t3)) => match take_blob(t3, 4) {
                        None => None,
                        Some((vector, t4)) => if t4.len() < 4 {
                            None
                        } else {
                            Some(
                                Frame {
                                    id: le_value(s.subrange(4, 12)) as u64,
                                    flags,
                                    timestamp: le_value(s.subrange(13, 21)) as u64,
                                    ttl,
                                    meta,
                                    content,
                                    vector,
                                    crc: le_value(t4.take(4)) as u32,
                                },
                            )
                        },
                    },
                },
            },
        }
    }
}

/// The number of bytes a frame occupies.
pub open spec fn frame_size(f: Frame) -> nat {
    21 + (if f.ttl is Some { 8nat } else { 0nat }) + (match f.meta {
        Some(m) => 4 + m.len(),
        None => 0nat,
    }) + 4 + f.content.len() + 4 + f.vector.len() + 4
}

pub open spec fn blob_bytes(b: Seq<u8>, unit: nat) -> Seq<u8> {
    le_bytes(b.len() / unit, 4) + b
}

pub open spec fn ttl_bytes(ttl: Option<u64>) -> Seq<u8> {
    match ttl {
        Some(t) => le_bytes(t as nat, 8),
        None => Seq::empty(),
    }
}

pub open spec fn meta_bytes(meta: Option<Seq<u8>>) -> Seq<u8> {
    match meta {
        Some(m) => blob_bytes(m, 1),
        None => Seq::empty(),
    }
}

/// The bytes of a frame, field after field as the layout lists them.
pub open spec fn frame_bytes(f: Frame) -> Seq<u8> {
    sync_marker() + (le_bytes(f.id as nat, 8) + (seq![f.flags] + (le_bytes(f.timestamp as nat, 8)
        + (ttl_bytes(f.ttl) + (meta_bytes(f.meta) + (blob_bytes(f.content, 1) + (blob_bytes(
        f.vector,
        4,
    ) + le_bytes(f.crc as nat, 4))))))))
}

/// A frame that a writer can produce: flags agree with the optional fields,
/// and every length fits its 32-bit prefix.
pub open spec fn frame_wf(f: Frame) -> bool {
    &&& f.flags == flags_for(f.ttl is Some, f.meta is Some)
    &&& f.content.len() < 0x1_0000_0000
    &&& f.vector.len() % 4 == 0
    &&& f.vector.len() / 4 < 0x1_0000_0000
    &&& match f.meta {
        Some(m) => m.len() < 0x1_0000_0000,
        None => true,
    }
}

/// The little-endian bytes of each word of `v`, in order.
pub open spec fn words_bytes(v: Seq<u32>) -> Seq<u8>
    decreases v.len(),
{
    if v.len() == 0 {
        Seq::empty()
    } else {
        words_bytes(v.drop_last()) + le_bytes(v.last() as nat, 4)
    }
}

/// The words whose little-endian bytes are `b`, four bytes each.
pub open spec fn bytes_words(b: Seq<u8>) -> Seq<u32> {
    Seq::new(b.len() / 4, |i: int| le_value(b.subrange(4 * i, 4 * i + 4)) as u32)
}

proof fn lemma_take_blob(b: Seq<u8>, unit: nat, rest: Seq<u8>)
    requires
        unit == 1 || unit == 4,
        b.len() % unit == 0,
        b.len() / unit < 0x1_0000_0000,
    ensures
        take_blob(blob_bytes(b, unit) + rest, unit) == Some((b, rest)),
{
    let t = blob_bytes(b, unit) + rest;
    let k = b.len() / unit;
    lemma_le_bytes_len(k, 4);
    lemma_pow256_8();
    lemma_le_round_trip(k, 4);
    assert(t.take(4) =~= le_bytes(k, 4));
    assert(k * unit == b.len());
    assert(t.subrange(4, 4 + b.len() as int) =~= b);
    assert(t.skip(4 + b.len() as int) =~= rest);
}

/// The bytes of a frame after its 21-byte fixed prefix.
pub open spec fn frame_body(f: Frame) -> Seq<u8> {
    ttl_bytes(f.ttl) + (meta_bytes(f.meta) + (blob_bytes(f.content, 1) + (blob_bytes(f.vector, 4)
        + le_bytes(f.crc as nat, 4))))
}

/// The bytes of a frame after its fixed prefix, then `rest`.
pub open spec fn frame_tail(f: Frame, rest: Seq<u8>) -> Seq<u8> {
    ttl_bytes(f.ttl) + (meta_bytes(f.meta) + (blob_bytes(f.content, 1) + (blob_bytes(f.vector, 4)
        + (le_bytes(f.crc as nat, 4) + rest))))
}

proof fn lemma_split(a: Seq<u8>, b: Seq<u8>, c: Seq<u8>)
    ensures
        (a + b) + c == a + (b + c),
        (a + (b + c)).take(a.len() as int) == a,
        (a + (b + c)).skip(a.len() as int) == b + c,
{
    vstd::seq_lib::lemma_concat_associative(a, b, c);
    assert((a + (b + c)).take(a.len() as int) =~= a);
    assert((a + (b + c)).skip(a.len() as int) =~= b + c);
}

proof fn lemma_body_rest(f: Frame, rest: Seq<u8>)
    ensures
        frame_body(f) + rest == frame_tail(f, rest),
{
    let c4 = le_bytes(f.crc as nat, 4);
    let v = blob_bytes(f.vector, 4);
    let c = blob_bytes(f.content, 1);
    let m = meta_bytes(f.meta);
    lemma_split(v, c4, rest);
    lemma_split(c, v + c4, rest);
    lemma_split(m, c + (v + c4), rest);
    lemma_split(ttl_bytes(f.ttl), m + (c + (v + c4)), rest);
}

proof fn lemma_tail_round_trip(f: Frame, rest: Seq<u8>)
    requires
        frame_wf(f),
    ensures
        ({
            let t4 = le_bytes(f.crc as nat, 4) + rest;
            let t3 = blob_bytes(f.vector, 4) + t4;
            let t2 = blob_bytes(f.content, 1) + t3;
            let t1 = meta_bytes(f.meta) + t2;
            &&& take_ttl(frame_tail(f, rest), has_ttl(f.flags)) == Some((f.ttl, t1))
            &&& take_meta(t1, has_meta(f.flags)) == Some((f.meta, t2))
            &&& take_blob(t2, 1) == Some((f.content, t3))
            &&& take_blob(t3, 4) == Some((f.vector, t4))
            &&& t4.len() >= 4
            &&& le_value(t4.take(4)) as u32 == f.crc
        }),
{
    lemma_pow256_8();
    lemma_le_bytes_len(f.crc as nat, 4);
    lemma_le_round_trip(f.crc as nat, 4);
    let t4 = le_bytes(f.crc as nat, 4) + rest;
    let t3 = blob_bytes(f.vector, 4) + t4;
    let t2 = blob_bytes(f.content, 1) + t3;
    let t1 = meta_bytes(f.meta) + t2;
    let t0 = ttl_bytes(f.ttl) + t1;
    assert(has_ttl(f.flags) == f.ttl is Some);
    assert(has_meta(f.flags) == f.meta is Some);
    match f.ttl {
        Some(t) => {
            lemma_le_bytes_len(t as nat, 8);
            lemma_le_round_trip(t as nat, 8);
            assert(t0.take(8) =~= le_bytes(t as nat, 8));
            assert(t0.skip(8) =~= t1);
        },
        None => {
            assert(t0 =~= t1);
        },
    }
    match f.meta {
        Some(m) => {
            lemma_take_blob(m, 1, t2);
        },
        None => {
            assert(t1 =~= t2);
        },
    }
    lemma_take_blob(f.content, 1, t3);
    lemma_take_blob(f.vector, 4, t4);
    assert(t4.take(4) =~= le_bytes(f.crc as nat, 4));
}

proof fn lemma_frame_size(f: Frame)
    requires
        frame_wf(f),
    ensures
        frame_bytes(f).len() == frame_size(f),
{
    lemma_le_bytes_len(f.id as nat, 8);
    lemma_le_bytes_len(f.timestamp as nat, 8);
    lemma_le_bytes_len(f.crc as nat, 4);
    lemma_le_bytes_len(f.content.len(), 4);
    lemma_le_bytes_len(f.vector.len() / 4, 4);
    match f.ttl {
        Some(t) => lemma_le_bytes_len(t as nat, 8),
        None => {},
    }
    match f.meta {
        Some(m) => lemma_le_bytes_len(m.len(), 4),
        None => {},
    }
}

/// A well-formed frame reads back as itself, whatever follows it.
#[verifier::rlimit(60)]
pub proof fn lemma_frame_round_trip(f: Frame, rest: Seq<u8>)
    requires
        frame_wf(f),
    ensures
        parse_frame(frame_bytes(f) + rest) == Some(f),
        frame_bytes(f).len() == frame_size(f),
{
    let s = frame_bytes(f) + rest;
    lemma_pow256_8();
    lemma_frame_size(f);
    lemma_le_bytes_len(f.id as nat, 8);
    lemma_le_bytes_len(f.timestamp as nat, 8);
    lemma_le_round_trip(f.id as nat, 8);
    lemma_le_round_trip(f.timestamp as nat, 8);
    let idb = le_bytes(f.id as nat, 8);
    let tsb = le_bytes(f.timestamp as nat, 8);
    let body = frame_body(f);
    let r3 = tsb + body;
    let r2 = seq![f.flags] + r3;
    let r1 = idb + r2;
    lemma_split(sync_marker(), r1, rest);
    lemma_split(idb, r2, rest);
    lemma_split(seq![f.flags], r3, rest);
    lemma_split(tsb, body, rest);
    lemma_body_rest(f, rest);
    let u1 = s.skip(4);
    let u2 = u1.skip(8);
    let u3 = u2.skip(1);
    assert(s.take(4) == sync_marker());
    assert(s.subrange(4, 12) =~= u1.take(8));
    assert(s[12] == u2[0]);
    assert(s.subrange(13, 21) =~= u3.take(8));
    assert(s.skip(21) =~= u3.skip(8));
    lemma_tail_round_trip(f, rest);
}

/// The frame a writer produces for these fields.
pub open spec fn frame_of(
    id: u64,
    timestamp: u64,
    ttl: Option<u64>,
    meta: Option<Seq<u8>>,
    content: Seq<u8>,
    vector: Seq<u32>,
    crc: u32,
) -> Frame {
    Frame {
        id,
        flags: flags_for(ttl is Some, meta is Some),
        timestamp,
        ttl,
        meta,
        content,
        vector: words_bytes(vector),
        crc,
    }
}

pub proof fn lemma_words_bytes_len(v: Seq<u32>)
    ensures
        words_bytes(v).len() == 4 * v.len(),
    decreases v.len(),
{
    if v.len() > 0 {
        lemma_words_bytes_len(v.drop_last());
        lemma_le_bytes_len(v.last() as nat, 4);
    }
}

/// Appends every byte of `b` to `out`.
pub fn push_all(out: &mut Vec<u8>, b: &[u8])
    ensures
        final(out)@ == old(out)@ + b@,
{
    let mut i: usize = 0;
    while i < b.len()
        invariant
            i <= b@.len(),
            out@ == old(out)@ + b@.take(i as int),
        decreases b@.len() - i,
    {
        out.push(b[i]);
        assert(b@.take(i + 1) =~= b@.take(i as int).push(b@[i as int]));
        assert(out@ =~= old(out)@ + b@.take(i + 1));
        i = i + 1;
    }
    assert(b@.take(b@.len() as int) =~= b@);
}

/// Appends the little-endian bytes of each word of `v` to `out`.
pub fn push_words(out: &mut Vec<u8>, v: &[u32])
    ensures
        final(out)@ == old(out)@ + words_bytes(v@),
{
    let mut i: usize = 0;
    while i < v.len()
        invariant
            i <= v@.len(),
            out@ == old(out)@ + words_bytes(v@.take(i as int)),
        decreases v@.len() - i,
    {
        push_le(out, v[i] as u64, 4);
        assert(v@.take(i + 1).drop_last() =~= v@.take(i as int));
        assert(out@ =~= old(out)@ + words_bytes(v@.take(i + 1)));
        i = i + 1;
    }
    assert(v@.take(v@.len() as int) =~= v@);
}

/// The header of a new file.
pub fn header_bytes() -> (r: Vec<u8>)
    ensures
        r@ == header_spec(),
{
    let mut out: Vec<u8> = Vec::new();
    out.push(0x4D);
    out.push(0x4E);
    out.push(0x4D);
    out.push(0x4F);
    push_le(&mut out, CURRENT_VERSION as u64, 2);
    let mut i: usize = 0;
    while i < 58
        invariant
            i <= 58,
            out@ == magic() + le_bytes(CURRENT_VERSION as nat, 2) + Seq::new(i as nat, |j: int| 0u8),
        decreases 58 - i,
    {
        out.push(0);
        assert(out@ =~= magic() + le_bytes(CURRENT_VERSION as nat, 2) + Seq::new(
            (i + 1) as nat,
            |j: int| 0u8,
        ));
        i = i + 1;
    }
    out
}

/// Whether `file` begins with a header this engine recovers from.
pub fn header_is_valid(file: &[u8]) -> (r: bool)
    ensures
        r == header_valid(file@),
{
    if file.len() < 64 {
        return false;
    }
    let ok = file[0] == 0x4D && file[1] == 0x4E && file[2] == 0x4D && file[3] == 0x4F;
    if ok {
        assert(file@.take(4) =~= magic());
    } else {
        assert(file@.take(4)[0] == file@[0]);
        assert(file@.take(4)[1] == file@[1]);
        assert(file@.take(4)[2] == file@[2]);
        assert(file@.take(4)[3] == file@[3]);
    }
    ok
}

/// The bytes of the frame for these fields.
#[verifier::rlimit(80)]
pub fn encode_frame(
    id: u64,
    timestamp: u64,
    ttl: Option<u64>,
    meta: Option<&[u8]>,
    content: &[u8],
    vector: &[u32],
    crc: u32,
) -> (r: Vec<u8>)
    requires
        content@.len() < 0x1_0000_0000,
        vector@.len() < 0x1_0000_0000,
        meta matches Some(m) ==> m@.len() < 0x1_0000_0000,
    ensures
        r@ == frame_bytes(
            frame_of(
                id,
                timestamp,
                ttl,
                match meta {
                    Some(m) => Some(m@),
                    None => None,
                },
                content@,
                vector@,
                crc,
            ),
        ),
        frame_wf(
            frame_of(
                id,
                timestamp,
                ttl,
                match meta {
                    Some(m) => Some(m@),
                    None => None,
                },
                content@,
                vector@,
                crc,
            ),
        ),
{
    let ghost mv = match meta {
        Some(m) => Some(m@),
        None => None,
    };
    let ghost f = frame_of(id, timestamp, ttl, mv, content@, vector@, crc);
    let mut flags: u8 = 0;
    if ttl.is_some() {
        flags = flags + FLAG_HAS_TTL;
    }
    if meta.is_some() {
        flags = flags + FLAG_HAS_METADATA;
    }
    let mut out: Vec<u8> = Vec::new();
    out.push(0xFA);
    out.push(0xFA);
    out.push(0xFA);
    out.push(0xFA);
    assert(out@ =~= sync_marker());
    push_le(&mut out, id, 8);
    out.push(flags);
    push_le(&mut out, timestamp, 8);
    let ghost prefix = out@;
    match ttl {
        Some(t) => push_le(&mut out, t, 8),
        None => {},
    }
    assert(out@ =~= prefix + ttl_bytes(ttl));
    let ghost p1 = out@;
    match meta {
        Some(m) => {
            push_le(&mut out, m.len() as u64, 4);
            push_all(&mut out, m);
        },
        None => {},
    }
    assert(out@ =~= p1 + meta_bytes(mv));
    let ghost p2 = out@;
    push_le(&mut out, content.len() as u64, 4);
    push_all(&mut out, content);
    assert(out@ =~= p2 + blob_bytes(content@, 1));
    let ghost p3 = out@;
    push_le(&mut out, vector.len() as u64, 4);
    push_words(&mut out, vector);
    proof {
        lemma_words_bytes_len(vector@);
        assert(words_bytes(vector@).len() / 4 == vector@.len());
    }
    assert(out@ =~= p3 + blob_bytes(f.vector, 4));
    push_le(&mut out, crc as u64, 4);
    proof {
        let body = frame_body(f);
        assert(out@ =~= prefix + body);
        assert(out@ =~= frame_bytes(f));
    }
    out
}

/// A frame located in a buffer: its fixed fields, and the byte ranges of
/// its variable fields.
pub struct FrameRef {
    pub id: u64,
    pub flags: u8,
    pub timestamp: u64,
    pub ttl: Option<u64>,
    pub meta: Option<(usize, usize)>,
    pub content: (usize, usize),
    pub vector: (usize, usize),
    pub crc: u32,
    pub end: usize,
}

/// The bytes of `buf` in the range `r`.
pub open spec fn range_of(buf: Seq<u8>, r: (usize, usize)) -> Seq<u8> {
    buf.subrange(r.0 as int, r.1 as int)
}

pub open spec fn range_ok(buf: Seq<u8>, r: (usize, usize)) -> bool {
    r.0 <= r.1 <= buf.len()
}

/// `r` locates the frame `f` that starts at `pos` in `buf`.
pub open spec fn locates(buf: Seq<u8>, pos: int, r: FrameRef, f: Frame) -> bool {
    &&& r.id == f.id
    &&& r.flags == f.flags
    &&& r.timestamp == f.timestamp
    &&& r.ttl == f.ttl
    &&& r.crc == f.crc
    &&& range_ok(buf, r.content) && range_of(buf, r.content) == f.content
    &&& range_ok(buf, r.vector) && range_of(buf, r.vector) == f.vector
    &&& match (r.meta, f.meta) {
        (Some(m), Some(mb)) => range_ok(buf, m) && range_of(buf, m) == mb,
        (None, None) => true,
        _ => false,
    }
    &&& r.end == pos + frame_size(f)
    &&& r.end <= buf.len()
}

/// Locates the length-prefixed field at `p`; gives the end of its elements.
fn read_blob(buf: &[u8], p: usize, unit: u64) -> (r: Option<usize>)
    requires
        p <= buf.len(),
        unit == 1 || unit == 4,
    ensures
        match take_blob(buf@.skip(p as int), unit as nat) {
            None => r is None,
            Some((b, t)) => r matches Some(e) && p + 4 <= e <= buf.len() && buf@.subrange(
                p + 4,
                e as int,
            ) == b && buf@.skip(e as int) == t,
        },
{
    let ghost t = buf@.skip(p as int);
    if buf.len() - p < 4 {
        return None;
    }
    let k = read_le(buf, p, 4);
    assert(t.take(4) =~= buf@.subrange(p as int, p + 4));
    proof {
        lemma_le_value_bound(buf@.subrange(p as int, p + 4));
        lemma_pow256_8();
    }
    let n: u64 = k * unit;
    if n > (buf.len() - p - 4) as u64 {
        return None;
    }
    let e: usize = p + 4 + n as usize;
    assert(t.subrange(4, 4 + n) =~= buf@.subrange(p + 4, e as int));
    assert(t.skip(4 + n) =~= buf@.skip(e as int));
    Some(e)
}

/// Locates the frame that starts at `pos`, if a complete one does.
#[verifier::rlimit(100)]
pub fn parse_frame_at(buf: &[u8], pos: usize) -> (r: Option<FrameRef>)
    requires
        pos <= buf.len(),
    ensures
        match parse_frame(buf@.skip(pos as int)) {
            None => r is None,
            Some(f) => r matches Some(fr) && locates(buf@, pos as int, fr, f),
        },
{
    let ghost s = buf@.skip(pos as int);
    if buf.len() - pos < 21 {
        return None;
    }
    if !(buf[pos] == 0xFA && buf[pos + 1] == 0xFA && buf[pos + 2] == 0xFA && buf[pos + 3] == 0xFA) {
        assert(s.take(4)[0] == s[0]);
        assert(s.take(4)[1] == s[1]);
        assert(s.take(4)[2] == s[2]);
        assert(s.take(4)[3] == s[3]);
        return None;
    }
    assert(s.take(4) =~= sync_marker());
    let id = read_le(buf, pos + 4, 8);
    assert(s.subrange(4, 12) =~= buf@.subrange(pos + 4, pos + 12));
    let flags = buf[pos + 12];
    let timestamp = read_le(buf, pos + 13, 8);
    assert(s.subrange(13, 21) =~= buf@.subrange(pos + 13, pos + 21));
    let mut p: usize = pos + 21;
    assert(s.skip(21) =~= buf@.skip(p as int));
    let ttl: Option<u64> = if flags % 2 == 1 {
        if buf.len() - p < 8 {
            return None;
        }
        let t = read_le(buf, p, 8);
        assert(buf@.skip(p as int).take(8) =~= buf@.subrange(p as int, p + 8));
        assert(buf@.skip(p as int).skip(8) =~= buf@.skip(p + 8));
        p = p + 8;
        Some(t)
    } else {
        None
    };
    let meta: Option<(usize, usize)> = if (flags / 2) % 2 == 1 {
        match read_blob(buf, p, 1) {
            None => {
                return None;
            },
            Some(e) => {
                let start = p + 4;
                p = e;
                Some((start, e))
            },
        }
    } else {
        None
    };
    let c_end = match read_blob(buf, p, 1) {
        None => {
            return None;
        },
        Some(e) => e,
    };
    let c_start = p + 4;
    p = c_end;
    let v_end = match read_blob(buf, p, 4) {
        None => {
            return None;
        },
        Some(e) => e,
    };
    let v_start = p + 4;
    p = v_end;
    if buf.len() - p < 4 {
        return None;
    }
    let crc = read_le(buf, p, 4);
    assert(buf@.skip(p as int).take(4) =~= buf@.subrange(p as int, p + 4));
    proof {
        lemma_le_value_bound(buf@.subrange(p as int, p + 4));
        lemma_pow256_8();
    }
    Some(
        FrameRef {
            id,
            flags,
            timestamp,
            ttl,
            meta,
            content: (c_start, c_end),
            vector: (v_start, v_end),
            crc: crc as u32,
            end: p + 4,
        },
    )
}

} // verus!
