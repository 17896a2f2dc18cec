use engram::engine::{check_dimension, check_limit, EngineError, MnemoEngine};
use engram::format::{encode_frame, header_bytes, header_is_valid, parse_frame_at};
use engram::outside::Metadata;
use std::collections::HashMap;

fn meta(pairs: &[(&str, &str)]) -> Metadata {
    pairs.iter().map(|(k, v)| (k.to_string(), v.to_string())).collect()
}

/// Appends one record to `file` through `engine`, as the store does.
fn append(engine: &mut MnemoEngine, file: &mut Vec<u8>, text: &str, m: Option<&Metadata>) -> u64 {
    let vector: Vec<u32> = vec![1.5f32.to_bits(), (-2.0f32).to_bits(), 0.25f32.to_bits()];
    let (id, frame) = engine.append_with_vector(text, &vector, m, None, 1_700_000_000).unwrap();
    assert_eq!(engine.file_len as usize, file.len());
    file.extend_from_slice(&frame);
    engine.commit_append(id, frame.len() as u64).unwrap();
    id
}

fn fresh() -> (MnemoEngine, Vec<u8>) {
    let (engine, header) = MnemoEngine::new(&[]);
    (engine, header.unwrap())
}

#[test]
fn empty_directory_gets_header() {
    let (engine, header) = MnemoEngine::new(&[]);
    let header = header.unwrap();
    assert_eq!(header.len(), 64);
    assert_eq!(&header[..6], &[0x4D, 0x4E, 0x4D, 0x4F, 0x03, 0x00]);
    assert!(header[6..].iter().all(|b| *b == 0));
    assert_eq!(header, header_bytes());
    assert_eq!(engine.count(), 0);
    assert_eq!(engine.last_id, 0);
    assert_eq!(engine.file_len, 64);
    assert!(engine.needs_remap());
}

#[test]
fn reopen_recovers_three_records() {
    let (mut engine, mut file) = fresh();
    assert_eq!(append(&mut engine, &mut file, "a", None), 1);
    assert_eq!(append(&mut engine, &mut file, "b", None), 2);
    assert_eq!(append(&mut engine, &mut file, "c", None), 3);
    let (reopened, rewrite) = MnemoEngine::new(&file);
    assert!(rewrite.is_none());
    assert_eq!(reopened.count(), 3);
    assert_eq!(reopened.last_id, 3);
    let rec = reopened.read_record(&file, 2).unwrap();
    assert_eq!(rec.content, "b");
    assert_eq!(rec.id, 2);
    assert_eq!(rec.timestamp, 1_700_000_000);
    assert_eq!(rec.ttl, None);
    assert_eq!(rec.metadata, None);
    let floats: Vec<f32> = rec.vector.iter().map(|b| f32::from_bits(*b)).collect();
    assert_eq!(floats, vec![1.5, -2.0, 0.25]);
}

#[test]
fn torn_tail_drops_partial_record() {
    let (mut engine, mut file) = fresh();
    let mut fifty_end = 0usize;
    for i in 0..100 {
        append(&mut engine, &mut file, &format!("record number {}", i), None);
        if i == 49 {
            fifty_end = file.len();
        }
    }
    let truncated = &file[..fifty_end + 7];
    let (reopened, rewrite) = MnemoEngine::new(truncated);
    assert!(rewrite.is_none());
    assert_eq!(reopened.count(), 50);
    for id in 1..=50u64 {
        let rec = reopened.read_record(truncated, id).unwrap();
        assert_eq!(rec.content, format!("record number {}", id - 1));
    }
    assert!(reopened.read_record(truncated, 51).is_none());
}

#[test]
fn torn_tail_inside_last_record() {
    let (mut engine, mut file) = fresh();
    for i in 0..5 {
        append(&mut engine, &mut file, &format!("item {}", i), None);
    }
    let cut = file.len() - 3;
    let (reopened, _) = MnemoEngine::new(&file[..cut]);
    assert_eq!(reopened.count(), 4);
    assert_eq!(reopened.last_id, 4);
}

#[test]
fn flags_byte_marks_metadata() {
    let (mut engine, mut file) = fresh();
    append(&mut engine, &mut file, "x", None);
    let second = file.len();
    append(&mut engine, &mut file, "y", Some(&meta(&[("k", "v")])));
    assert_eq!(file[64 + 12], 0x00);
    assert_eq!(file[second + 12], 0x02);
    let rec = engine.read_record(&file, 2).unwrap();
    assert_eq!(rec.metadata, Some(meta(&[("k", "v")])));
}

#[test]
fn ttl_sets_flag_and_reads_back() {
    let (engine, _) = fresh();
    let (_, frame) = engine.append_with_vector("t", &[], Some(&meta(&[("a", "b")])), Some(60), 5).unwrap();
    assert_eq!(frame[12], 0x03);
    let fr = parse_frame_at(&frame, 0).unwrap();
    assert_eq!(fr.ttl, Some(60));
    assert_eq!(fr.timestamp, 5);
    assert_eq!(fr.end, frame.len());
}

#[test]
fn zeroed_magic_reinitializes() {
    let (mut engine, mut file) = fresh();
    append(&mut engine, &mut file, "hello", None);
    append(&mut engine, &mut file, "world", None);
    file[0] = 0;
    file[1] = 0;
    file[2] = 0;
    file[3] = 0;
    assert!(!header_is_valid(&file));
    let (reopened, rewrite) = MnemoEngine::new(&file);
    assert_eq!(rewrite.unwrap(), header_bytes());
    assert_eq!(reopened.count(), 0);
    assert_eq!(reopened.last_id, 0);
}

#[test]
fn dimension_mismatch_is_rejected() {
    assert_eq!(check_dimension(100, 384), Err(EngineError::DimensionMismatch));
    assert_eq!(check_dimension(384, 384), Ok(()));
    assert_eq!(check_limit(-1), Err(EngineError::NegativeLimit));
    assert_eq!(check_limit(5), Ok(5));
    assert_eq!(check_limit(0), Ok(0));
}

#[test]
fn recall_ids_keeps_order_and_skips_unknown() {
    let (mut engine, mut file) = fresh();
    for i in 0..10 {
        append(&mut engine, &mut file, &format!("m{}", i), None);
    }
    let got = engine.recall_ids(&file, &[7, 2, 99, 5, 1, 10]);
    let texts: Vec<&str> = got.iter().map(|r| r.content.as_str()).collect();
    assert_eq!(texts, vec!["m6", "m1", "m4", "m0", "m9"]);
}

#[test]
fn checksum_is_crc32_of_content() {
    let (engine, _) = fresh();
    let (_, frame) = engine.append_with_vector("hello world", &[], None, None, 0).unwrap();
    let tail = &frame[frame.len() - 4..];
    assert_eq!(u32::from_le_bytes([tail[0], tail[1], tail[2], tail[3]]), 0x0D4A_1185);
    let (_, empty) = engine.append_with_vector("", &[], None, None, 0).unwrap();
    assert_eq!(&empty[empty.len() - 4..], &[0, 0, 0, 0]);
}

#[test]
fn metadata_is_json_object() {
    let (engine, _) = fresh();
    let m = meta(&[("tag", "greet")]);
    let (_, frame) = engine.append_with_vector("hello world", &[], Some(&m), None, 0).unwrap();
    let fr = parse_frame_at(&frame, 0).unwrap();
    let (a, b) = fr.meta.unwrap();
    assert_eq!(&frame[a..b], br#"{"tag":"greet"}"#);
}

#[test]
fn frame_layout_is_exact() {
    let frame = encode_frame(7, 9, None, None, b"ab", &[1], 0xAABBCCDD);
    let mut expected = vec![0xFA, 0xFA, 0xFA, 0xFA, 7, 0, 0, 0, 0, 0, 0, 0, 0, 9, 0, 0, 0, 0, 0, 0, 0];
    expected.extend_from_slice(&[2, 0, 0, 0, b'a', b'b', 1, 0, 0, 0, 1, 0, 0, 0, 0xDD, 0xCC, 0xBB, 0xAA]);
    assert_eq!(frame, expected);
}

#[test]
fn read_rejects_wrong_id_and_garbage() {
    let (mut engine, mut file) = fresh();
    append(&mut engine, &mut file, "one", None);
    append(&mut engine, &mut file, "two", None);
    let mut bad = MnemoEngine { index: HashMap::new(), last_id: 2, file_len: file.len() as u64, mapped_len: None };
    bad.index.insert(2, 64);
    bad.index.insert(3, 65);
    assert!(bad.read_record(&file, 2).is_none());
    assert!(bad.read_record(&file, 3).is_none());
    assert!(bad.read_record(&file, 4).is_none());
    let mut invalid_utf8 = file.clone();
    invalid_utf8[64 + 21 + 4] = 0xFF;
    assert!(engine.read_record(&invalid_utf8, 1).is_none());
}

#[test]
fn scan_skips_noise_between_frames() {
    let (mut engine, mut file) = fresh();
    append(&mut engine, &mut file, "first", None);
    let mut noisy = file.clone();
    noisy.extend_from_slice(&[1, 2, 3, 0xFA, 0xFA]);
    let (e2, frame) = {
        let (e, _) = MnemoEngine::new(&file);
        let (_, f) = e.append_with_vector("second", &[], None, None, 0).unwrap();
        (e, f)
    };
    assert_eq!(e2.count(), 1);
    noisy.extend_from_slice(&frame);
    let (reopened, _) = MnemoEngine::new(&noisy);
    assert_eq!(reopened.count(), 2);
    assert_eq!(reopened.read_record(&noisy, 2).unwrap().content, "second");
}

#[test]
fn append_and_commit_errors() {
    let (mut engine, _) = fresh();
    engine.last_id = u64::MAX;
    assert_eq!(engine.append_with_vector("x", &[], None, None, 0), Err(EngineError::IdExhausted));
    assert_eq!(engine.commit_append(0, 10), Err(EngineError::IdOutOfOrder));
    engine.last_id = 4;
    assert_eq!(engine.commit_append(4, 10), Err(EngineError::IdOutOfOrder));
    engine.file_len = u64::MAX - 5;
    assert_eq!(engine.commit_append(5, 10), Err(EngineError::FileTooLarge));
    assert_eq!(engine.last_id, 4);
    engine.file_len = 100;
    engine.note_mapped(100);
    assert!(!engine.needs_remap());
    assert_eq!(engine.commit_append(5, 10), Ok(()));
    assert!(engine.needs_remap());
    engine.note_mapped(105);
    assert!(engine.needs_remap());
    assert_eq!(engine.index.get(&5), Some(&100));
}
