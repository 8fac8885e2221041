use commitlog::config::SegmentConfig;
use commitlog::error::LogError;
use commitlog::index::Index;
use commitlog::segment::Segment;
use commitlog::store::{frame_len_at, Store};

#[test]
fn store_frames_payload_with_big_endian_length() {
    let mut s = Store::new();
    assert_eq!(s.append(b"some data"), (17, 0));
    assert_eq!(s.append(b"xy"), (10, 17));
    let mut expected = vec![0, 0, 0, 0, 0, 0, 0, 9];
    expected.extend_from_slice(b"some data");
    expected.extend_from_slice(&[0, 0, 0, 0, 0, 0, 0, 2]);
    expected.extend_from_slice(b"xy");
    assert_eq!(s.as_bytes(), &expected[..]);
    assert_eq!(s.size(), 27);
    assert_eq!(s.read(0), Ok(b"some data".to_vec()));
    assert_eq!(s.read(17), Ok(b"xy".to_vec()));
}

#[test]
fn store_read_of_a_broken_frame_is_corrupt() {
    let mut s = Store::new();
    s.append(b"some data");
    assert_eq!(s.read(1), Err(LogError::CorruptFrame));
    assert_eq!(s.read(17), Err(LogError::CorruptFrame));
    assert_eq!(s.read(100), Err(LogError::CorruptFrame));
}

#[test]
fn store_read_at_gives_raw_bytes() {
    let mut s = Store::new();
    s.append(b"abc");
    assert_eq!(s.read_at(7, 2), Ok(vec![3, b'a']));
    assert_eq!(s.read_at(10, 2), Err(LogError::CorruptFrame));
}

#[test]
fn frame_length_is_read_big_endian() {
    let mut b = vec![0, 0, 0, 0, 0, 0, 1, 0];
    b.extend(vec![7u8; 256]);
    assert_eq!(frame_len_at(&b, 0), Some(256));
    assert_eq!(frame_len_at(&b[..200], 0), None);
    assert_eq!(frame_len_at(&b, 260), None);
}

#[test]
fn index_entries_hold_relative_offset_and_position() {
    let mut idx = Index::new(36);
    assert_eq!(idx.read(-1), Err(LogError::OffsetOutOfRange));
    assert_eq!(idx.append(0), Ok(0));
    assert_eq!(idx.append(17), Ok(1));
    assert_eq!(idx.append(300), Ok(2));
    assert_eq!(idx.append(400), Err(LogError::IndexFull));
    assert_eq!(idx.entry_count(), 3);
    assert_eq!(idx.read(1), Ok(17));
    assert_eq!(idx.read(-1), Ok(300));
    assert_eq!(idx.read(3), Err(LogError::OffsetOutOfRange));
    assert_eq!(idx.read(-2), Err(LogError::OffsetOutOfRange));
    assert_eq!(
        &idx.as_bytes()[12..24],
        &[0, 0, 0, 1, 0, 0, 0, 0, 0, 0, 0, 17][..]
    );
    assert_eq!(idx.size(), 36);
}

#[test]
fn segment_reads_by_absolute_offset() {
    let config = SegmentConfig { max_store_bytes: 1024, max_index_bytes: 1024 };
    let mut seg = Segment::new(16, config);
    assert_eq!(seg.append(b"a"), Ok(16));
    assert_eq!(seg.append(b"bc"), Ok(17));
    assert_eq!(seg.next_offset(), 18);
    assert_eq!(seg.read(17), Ok(b"bc".to_vec()));
    assert_eq!(seg.read(15), Err(LogError::OffsetOutOfRange));
    assert_eq!(seg.read(18), Err(LogError::OffsetOutOfRange));
    assert!(!seg.is_maxed());
    assert_eq!(seg.index_file().len(), 24);
}

#[test]
fn segment_load_drops_trailing_incomplete_frame() {
    let config = SegmentConfig { max_store_bytes: 1024, max_index_bytes: 1024 };
    let mut seg = Segment::new(4, config);
    seg.append(b"first").unwrap();
    seg.append(b"second").unwrap();
    let mut bytes = seg.store_file().to_vec();
    bytes.extend_from_slice(&[0, 0, 0, 0, 0, 0, 0, 9, b'p', b'a']);
    let loaded = Segment::load(4, config, &bytes).unwrap();
    assert_eq!(loaded.next_offset(), 6);
    assert_eq!(loaded.read(5), Ok(b"second".to_vec()));
    assert_eq!(loaded.store_file(), seg.store_file());
    assert_eq!(loaded.index_file(), seg.index_file());
}

#[test]
fn segment_load_reports_offsets_that_do_not_fit() {
    let config = SegmentConfig { max_store_bytes: 1024, max_index_bytes: 1024 };
    let mut seg = Segment::new(0, config);
    seg.append(b"a").unwrap();
    seg.append(b"b").unwrap();
    let bytes = seg.store_file().to_vec();
    assert!(Segment::load(u64::MAX - 1, config, &bytes).is_err());
    assert!(Segment::load(u64::MAX - 2, config, &bytes).is_ok());
}
