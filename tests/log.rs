use commitlog::config::{Config, SegmentConfig};
use commitlog::error::LogError;
use commitlog::log::Log;
use commitlog::naming::{index_file_name, parse_segment_file_name, segment_base_offsets, store_file_name};

fn get_config() -> Config {
    Config {
        segment: SegmentConfig { max_store_bytes: 1024, max_index_bytes: 1024 },
        initial_offset: 0,
    }
}

fn active_store_name(log: &Log) -> Vec<u8> {
    store_file_name(log.active_segment().base_offset())
}

#[test]
fn create_commit_log() {
    let mut log = Log::new(get_config());
    assert!(log.append(b"some data").is_ok());
    assert!(log.append(b"other data").is_ok());
}

#[test]
fn roll_segment() {
    let mut log = Log::new(get_config());
    assert_eq!(active_store_name(&log), b"00000000.store".to_vec());

    assert_eq!(log.append(b"first"), Ok(0));
    log.roll_segment();
    assert_eq!(active_store_name(&log), b"00000001.store".to_vec());
    assert_eq!(log.segment_count(), 2);
}

#[test]
fn roll_segment_on_empty_log_starts_at_next_offset() {
    let mut log = Log::new(get_config());
    log.roll_segment();
    assert_eq!(log.segment_count(), 2);
    assert_eq!(log.active_segment().base_offset(), 0);
    assert_eq!(log.segment(0).next_offset(), 0);
}

#[test]
fn append_then_read_scenario() {
    let mut log = Log::new(get_config());
    assert_eq!(log.append(b"some data"), Ok(0));
    assert_eq!(log.append(b"other data"), Ok(1));
    assert_eq!(log.read(0), Ok(b"some data".to_vec()));
    assert_eq!(log.read(1), Ok(b"other data".to_vec()));
    assert_eq!(log.highest_offset(), Some(1));
    assert_eq!(log.lowest_offset(), 0);
}

#[test]
fn round_trip_of_various_payloads() {
    let mut log = Log::new(get_config());
    let payloads: Vec<Vec<u8>> = vec![vec![], vec![0], vec![255; 300], b"hello".to_vec()];
    for p in &payloads {
        let off = log.append(p).unwrap();
        assert_eq!(log.read(off), Ok(p.clone()));
    }
}

#[test]
fn offsets_increase_from_initial_offset() {
    let mut config = get_config();
    config.initial_offset = 5;
    let mut log = Log::new(config);
    assert_eq!(log.highest_offset(), None);
    assert_eq!(log.append(b"a"), Ok(5));
    assert_eq!(log.append(b"b"), Ok(6));
    assert_eq!(log.append(b"c"), Ok(7));
    assert_eq!(log.lowest_offset(), 5);
    assert_eq!(log.highest_offset(), Some(7));
}

#[test]
fn rolls_when_store_limit_reached() {
    let config = Config {
        segment: SegmentConfig { max_store_bytes: 30, max_index_bytes: 1024 },
        initial_offset: 0,
    };
    let mut log = Log::new(config);
    // each frame is 8 + 10 = 18 bytes
    assert_eq!(log.append(b"0123456789"), Ok(0));
    assert_eq!(log.segment_count(), 1);
    assert_eq!(log.highest_offset(), Some(0));
    assert_eq!(log.append(b"0123456789"), Ok(1));
    assert_eq!(log.segment_count(), 2);
    assert_eq!(log.segment(0).next_offset(), 2);
    assert_eq!(log.segment(1).base_offset(), 2);
    assert_eq!(log.highest_offset(), Some(1));
    assert_eq!(log.append(b"x"), Ok(2));
    assert_eq!(log.highest_offset(), Some(2));
    assert_eq!(log.read(1), Ok(b"0123456789".to_vec()));
    assert_eq!(log.read(2), Ok(b"x".to_vec()));
}

#[test]
fn rolls_when_index_limit_reached() {
    let config = Config {
        segment: SegmentConfig { max_store_bytes: 1024, max_index_bytes: 24 },
        initial_offset: 0,
    };
    let mut log = Log::new(config);
    assert_eq!(log.append(b"a"), Ok(0));
    assert_eq!(log.segment_count(), 1);
    assert_eq!(log.append(b"b"), Ok(1));
    assert_eq!(log.segment_count(), 2);
    assert_eq!(log.active_segment().base_offset(), 2);
    assert_eq!(log.append(b"c"), Ok(2));
    assert_eq!(log.read(0), Ok(b"a".to_vec()));
    assert_eq!(log.read(2), Ok(b"c".to_vec()));
}

#[test]
fn forced_roll_scenario() {
    let config = Config {
        segment: SegmentConfig { max_store_bytes: 17, max_index_bytes: 1024 },
        initial_offset: 0,
    };
    let mut log = Log::new(config);
    assert_eq!(log.append(b"some data"), Ok(0));
    assert_eq!(log.append(b"x"), Ok(1));
    assert_eq!(log.segment_count(), 2);
    assert_eq!(log.segment(0).base_offset(), 0);
    assert_eq!(log.segment(1).base_offset(), 1);
}

#[test]
fn read_past_highest_is_out_of_range() {
    let mut log = Log::new(get_config());
    assert_eq!(log.read(0), Err(LogError::OffsetOutOfRange));
    log.append(b"a").unwrap();
    log.append(b"b").unwrap();
    let high = log.highest_offset().unwrap();
    assert_eq!(log.read(high + 1), Err(LogError::OffsetOutOfRange));
}

#[test]
fn truncate_removes_superseded_segments() {
    let config = Config {
        segment: SegmentConfig { max_store_bytes: 1024, max_index_bytes: 24 },
        initial_offset: 0,
    };
    let mut log = Log::new(config);
    for p in [b"a", b"b", b"c", b"d", b"e"] {
        log.append(p).unwrap();
    }
    // segments: [0, 2), [2, 4), [4, 5)
    assert_eq!(log.segment_count(), 3);
    log.truncate(4);
    assert_eq!(log.segment_count(), 1);
    assert_eq!(log.lowest_offset(), 4);
    for o in 0..4 {
        assert_eq!(log.read(o), Err(LogError::OffsetOutOfRange));
    }
    assert_eq!(log.read(4), Ok(b"e".to_vec()));
    assert_eq!(log.highest_offset(), Some(4));
}

#[test]
fn truncate_keeps_segment_that_holds_the_boundary() {
    let config = Config {
        segment: SegmentConfig { max_store_bytes: 1024, max_index_bytes: 24 },
        initial_offset: 0,
    };
    let mut log = Log::new(config);
    for p in [b"a", b"b", b"c", b"d", b"e"] {
        log.append(p).unwrap();
    }
    // segments: [0, 2), [2, 4), [4, 5)
    log.truncate(3);
    assert_eq!(log.segment_count(), 2);
    assert_eq!(log.lowest_offset(), 2);
    assert_eq!(log.read(1), Err(LogError::OffsetOutOfRange));
    assert_eq!(log.read(2), Ok(b"c".to_vec()));
    assert_eq!(log.read(3), Ok(b"d".to_vec()));
}

#[test]
fn truncate_everything_keeps_next_offset() {
    let mut log = Log::new(get_config());
    log.append(b"a").unwrap();
    log.append(b"b").unwrap();
    log.truncate(100);
    assert_eq!(log.segment_count(), 1);
    assert_eq!(log.lowest_offset(), 2);
    assert_eq!(log.highest_offset(), None);
    assert_eq!(log.read(0), Err(LogError::OffsetOutOfRange));
    assert_eq!(log.append(b"c"), Ok(2));
}

fn store_files(log: &Log) -> Vec<(u64, Vec<u8>)> {
    (0..log.segment_count())
        .map(|i| {
            let s = log.segment(i);
            (s.base_offset(), s.store_file().to_vec())
        })
        .collect()
}

#[test]
fn reopen_restores_offsets_and_payloads() {
    let config = Config {
        segment: SegmentConfig { max_store_bytes: 40, max_index_bytes: 1024 },
        initial_offset: 3,
    };
    let mut log = Log::new(config);
    let payloads: Vec<&[u8]> = vec![b"one", b"two", b"three", b"four", b"five", b"six"];
    for p in &payloads {
        log.append(p).unwrap();
    }
    assert!(log.segment_count() > 1);
    let reopened = Log::open(config, &store_files(&log)).unwrap();
    assert_eq!(reopened.lowest_offset(), log.lowest_offset());
    assert_eq!(reopened.highest_offset(), log.highest_offset());
    assert_eq!(reopened.segment_count(), log.segment_count());
    for (i, p) in payloads.iter().enumerate() {
        assert_eq!(reopened.read(3 + i as u64), Ok(p.to_vec()));
    }
    assert_eq!(reopened.reader(), log.reader());
}

#[test]
fn open_with_no_files_starts_a_new_log() {
    let mut config = get_config();
    config.initial_offset = 9;
    let mut log = Log::open(config, &vec![]).unwrap();
    assert_eq!(log.segment_count(), 1);
    assert_eq!(log.append(b"a"), Ok(9));
}

#[test]
fn open_rejects_segments_with_a_gap() {
    let mut log = Log::new(get_config());
    log.append(b"a").unwrap();
    let mut files = store_files(&log);
    files.push((5, vec![]));
    assert_eq!(Log::open(get_config(), &files).err(), Some(LogError::CorruptFrame));
}

#[test]
fn open_reports_index_full() {
    let mut log = Log::new(get_config());
    log.append(b"a").unwrap();
    log.append(b"b").unwrap();
    let config = Config {
        segment: SegmentConfig { max_store_bytes: 1024, max_index_bytes: 12 },
        initial_offset: 0,
    };
    assert_eq!(Log::open(config, &store_files(&log)).err(), Some(LogError::IndexFull));
}

#[test]
fn reader_yields_records_in_order() {
    let config = Config {
        segment: SegmentConfig { max_store_bytes: 20, max_index_bytes: 1024 },
        initial_offset: 0,
    };
    let mut log = Log::new(config);
    for p in [b"ab", b"cd", b"ef", b"gh"] {
        log.append(p).unwrap();
    }
    assert_eq!(log.reader(), vec![b"ab".to_vec(), b"cd".to_vec(), b"ef".to_vec(), b"gh".to_vec()]);
}

#[test]
fn append_fails_when_index_cannot_hold_an_entry() {
    let config = Config {
        segment: SegmentConfig { max_store_bytes: 1024, max_index_bytes: 11 },
        initial_offset: 0,
    };
    let mut log = Log::new(config);
    assert_eq!(log.append(b"a"), Err(LogError::IndexFull));
    assert_eq!(log.highest_offset(), None);
}

#[test]
fn append_fails_when_no_offset_is_left() {
    let mut config = get_config();
    config.initial_offset = u64::MAX;
    let mut log = Log::new(config);
    assert_eq!(log.append(b"a"), Err(LogError::OffsetOutOfRange));
}

#[test]
fn file_names_are_zero_padded() {
    assert_eq!(store_file_name(0), b"00000000.store".to_vec());
    assert_eq!(index_file_name(42), b"00000042.index".to_vec());
    assert_eq!(store_file_name(123456789), b"123456789.store".to_vec());
}

#[test]
fn file_names_parse_back() {
    assert_eq!(parse_segment_file_name(b"00000042.store"), Some(42));
    assert_eq!(parse_segment_file_name(b"7.index"), Some(7));
    assert_eq!(parse_segment_file_name(b"00000042.log"), None);
    assert_eq!(parse_segment_file_name(b".store"), None);
    assert_eq!(parse_segment_file_name(b"4x2.store"), None);
    assert_eq!(parse_segment_file_name(b"18446744073709551615.store"), Some(u64::MAX));
    assert_eq!(parse_segment_file_name(b"18446744073709551616.store"), None);
}

#[test]
fn directory_listing_gives_sorted_distinct_offsets() {
    let names: Vec<Vec<u8>> = vec![
        b"00000010.store".to_vec(),
        b"00000002.index".to_vec(),
        b"notes.txt".to_vec(),
        b"00000010.index".to_vec(),
        b"00000002.store".to_vec(),
        b"00000000.store".to_vec(),
    ];
    assert_eq!(segment_base_offsets(&names), vec![0, 2, 10]);
    assert_eq!(segment_base_offsets(&vec![]), Vec::<u64>::new());
}
