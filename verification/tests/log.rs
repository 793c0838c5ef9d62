use rafka::error::ErrorKind;
use rafka::log::index::Index;
use rafka::log::names::{base_offset_of, index_file_name, log_file_name};
use rafka::log::segment::{Segment, SegmentFiles};
use rafka::log::{Log, Opening, StoredSegment, DEFAULT_MAX_SEGMENT_BYTES};

fn new_segment() -> Segment {
    Segment::open(SegmentFiles::empty(), 0, 1024 * 1024).unwrap()
}

fn first_segment() -> Vec<StoredSegment> {
    vec![StoredSegment {
        base_offset: 0,
        files: SegmentFiles::empty(),
    }]
}

fn new_log() -> Log {
    Log::open("data", first_segment()).unwrap()
}

fn append(log: &mut Log, payload: &[u8]) -> u64 {
    assert!(log.can_append(payload, &SegmentFiles::empty()));
    log.append(payload, SegmentFiles::empty()).unwrap()
}

// ── Index ────────────────────────────────────────────────────────────────────

#[test]
fn append_and_lookup() {
    let mut idx = Index::open(Vec::new(), 0);

    idx.append(0, 0);
    idx.append(1, 23);
    idx.append(2, 46);

    assert_eq!(idx.lookup(0), Some(0));
    assert_eq!(idx.lookup(1), Some(23));
    assert_eq!(idx.lookup(2), Some(46));
}

#[test]
fn lookup_missing_returns_none() {
    let mut idx = Index::open(Vec::new(), 0);

    idx.append(0, 0);

    assert_eq!(idx.lookup(99), None);
}

#[test]
fn non_zero_base_offset() {
    let mut idx = Index::open(Vec::new(), 1000);

    idx.append(1000, 0);
    idx.append(1001, 50);
    idx.append(1002, 100);

    assert_eq!(idx.lookup(1001), Some(50));
}

#[test]
fn index_survives_restart() {
    let file = {
        let mut idx = Index::open(Vec::new(), 0);
        idx.append(0, 0);
        idx.append(1, 23);
        idx.bytes().to_vec()
    };
    let idx = Index::open(file, 0);
    assert_eq!(idx.entries, 2);
    assert_eq!(idx.lookup(1), Some(23));
}

#[test]
fn index_entry_bytes() {
    let mut idx = Index::open(Vec::new(), 1000);
    idx.append(1258, 0x0304);
    assert_eq!(idx.bytes(), vec![0, 0, 1, 2, 0, 0, 0, 0, 0, 0, 3, 4]);
}

#[test]
fn lookup_outside_the_index_is_none() {
    let mut idx = Index::open(Vec::new(), 1000);
    assert_eq!(idx.lookup(1000), None);
    idx.append(1000, 7);
    assert_eq!(idx.lookup(999), None);
    assert_eq!(idx.lookup(1000 + (1u64 << 32)), None);
    assert_eq!(idx.lookup(1001), None);
    assert_eq!(idx.lookup(1000), Some(7));
}

#[test]
fn trailing_bytes_of_an_index_are_no_entry() {
    let mut idx = Index::open(Vec::new(), 0);
    idx.append(0, 5);
    let mut file = idx.bytes().to_vec();
    file.extend_from_slice(&[1, 2, 3]);
    assert_eq!(Index::open(file, 0).entries, 1);
}

#[test]
fn lookup_in_a_long_index() {
    let mut idx = Index::open(Vec::new(), 10);
    for i in 0..100u64 {
        idx.append(10 + i * 2, i);
    }
    for i in 0..100u64 {
        assert_eq!(idx.lookup(10 + i * 2), Some(i));
        assert_eq!(idx.lookup(11 + i * 2), None);
    }
}

// ── Segment ──────────────────────────────────────────────────────────────────

#[test]
fn segment_append_and_read() {
    let mut seg = new_segment();

    let offset = seg.append(b"hello world");
    assert_eq!(offset, 0);

    let msg = seg.read_at(0).unwrap().unwrap();
    assert_eq!(msg, b"hello world");
}

#[test]
fn offsets_increment() {
    let mut seg = new_segment();

    assert_eq!(seg.append(b"first"), 0);
    assert_eq!(seg.append(b"second"), 1);
    assert_eq!(seg.append(b"third"), 2);
}

#[test]
fn read_nonexistent_offset_returns_none() {
    let mut seg = new_segment();
    seg.append(b"only message");

    assert!(seg.read_at(99).unwrap().is_none());
}

#[test]
fn segment_survives_restart() {
    let files = {
        let mut seg = new_segment();
        seg.append(b"before restart");
        seg.append(b"also before");
        seg.files()
    };

    // Re-open simulates a broker restart.
    let seg = Segment::open(files, 0, 1024 * 1024).unwrap();
    assert_eq!(seg.next_offset, 2); // picks up where it left off

    let msg = seg.read_at(0).unwrap().unwrap();
    assert_eq!(msg, b"before restart");
}

#[test]
fn segment_frame_bytes() {
    let mut seg = Segment::open(SegmentFiles::empty(), 258, 100).unwrap();
    assert_eq!(seg.append(b"hi"), 258);
    assert_eq!(
        seg.files().log,
        vec![0, 0, 0, 10, 0, 0, 0, 0, 0, 0, 1, 2, b'h', b'i']
    );
    assert_eq!(seg.size, 14);
    assert_eq!(seg.next_offset, 259);
}

#[test]
fn segment_is_full_at_its_limit() {
    let mut seg = Segment::open(SegmentFiles::empty(), 0, 14).unwrap();
    assert!(!seg.is_full());
    seg.append(b"x");
    assert!(!seg.is_full());
    seg.append(b"");
    assert!(seg.is_full());
    assert!(Segment::open(SegmentFiles::empty(), 0, 0).unwrap().is_full());
}

#[test]
fn empty_payload_is_read_back() {
    let mut seg = new_segment();
    seg.append(b"");
    assert_eq!(seg.read_at(0).unwrap().unwrap(), b"");
}

#[test]
fn a_torn_frame_header_is_an_error() {
    let files = SegmentFiles {
        log: vec![0, 0, 0, 10, 0, 0],
        index: Vec::new(),
    };
    assert!(Segment::is_scannable(&files.log));
    let e = match Segment::open(files, 0, 100) {
        Ok(_) => panic!("a torn frame was accepted"),
        Err(e) => e,
    };
    assert_eq!(e.kind, ErrorKind::UnexpectedEof);
    assert_eq!(e.message, "failed to fill whole buffer");
}

#[test]
fn a_torn_length_field_ends_the_scan() {
    let mut seg = new_segment();
    seg.append(b"a");
    let mut log = seg.files().log;
    log.extend_from_slice(&[0, 0]);
    assert_eq!(Segment::recover_next_offset(&log, 0).unwrap(), 1);
}

#[test]
fn a_payload_cut_short_still_counts_its_offset() {
    let mut seg = new_segment();
    seg.append(b"complete");
    seg.append(b"cut short");
    let mut log = seg.files().log;
    log.truncate(log.len() - 4);
    assert_eq!(Segment::recover_next_offset(&log, 0).unwrap(), 2);
    let cut = Segment::open(
        SegmentFiles {
            log,
            index: seg.files().index,
        },
        0,
        1024,
    )
    .unwrap();
    assert_eq!(cut.read_at(0).unwrap().unwrap(), b"complete");
    assert_eq!(cut.read_at(1).unwrap_err().kind, ErrorKind::UnexpectedEof);
}

#[test]
fn a_frame_too_short_for_its_offset_cannot_be_scanned() {
    let log = vec![0, 0, 0, 7, 0, 0, 0, 0, 0, 0, 0, 0];
    assert!(!Segment::is_scannable(&log));
}

#[test]
fn an_index_that_points_past_the_log_reads_nothing() {
    let mut idx = Index::open(Vec::new(), 0);
    idx.append(0, 1000);
    let seg = Segment::open(
        SegmentFiles {
            log: Vec::new(),
            index: idx.bytes().to_vec(),
        },
        0,
        100,
    )
    .unwrap();
    assert!(seg.can_read(0));
    assert!(seg.read_at(0).unwrap().is_none());
}

#[test]
fn an_index_that_points_at_a_short_frame_is_not_readable() {
    let mut idx = Index::open(Vec::new(), 0);
    idx.append(0, 12);
    let seg = Segment::open(
        SegmentFiles {
            log: vec![0, 0, 0, 20, 0, 0, 0, 0, 0, 0, 0, 0, 0, 0, 0, 1, 0, 0, 0, 0, 0, 0, 0, 0],
            index: idx.bytes().to_vec(),
        },
        0,
        100,
    )
    .unwrap();
    assert!(!seg.can_read(0));
}

// ── Log ──────────────────────────────────────────────────────────────────────

#[test]
fn mod_append_and_read() {
    let mut log = new_log();

    assert_eq!(append(&mut log, b"first"), 0);
    assert_eq!(append(&mut log, b"second"), 1);

    assert_eq!(log.read(0).unwrap().unwrap(), b"first");
    assert_eq!(log.read(1).unwrap().unwrap(), b"second");
}

#[test]
fn missing_offset_returns_none() {
    let mut log = new_log();
    append(&mut log, b"only");

    assert!(log.read(99).unwrap().is_none());
}

#[test]
fn segment_rollover() {
    // Each frame = 4 (len) + 8 (offset) + payload. "msgN" payload = 4 bytes → 16 bytes/frame.
    // max_bytes = 32 means the segment is full after exactly 2 messages.
    // The fullness check fires before the 3rd append, triggering rollover.
    let mut log = Log::open_with_max_bytes("data", first_segment(), 32).unwrap();

    append(&mut log, b"msg0"); // frame = 16 bytes, size = 16
    append(&mut log, b"msg1"); // frame = 16 bytes, size = 32 → full
    append(&mut log, b"msg2"); // is_full() = true → rollover, then write

    assert_eq!(log.segment_count(), 2);
    assert_eq!(log.read(2).unwrap().unwrap(), b"msg2");
}

#[test]
fn read_across_segments() {
    // Single-byte payloads: frame = 4 + 8 + 1 = 13 bytes. max_bytes = 26 → full after 2.
    let mut log = Log::open_with_max_bytes("data", first_segment(), 26).unwrap();

    append(&mut log, b"a"); // offset 0, segment 0, size = 13
    append(&mut log, b"b"); // offset 1, segment 0, size = 26 → full
    append(&mut log, b"c"); // offset 2, segment 1

    assert_eq!(log.read(0).unwrap().unwrap(), b"a");
    assert_eq!(log.read(1).unwrap().unwrap(), b"b");
    assert_eq!(log.read(2).unwrap().unwrap(), b"c");
}

#[test]
fn mod_survives_restart() {
    let files = {
        let mut log = new_log();
        append(&mut log, b"persisted");
        log.stored()
    };
    let log = Log::open("data", files).unwrap();
    assert_eq!(log.next_offset(), 1);
    assert_eq!(log.read(0).unwrap().unwrap(), b"persisted");
}

#[test]
fn many_segments_survive_restart() {
    let mut log = Log::open_with_max_bytes("data", first_segment(), 26).unwrap();
    for i in 0..9u8 {
        assert_eq!(append(&mut log, &[i]), i as u64);
    }
    assert_eq!(log.segment_count(), 5);
    let again = Log::open_with_max_bytes("data", log.stored(), 26).unwrap();
    assert_eq!(again.segment_count(), 5);
    assert_eq!(again.next_offset(), 9);
    assert_eq!(again.oldest_offset(), 0);
    for i in 0..9u8 {
        assert_eq!(again.read(i as u64).unwrap().unwrap(), vec![i]);
    }
}

#[test]
fn offsets_before_the_oldest_are_none() {
    let log = Log::open(
        "data",
        vec![StoredSegment {
            base_offset: 40,
            files: SegmentFiles::empty(),
        }],
    )
    .unwrap();
    assert_eq!(log.oldest_offset(), 40);
    assert_eq!(log.next_offset(), 40);
    assert!(log.read(39).unwrap().is_none());
    assert!(log.read(0).unwrap().is_none());
}

#[test]
fn staged_bytes_are_what_an_append_adds() {
    let mut log = Log::open_with_max_bytes("data", first_segment(), 26).unwrap();
    for i in 0..7u8 {
        let spare = SegmentFiles::empty();
        let roll = log.roll_base();
        let write = log.stage(&[i, i], &spare).unwrap();
        let before: Vec<StoredSegment> = log.stored();
        append(&mut log, &[i, i]);
        let after = log.stored();
        let last = &after[after.len() - 1];
        assert_eq!(last.base_offset, write.base_offset);
        match roll {
            Some(base) => {
                assert_eq!(base, write.base_offset);
                assert_eq!(after.len(), before.len() + 1);
                assert_eq!(last.files.log, write.frame);
                assert_eq!(last.files.index, write.entry);
            }
            None => {
                assert_eq!(after.len(), before.len());
                let was = &before[before.len() - 1];
                assert_eq!(last.files.log, [was.files.log.clone(), write.frame].concat());
                assert_eq!(last.files.index, [was.files.index.clone(), write.entry].concat());
            }
        }
    }
}

#[test]
fn a_full_log_rolls_onto_files_already_there() {
    let mut log = Log::open_with_max_bytes("data", first_segment(), 12).unwrap();
    append(&mut log, b"");
    let mut found = Segment::open(SegmentFiles::empty(), 1, 12).unwrap();
    found.append(b"left over");
    let spare = found.files();
    assert!(log.can_append(b"next", &spare));
    assert_eq!(log.append(b"next", spare).unwrap(), 2);
    assert_eq!(log.read(1).unwrap().unwrap(), b"left over");
    assert_eq!(log.read(2).unwrap().unwrap(), b"next");
}

#[test]
fn a_full_log_cannot_roll_onto_a_torn_file() {
    let mut log = Log::open_with_max_bytes("data", first_segment(), 12).unwrap();
    append(&mut log, b"");
    let torn = SegmentFiles {
        log: vec![0, 0, 0, 9, 1],
        index: Vec::new(),
    };
    assert!(log.can_append(b"next", &torn));
    assert!(log.stage(b"next", &torn).is_err());
    assert_eq!(log.append(b"next", torn).unwrap_err().kind, ErrorKind::UnexpectedEof);
    assert_eq!(log.segment_count(), 1);
    assert_eq!(log.next_offset(), 1);
}

#[test]
fn no_offset_is_left_after_the_last() {
    let log = Log::open(
        "data",
        vec![StoredSegment {
            base_offset: u64::MAX,
            files: SegmentFiles::empty(),
        }],
    )
    .unwrap();
    assert!(!log.can_append(b"x", &SegmentFiles::empty()));
}

#[test]
fn probing_tells_how_opening_ends() {
    let torn = vec![StoredSegment {
        base_offset: 0,
        files: SegmentFiles {
            log: vec![0, 0, 0, 9, 1],
            index: Vec::new(),
        },
    }];
    let broken = vec![StoredSegment {
        base_offset: 0,
        files: SegmentFiles {
            log: vec![0, 0, 0, 1, 0, 0, 0, 0, 0, 0, 0, 0],
            index: Vec::new(),
        },
    }];
    assert!(Log::probe(&first_segment(), DEFAULT_MAX_SEGMENT_BYTES) == Opening::Opens);
    assert!(Log::probe(&torn, DEFAULT_MAX_SEGMENT_BYTES) == Opening::Fails);
    assert!(Log::probe(&broken, DEFAULT_MAX_SEGMENT_BYTES) == Opening::Unreadable);
    assert!(Log::open("data", torn).is_err());
}

#[test]
fn default_segments_are_one_gibibyte() {
    assert_eq!(DEFAULT_MAX_SEGMENT_BYTES, 1_073_741_824);
}

// ── Names ────────────────────────────────────────────────────────────────────

#[test]
fn file_names_are_zero_padded() {
    assert_eq!(log_file_name(0), "00000000000000000000.log");
    assert_eq!(index_file_name(1048576), "00000000000001048576.index");
    assert_eq!(log_file_name(u64::MAX), "18446744073709551615.log");
}

#[test]
fn alphabetical_order_is_offset_order() {
    let offsets = [0u64, 1, 9, 10, 99, 1048576, 10_000_000_000, u64::MAX];
    for pair in offsets.windows(2) {
        assert!(log_file_name(pair[0]) < log_file_name(pair[1]));
        assert!(index_file_name(pair[0]) < index_file_name(pair[1]));
    }
}

#[test]
fn names_give_base_offsets_back() {
    assert_eq!(base_offset_of("00000000000001048576.log"), Some(1048576));
    assert_eq!(base_offset_of("00000000000001048576.index"), None);
    assert_eq!(base_offset_of("7.log"), Some(7));
    assert_eq!(base_offset_of("+7.log"), Some(7));
    assert_eq!(base_offset_of("7.log.log"), Some(7));
    assert_eq!(base_offset_of(".log"), None);
    assert_eq!(base_offset_of("seven.log"), None);
    assert_eq!(base_offset_of("18446744073709551615.log"), Some(u64::MAX));
    assert_eq!(base_offset_of("18446744073709551616.log"), None);
    assert_eq!(base_offset_of("-1.log"), None);
    assert_eq!(base_offset_of("+.log"), None);
    assert_eq!(base_offset_of("log"), None);
}

#[test]
fn a_directory_in_any_order_gives_its_segments() {
    let names: Vec<String> = vec![
        index_file_name(20),
        log_file_name(20),
        log_file_name(3),
        index_file_name(0),
        "notes.txt".to_string(),
        log_file_name(0),
        index_file_name(3),
    ];
    assert_eq!(Log::base_offsets(&names), vec![0, 3, 20]);
    assert_eq!(Log::base_offsets(&Vec::new()), vec![0]);
    assert_eq!(Log::base_offsets(&vec!["notes.txt".to_string()]), vec![0]);
}

#[test]
fn an_index_that_points_where_no_file_reaches_is_an_error() {
    let segment = |position: u64| {
        let mut idx = Index::open(Vec::new(), 0);
        idx.append(0, position);
        let files = SegmentFiles {
            log: vec![0, 0, 0, 8, 0, 0, 0, 0, 0, 0, 0, 0],
            index: idx.bytes().to_vec(),
        };
        Segment::open(files, 0, 100).unwrap()
    };
    assert!(segment(u64::MAX).can_read(0));
    assert_eq!(segment(1 << 63).read_at(0).unwrap_err().kind, ErrorKind::InvalidInput);
    assert_eq!(segment(u64::MAX).read_at(0).unwrap_err().kind, ErrorKind::InvalidInput);
    assert_eq!(segment((1 << 63) - 1).read_at(0), Ok(None));
    assert_eq!(segment(0).read_at(0), Ok(Some(Vec::new())));
}

#[test]
fn a_full_segment_with_offsets_below_its_base_rolls_back() {
    let mut early = Segment::open(SegmentFiles::empty(), 2, 12).unwrap();
    early.append(b"");
    let damaged = StoredSegment {
        base_offset: 100,
        files: early.files(),
    };
    let mut log = Log::open_with_max_bytes("data", vec![damaged], 12).unwrap();
    assert_eq!(log.next_offset(), 3);
    assert_eq!(log.roll_base(), Some(3));
    assert_eq!(append(&mut log, b"x"), 3);
    assert_eq!(log.segment_count(), 2);
    assert_eq!(log.read(3).unwrap().unwrap(), b"x");
    assert_eq!(append(&mut log, b"y"), 4);
    assert_eq!(log.read(4).unwrap().unwrap(), b"y");
    assert_eq!(log.read(3).unwrap().unwrap(), b"x");
}

#[test]
fn a_segment_with_offsets_below_its_base_takes_no_message() {
    let mut early = Segment::open(SegmentFiles::empty(), 2, 1024).unwrap();
    early.append(b"");
    let damaged = StoredSegment {
        base_offset: 100,
        files: early.files(),
    };
    let log = Log::open("data", vec![damaged]).unwrap();
    assert!(!log.can_append(b"x", &SegmentFiles::empty()));
}

#[test]
fn restart_with_another_segment_size_keeps_the_messages() {
    let mut log = Log::open_with_max_bytes("data", first_segment(), 26).unwrap();
    for i in 0..9u8 {
        append(&mut log, &[i]);
    }
    for size in [1, 13, 39, 1 << 20] {
        let again = Log::open_with_max_bytes("data", log.stored(), size).unwrap();
        assert_eq!(again.segment_count(), log.segment_count());
        assert_eq!(again.next_offset(), 9);
        for i in 0..10u64 {
            assert_eq!(again.read(i), log.read(i));
        }
    }
}
