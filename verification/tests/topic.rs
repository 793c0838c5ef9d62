use std::collections::hash_map::DefaultHasher;
use std::collections::HashSet;
use std::hash::{Hash, Hasher};

use rafka::error::ErrorKind;
use rafka::log::segment::SegmentFiles;
use rafka::log::{Opening, StoredSegment, DEFAULT_MAX_SEGMENT_BYTES};
use rafka::topic::{hash_key, partition_for, Topic};

fn new_files(n: u32) -> Vec<Vec<StoredSegment>> {
    (0..n)
        .map(|_| {
            vec![StoredSegment {
                base_offset: 0,
                files: SegmentFiles::empty(),
            }]
        })
        .collect()
}

fn new_topic(base: &str, name: &str, n: u32) -> Topic {
    Topic::open(base, name, n, Vec::new()).unwrap()
}

/// One message of just the size that fills a segment.
fn full_partition() -> Vec<StoredSegment> {
    let size = DEFAULT_MAX_SEGMENT_BYTES as usize;
    let mut log = vec![0; size];
    log[..4].copy_from_slice(&((size - 4) as u32).to_be_bytes());
    vec![StoredSegment {
        base_offset: 0,
        files: SegmentFiles {
            log,
            index: vec![0; 12],
        },
    }]
}

fn produce(topic: &mut Topic, key: Option<&[u8]>, payload: &[u8]) -> (u32, u64) {
    assert!(topic.can_produce(key, payload, &SegmentFiles::empty()));
    topic.produce(key, payload, SegmentFiles::empty()).unwrap()
}

#[test]
fn produce_and_fetch() {
    let mut topic = new_topic("produce_and_fetch", "clicks", 3);

    let (pid, offset) = produce(&mut topic, Some(b"user-1"), b"click-a");
    let msgs = topic.fetch(pid, offset, 1).unwrap();

    assert_eq!(msgs.len(), 1);
    assert_eq!(msgs[0].payload, b"click-a");
}

#[test]
fn same_key_same_partition() {
    let mut topic = new_topic("same_key", "events", 4);

    let mut partitions_seen = HashSet::new();
    for _ in 0..10 {
        let (pid, _) = produce(&mut topic, Some(b"stable-key"), b"data");
        partitions_seen.insert(pid);
    }

    // All 10 produces landed on exactly one partition.
    assert_eq!(partitions_seen.len(), 1);
}

#[test]
fn keyless_produces_distribute() {
    let mut topic = new_topic("keyless", "logs", 3);

    // Produce enough messages that we expect to hit multiple partitions.
    for _ in 0..12 {
        produce(&mut topic, None, b"log-line");
    }

    // Every partition should have received at least one message.
    for pid in 0..3 {
        assert!(
            topic.high_water_mark(pid).unwrap() > 0,
            "partition {pid} received no messages"
        );
    }
}

#[test]
fn fetch_invalid_partition_errors() {
    let topic = new_topic("invalid_partition", "t", 2);
    let result = topic.fetch(99, 0, 1);
    assert!(result.is_err());
}

#[test]
fn topic_survives_restart() {
    let files = {
        let mut topic = new_topic("topic_restart", "orders", 2);
        produce(&mut topic, Some(b"k1"), b"order-A");
        produce(&mut topic, Some(b"k1"), b"order-B");
        topic.stored()
    };

    let topic = Topic::open("topic_restart", "orders", 2, files).unwrap();
    // k1 always maps to the same partition — fetch from it.
    let mut h = DefaultHasher::new();
    b"k1".hash(&mut h);
    let pid = (h.finish() % 2) as u32;

    let msgs = topic.fetch(pid, 0, 10).unwrap();
    assert_eq!(msgs.len(), 2);
    assert_eq!(msgs[0].payload, b"order-A");
}

#[test]
fn keys_are_hashed_as_slices() {
    for key in [&b""[..], b"a", b"user-42", b"a much longer key, well over one block"] {
        let mut h = DefaultHasher::new();
        key.hash(&mut h);
        assert_eq!(hash_key(key), h.finish());
    }
    assert_ne!(hash_key(b"a"), hash_key(b"b"));
}

#[test]
fn a_key_goes_where_its_hash_says() {
    let mut topic = new_topic("data", "t", 5);
    for key in [&b"x"[..], b"y", b"z"] {
        let mut h = DefaultHasher::new();
        key.hash(&mut h);
        let (pid, _) = produce(&mut topic, Some(key), b"");
        assert_eq!(pid as u64, h.finish() % 5);
    }
}

#[test]
fn partition_for_is_the_remainder() {
    assert_eq!(partition_for(10, 3), 1);
    assert_eq!(partition_for(9, 3), 0);
    assert_eq!(partition_for(u64::MAX, 1), 0);
}

#[test]
fn keyless_messages_rotate() {
    let mut topic = new_topic("data", "t", 3);
    let places: Vec<(u32, u64)> = (0..7).map(|_| produce(&mut topic, None, b"m")).collect();
    assert_eq!(
        places,
        vec![(0, 0), (1, 0), (2, 0), (0, 1), (1, 1), (2, 1), (0, 2)]
    );
}

#[test]
fn keyless_routing_counts_all_messages() {
    let mut topic = new_topic("data", "t", 3);
    produce(&mut topic, Some(b"k"), b"m");
    assert_eq!(produce(&mut topic, None, b"m").0, 1);
    assert_eq!(produce(&mut topic, None, b"m").0, 2);
}

#[test]
fn order_per_key_survives_other_messages() {
    let mut topic = new_topic("data", "t", 4);
    let first = produce(&mut topic, Some(b"k"), b"1");
    for _ in 0..9 {
        produce(&mut topic, None, b"other");
    }
    let second = produce(&mut topic, Some(b"k"), b"2");
    assert_eq!(first.0, second.0);
    assert!(first.1 < second.1);
}

#[test]
fn unknown_partitions_are_named_in_the_error() {
    let topic = new_topic("data", "t", 2);
    let e = topic.fetch(2, 0, 1).unwrap_err();
    assert_eq!(e.kind, ErrorKind::InvalidInput);
    assert_eq!(e.message, "partition 2 does not exist (topic has 2)");
    let e = topic.high_water_mark(10).unwrap_err();
    assert_eq!(e.kind, ErrorKind::InvalidInput);
    assert_eq!(e.message, "partition 10 does not exist (topic has 2)");
}

#[test]
fn a_new_topic_is_empty() {
    let topic = new_topic("data", "t", 3);
    assert_eq!(topic.partition_count(), 3);
    for id in 0..3 {
        assert_eq!(topic.high_water_mark(id).unwrap(), 0);
    }
}

#[test]
fn a_topic_without_partitions_cannot_route() {
    let topic = new_topic("data", "t", 0);
    assert!(!topic.can_route(None));
    assert!(!topic.can_route(Some(b"k")));
    assert!(!topic.can_produce(None, b"", &SegmentFiles::empty()));
}

#[test]
fn a_count_beyond_sixty_four_bits_cannot_rotate() {
    let files = (0..2)
        .map(|_| {
            vec![StoredSegment {
                base_offset: u64::MAX,
                files: SegmentFiles::empty(),
            }]
        })
        .collect();
    let topic = Topic::open("data", "t", 2, files).unwrap();
    assert!(!topic.can_route(None));
    assert!(topic.can_route(Some(b"k")));
}

#[test]
fn restart_keeps_the_turn() {
    let mut topic = new_topic("data", "t", 3);
    produce(&mut topic, None, b"a");
    produce(&mut topic, None, b"b");
    let mut again = Topic::open("data", "t", 3, topic.stored()).unwrap();
    assert_eq!(produce(&mut again, None, b"c"), (2, 0));
}

#[test]
fn a_topic_with_a_torn_segment_does_not_open() {
    let mut files = new_files(2);
    files[1][0].files.log = vec![0, 0, 0, 9, 1];
    assert!(Topic::probe("data", "t", &files) == Opening::Fails);
    match Topic::open("data", "t", 2, files) {
        Ok(_) => panic!("a torn segment was accepted"),
        Err(e) => assert_eq!(e.message, "failed to fill whole buffer"),
    }
    let mut broken = new_files(2);
    broken[0][0].files.log = vec![0, 0, 0, 1, 0, 0, 0, 0, 0, 0, 0, 0];
    assert!(Topic::probe("data", "t", &broken) == Opening::Unreadable);
    assert!(Topic::probe("data", "t", &new_files(2)) == Opening::Opens);
}

#[test]
fn a_full_partition_names_the_segment_to_roll_to() {
    let mut topic = Topic::open("data", "t", 1, vec![full_partition()]).unwrap();
    assert_eq!(topic.high_water_mark(0).unwrap(), 1);
    assert_eq!(topic.roll_for(None), Some(("data/t/0".to_string(), 1)));
    let (dir, write) = topic.stage(None, b"x", &SegmentFiles::empty()).unwrap();
    assert_eq!(dir, "data/t/0");
    assert_eq!(write.base_offset, 1);
    assert_eq!(produce(&mut topic, None, b"x"), (0, 1));
    assert_eq!(topic.roll_for(None), None);
    assert_eq!(topic.fetch(0, 1, 5).unwrap()[0].payload, b"x");
}

#[test]
fn existing_partitions_are_opened_as_they_are() {
    let mut topic = new_topic("data", "t", 3);
    for i in 0..6u8 {
        produce(&mut topic, None, &[i]);
    }
    for asked in [0, 1, 2, 3, 5] {
        let again = Topic::open("data", "t", asked, topic.stored()).unwrap();
        assert_eq!(again.partition_count(), 3);
        for id in 0..3 {
            assert_eq!(again.fetch(id, 0, 10).unwrap(), topic.fetch(id, 0, 10).unwrap());
        }
    }
}

#[test]
fn an_empty_topic_keeps_its_number_of_partitions() {
    let topic = Topic::open("data", "t", 3, Vec::new()).unwrap();
    assert_eq!(topic.partition_count(), 3);
    let again = Topic::open("data", "t", 5, topic.stored()).unwrap();
    assert_eq!(again.partition_count(), 3);
}

#[test]
fn opening_keeps_the_files() {
    let mut topic = new_topic("data", "t", 2);
    for i in 0..5u8 {
        produce(&mut topic, None, &[i; 3]);
    }
    let mut stored = topic.stored();
    stored[0][0].files.log.extend_from_slice(&[0, 0]);
    stored[1][0].files.index.push(7);
    let again = Topic::open("data", "t", 2, stored).unwrap().stored();
    assert_eq!(again.len(), 2);
    let was = topic.stored();
    assert_eq!(again[0][0].files.log, [was[0][0].files.log.clone(), vec![0, 0]].concat());
    assert_eq!(again[0][0].files.index, was[0][0].files.index);
    assert_eq!(again[1][0].files.log, was[1][0].files.log);
    assert_eq!(again[1][0].files.index, [was[1][0].files.index.clone(), vec![7]].concat());
    let new = new_topic("data", "t", 2).stored();
    assert_eq!(new.len(), 2);
    assert_eq!(new[1].len(), 1);
    assert_eq!(new[1][0].base_offset, 0);
    assert!(new[1][0].files.log.is_empty() && new[1][0].files.index.is_empty());
}
