use rafka::log::segment::{Segment, SegmentFiles};
use rafka::log::StoredSegment;
use rafka::partition::{partition_dir, FetchedMessage, Partition};

fn new_files() -> Vec<StoredSegment> {
    vec![StoredSegment {
        base_offset: 0,
        files: SegmentFiles::empty(),
    }]
}

fn new_partition(base: &str, topic: &str, id: u32) -> Partition {
    Partition::open(base, topic, id, new_files()).unwrap()
}

fn append(p: &mut Partition, payload: &[u8]) -> u64 {
    p.append(payload, SegmentFiles::empty()).unwrap()
}

#[test]
fn append_and_fetch() {
    let mut p = new_partition("append_and_fetch", "events", 0);

    append(&mut p, b"event-a");
    append(&mut p, b"event-b");
    append(&mut p, b"event-c");

    let msgs = p.fetch(0, 10).unwrap();
    assert_eq!(msgs.len(), 3);
    assert_eq!(
        msgs[0],
        FetchedMessage {
            offset: 0,
            payload: b"event-a".to_vec()
        }
    );
    assert_eq!(
        msgs[1],
        FetchedMessage {
            offset: 1,
            payload: b"event-b".to_vec()
        }
    );
    assert_eq!(
        msgs[2],
        FetchedMessage {
            offset: 2,
            payload: b"event-c".to_vec()
        }
    );
}

#[test]
fn fetch_respects_max_messages() {
    let mut p = new_partition("max_messages", "events", 0);

    for i in 0..10u8 {
        append(&mut p, &[i]);
    }

    let msgs = p.fetch(0, 3).unwrap();
    assert_eq!(msgs.len(), 3);
    assert_eq!(msgs[2].offset, 2);
}

#[test]
fn fetch_from_mid_stream() {
    let mut p = new_partition("mid_stream", "events", 0);

    append(&mut p, b"skip-me");
    append(&mut p, b"skip-me-too");
    append(&mut p, b"want-this");

    let msgs = p.fetch(2, 1).unwrap();
    assert_eq!(msgs.len(), 1);
    assert_eq!(msgs[0].payload, b"want-this");
}

#[test]
fn fetch_beyond_hwm_returns_empty() {
    let mut p = new_partition("beyond_hwm", "events", 0);
    append(&mut p, b"only");

    let msgs = p.fetch(99, 10).unwrap();
    assert!(msgs.is_empty());
}

#[test]
fn partition_survives_restart() {
    let files = {
        let mut p = new_partition("partition_restart", "orders", 1);
        append(&mut p, b"order-1");
        append(&mut p, b"order-2");
        p.stored()
    };

    let p = Partition::open("partition_restart", "orders", 1, files).unwrap();
    assert_eq!(p.high_water_mark(), 2);

    let msgs = p.fetch(0, 10).unwrap();
    assert_eq!(msgs.len(), 2);
    assert_eq!(msgs[1].payload, b"order-2");
}

#[test]
fn partition_dir_is_isolated() {
    let mut p0 = new_partition("isolation", "topic", 0);
    let mut p1 = new_partition("isolation", "topic", 1);
    assert_ne!(
        partition_dir("isolation", "topic", 0),
        partition_dir("isolation", "topic", 1)
    );

    append(&mut p0, b"for-p0");
    append(&mut p1, b"for-p1");

    // Each partition has its own offset space starting at 0.
    assert_eq!(p0.fetch(0, 1).unwrap()[0].payload, b"for-p0");
    assert_eq!(p1.fetch(0, 1).unwrap()[0].payload, b"for-p1");
}

#[test]
fn the_high_water_mark_follows_every_append() {
    let mut p = new_partition("data", "events", 0);
    assert_eq!(p.high_water_mark(), 0);
    assert_eq!(p.oldest_offset(), 0);
    for i in 0..5u64 {
        assert_eq!(append(&mut p, b"x"), i);
        assert_eq!(p.high_water_mark(), i + 1);
    }
    assert_eq!(p.oldest_offset(), 0);
}

#[test]
fn a_fetch_of_nothing_is_empty() {
    let mut p = new_partition("data", "events", 0);
    append(&mut p, b"x");
    assert!(p.can_fetch(0, 0));
    assert!(p.fetch(0, 0).unwrap().is_empty());
    assert!(p.fetch(1, 5).unwrap().is_empty());
}

#[test]
fn a_fetch_before_the_oldest_message_is_empty() {
    let mut p = Partition::open(
        "data",
        "events",
        0,
        vec![StoredSegment {
            base_offset: 5,
            files: SegmentFiles::empty(),
        }],
    )
    .unwrap();
    append(&mut p, b"five");
    assert_eq!(p.oldest_offset(), 5);
    assert!(p.fetch(0, 10).unwrap().is_empty());
    assert_eq!(p.fetch(5, 10).unwrap().len(), 1);
}

#[test]
fn pages_make_up_the_whole() {
    let mut p = new_partition("data", "events", 0);
    for i in 0..10u8 {
        append(&mut p, &[i]);
    }
    let whole = p.fetch(2, 6).unwrap();
    let first = p.fetch(2, 4).unwrap();
    let second = p.fetch(first[first.len() - 1].offset + 1, 2).unwrap();
    let mut pages = first;
    pages.extend(second);
    assert_eq!(pages, whole);
}

#[test]
fn a_fetch_stops_where_the_index_has_no_entry() {
    let mut segment = Segment::open(SegmentFiles::empty(), 0, 1024).unwrap();
    segment.append(b"indexed");
    let index = segment.files().index;
    segment.append(b"not indexed");
    let p = Partition::open(
        "data",
        "events",
        0,
        vec![StoredSegment {
            base_offset: 0,
            files: SegmentFiles {
                log: segment.files().log,
                index,
            },
        }],
    )
    .unwrap();
    assert_eq!(p.high_water_mark(), 2);
    let msgs = p.fetch(0, 10).unwrap();
    assert_eq!(msgs.len(), 1);
    assert_eq!(msgs[0].payload, b"indexed");
}

#[test]
fn directories_of_partitions() {
    assert_eq!(partition_dir("data", "orders", 12), "data/orders/12");
    assert_eq!(partition_dir("/var/data/", "orders", 0), "/var/data/orders/0");
    assert_eq!(partition_dir("", "orders", 0), "orders/0");
    assert_eq!(partition_dir("data", "/elsewhere", 3), "/elsewhere/3");
    assert_eq!(partition_dir("data", "", 3), "data/3");
}

#[test]
fn directories_are_kept_apart() {
    let mut dirs = Vec::new();
    for topic in ["", "a", "b", "a/b", "0", "a/0"] {
        for id in [0, 1, 10, 101] {
            dirs.push(partition_dir("data", topic, id));
        }
    }
    for (i, dir) in dirs.iter().enumerate() {
        assert!(!dirs[i + 1..].contains(dir), "{dir} is used twice");
    }
}
