use std::collections::{BTreeMap, BTreeSet};

use rafka::broker::{count_partitions, disk_failure, Broker, Found, Need, StoredTopic};
use rafka::client::{
    broker_error, create_topic_request, create_topic_result, fetch_request, fetch_result,
    produce_request, produce_result, read_reply, unexpected_response, Message,
};
use rafka::error::{Error, ErrorKind};
use rafka::log::names::{index_file_name, log_file_name};
use rafka::log::segment::SegmentFiles;
use rafka::log::{Log, Opening, StoredSegment, DEFAULT_MAX_SEGMENT_BYTES};
use rafka::partition::{partition_dir, partition_within, topic_dir};
use rafka::protocol::{FetchedWireMessage, Request, Response};

/// Files by directory and name.
#[derive(Default)]
struct Disk {
    dirs: BTreeMap<String, BTreeMap<String, Vec<u8>>>,
}

impl Disk {
    fn file(&mut self, dir: &str, name: String) -> &mut Vec<u8> {
        self.dirs
            .entry(dir.to_string())
            .or_default()
            .entry(name)
            .or_default()
    }

    fn segment(&mut self, dir: &str, base_offset: u64) -> SegmentFiles {
        SegmentFiles {
            log: self.file(dir, log_file_name(base_offset)).clone(),
            index: self.file(dir, index_file_name(base_offset)).clone(),
        }
    }

    fn partition(&mut self, dir: &str) -> Vec<StoredSegment> {
        let names: Vec<String> = match self.dirs.get(dir) {
            Some(files) => files.keys().rev().cloned().collect(),
            None => Vec::new(),
        };
        Log::base_offsets(&names)
            .into_iter()
            .map(|base_offset| StoredSegment {
                base_offset,
                files: self.segment(dir, base_offset),
            })
            .collect()
    }

    fn partitions_in(&self, dir: &str) -> u32 {
        let prefix = format!("{dir}/");
        let entries: Vec<bool> = self.dirs.keys().map(|d| d.starts_with(&prefix)).collect();
        count_partitions(&entries)
    }

    /// The topics under `data_dir`, the last name first.
    fn topics(&mut self, data_dir: &str) -> Vec<StoredTopic> {
        let prefix = format!("{data_dir}/");
        let names: BTreeSet<String> = self
            .dirs
            .keys()
            .filter_map(|dir| dir.strip_prefix(&prefix))
            .map(|rest| rest.split('/').next().unwrap().to_string())
            .collect();
        names
            .into_iter()
            .rev()
            .map(|name| {
                let n = self.partitions_in(&topic_dir(data_dir, &name));
                let partitions = (0..n)
                    .map(|id| self.partition(&partition_dir(data_dir, &name, id)))
                    .collect();
                StoredTopic { name, partitions }
            })
            .collect()
    }

    fn open(&mut self, data_dir: &str) -> Broker {
        let stored = self.topics(data_dir);
        assert!(Broker::probe(data_dir, &stored) == Opening::Opens);
        Broker::open(data_dir, stored).unwrap()
    }
}

/// Whether the broker has a topic of that name.
fn has_topic(broker: &Broker, name: &str) -> bool {
    broker.needs(&create_topic_request(name, 1)) == Need::Nothing
}

/// Serve one request, with its disk work.
fn handle(broker: &mut Broker, disk: &mut Disk, request: Request) -> Response {
    let found = match broker.needs(&request) {
        Need::Nothing => Found::nothing(),
        Need::Segment { dir, base_offset } => Found {
            segment: disk.segment(&dir, base_offset),
            partitions: Vec::new(),
        },
        Need::Topic { dir, new_partitions } => {
            let count = disk.partitions_in(&dir);
            if count == 0 {
                for new in &new_partitions {
                    disk.partition(new);
                }
            }
            Found {
                segment: SegmentFiles::empty(),
                partitions: (0..count)
                    .map(|id| disk.partition(&partition_within(&dir, id)))
                    .collect(),
            }
        }
    };
    if let Some((dir, write)) = broker.plan(&request, &found) {
        disk.file(&dir, log_file_name(write.base_offset))
            .extend_from_slice(&write.frame);
        disk.file(&dir, index_file_name(write.base_offset))
            .extend_from_slice(&write.entry);
    }
    broker.serve(request, found).unwrap()
}

/// Serve one request that comes and goes as bytes.
fn roundtrip(broker: &mut Broker, disk: &mut Disk, request: Request) -> Response {
    let mut sent = Vec::new();
    request.write_to(&mut sent);
    let received = Request::read_from(&mut sent.as_slice()).unwrap().unwrap();
    let response = handle(broker, disk, received);
    let mut answer = Vec::new();
    response.write_to(&mut answer);
    read_reply(&mut answer.as_slice()).unwrap()
}

/// A client on a connection of its own to a broker.
struct Connection {
    broker: Broker,
    disk: Disk,
}

impl Connection {
    fn open(data_dir: &str) -> Connection {
        let mut disk = Disk::default();
        let broker = disk.open(data_dir);
        Connection { broker, disk }
    }

    fn send(&mut self, request: Request) -> Response {
        roundtrip(&mut self.broker, &mut self.disk, request)
    }

    fn create_topic(&mut self, name: &str, partition_count: u32) -> Result<(), Error> {
        let response = self.send(create_topic_request(name, partition_count));
        create_topic_result(response)
    }

    fn produce(
        &mut self,
        topic: &str,
        key: Option<&[u8]>,
        payload: &[u8],
    ) -> Result<(u32, u64), Error> {
        let response = self.send(produce_request(topic, key, payload));
        produce_result(response)
    }

    fn fetch(
        &mut self,
        topic: &str,
        partition_id: u32,
        offset: u64,
        max: u32,
    ) -> Result<Vec<Message>, Error> {
        let response = self.send(fetch_request(topic, partition_id, offset, max));
        fetch_result(response)
    }
}

// ── Broker ───────────────────────────────────────────────────────────────────

#[test]
fn create_and_produce_and_fetch() {
    let mut disk = Disk::default();
    let mut broker = disk.open("full_flow");

    // Create a topic.
    let resp = handle(
        &mut broker,
        &mut disk,
        Request::CreateTopic {
            name: "orders".into(),
            partition_count: 2,
        },
    );
    assert_eq!(resp, Response::Okay);

    // Produce a message.
    let resp = handle(
        &mut broker,
        &mut disk,
        Request::Produce {
            topic: "orders".into(),
            key: Some(b"user-1".to_vec()),
            payload: b"order-data".to_vec(),
        },
    );
    let (pid, offset) = match resp {
        Response::Produced { partition_id, offset } => (partition_id, offset),
        other => panic!("expected Produced, got {:?}", other),
    };

    // Fetch it back.
    let resp = handle(
        &mut broker,
        &mut disk,
        Request::Fetch {
            topic: "orders".into(),
            partition_id: pid,
            offset,
            max_messages: 1,
        },
    );
    match resp {
        Response::Fetched { messages } => {
            assert_eq!(messages.len(), 1);
            assert_eq!(messages[0].payload, b"order-data");
        }
        other => panic!("expected Fetched, got {:?}", other),
    }
}

#[test]
fn duplicate_create_topic_errors() {
    let mut disk = Disk::default();
    let mut broker = disk.open("duplicate_topic");

    handle(
        &mut broker,
        &mut disk,
        Request::CreateTopic { name: "t".into(), partition_count: 1 },
    );
    let resp = handle(
        &mut broker,
        &mut disk,
        Request::CreateTopic { name: "t".into(), partition_count: 1 },
    );
    assert!(matches!(resp, Response::Error { .. }));
    assert_eq!(resp, Response::Error { message: "topic 't' already exists".into() });
}

#[test]
fn produce_to_unknown_topic_errors() {
    let mut disk = Disk::default();
    let mut broker = disk.open("unknown_topic");

    let resp = handle(
        &mut broker,
        &mut disk,
        Request::Produce {
            topic: "ghost".into(),
            key: None,
            payload: b"data".to_vec(),
        },
    );
    assert!(matches!(resp, Response::Error { .. }));
    assert_eq!(resp, Response::Error { message: "topic 'ghost' not found".into() });
}

#[test]
fn broker_recovers_topics_on_restart() {
    let mut disk = Disk::default();
    {
        let mut broker = disk.open("broker_restart");
        handle(
            &mut broker,
            &mut disk,
            Request::CreateTopic { name: "events".into(), partition_count: 1 },
        );
        handle(
            &mut broker,
            &mut disk,
            Request::Produce {
                topic: "events".into(),
                key: None,
                payload: b"persisted".to_vec(),
            },
        );
    }

    let mut broker = disk.open("broker_restart");
    let resp = handle(
        &mut broker,
        &mut disk,
        Request::Fetch {
            topic: "events".into(),
            partition_id: 0,
            offset: 0,
            max_messages: 10,
        },
    );
    match resp {
        Response::Fetched { messages } => {
            assert_eq!(messages.len(), 1);
            assert_eq!(messages[0].payload, b"persisted");
        }
        other => panic!("expected Fetched, got {:?}", other),
    }
}

#[test]
fn a_topic_needs_at_least_one_partition() {
    let mut disk = Disk::default();
    let mut broker = disk.open("data");
    let resp = handle(
        &mut broker,
        &mut disk,
        Request::CreateTopic { name: "t".into(), partition_count: 0 },
    );
    assert_eq!(resp, Response::Error { message: "partition_count must be >= 1".into() });
    assert!(!has_topic(&broker, "t"));
}

#[test]
fn an_unknown_partition_is_answered_with_an_error() {
    let mut disk = Disk::default();
    let mut broker = disk.open("data");
    handle(
        &mut broker,
        &mut disk,
        Request::CreateTopic { name: "t".into(), partition_count: 2 },
    );
    let resp = handle(
        &mut broker,
        &mut disk,
        Request::Fetch { topic: "t".into(), partition_id: 7, offset: 0, max_messages: 1 },
    );
    assert_eq!(
        resp,
        Response::Error { message: "partition 7 does not exist (topic has 2)".into() }
    );
}

#[test]
fn needs_name_the_directories_of_a_new_topic() {
    let broker = Disk::default().open("data");
    let create = |partition_count: u32| Request::CreateTopic { name: "t".into(), partition_count };
    assert_eq!(
        broker.needs(&create(2)),
        Need::Topic {
            dir: "data/t".into(),
            new_partitions: vec!["data/t/0".into(), "data/t/1".into()],
        }
    );
    assert_eq!(broker.needs(&create(0)), Need::Nothing);
    let produce = Request::Produce { topic: "t".into(), key: None, payload: vec![] };
    assert_eq!(broker.needs(&produce), Need::Nothing);
}

#[test]
fn needs_name_the_segment_after_a_full_one() {
    // One message of just the size that fills a segment.
    let size = DEFAULT_MAX_SEGMENT_BYTES as usize;
    let mut log = vec![0; size];
    log[..4].copy_from_slice(&((size - 4) as u32).to_be_bytes());
    let stored = vec![StoredTopic {
        name: "t".into(),
        partitions: vec![vec![StoredSegment {
            base_offset: 0,
            files: SegmentFiles { log, index: vec![0; 12] },
        }]],
    }];
    let mut broker = Broker::open("data", stored).unwrap();
    let mut disk = Disk::default();
    let produce = || Request::Produce { topic: "t".into(), key: None, payload: b"x".to_vec() };
    assert_eq!(
        broker.needs(&produce()),
        Need::Segment { dir: "data/t/0".into(), base_offset: 1 }
    );
    let resp = handle(&mut broker, &mut disk, produce());
    assert_eq!(resp, Response::Produced { partition_id: 0, offset: 1 });
    assert_eq!(broker.needs(&produce()), Need::Nothing);
    let resp = handle(&mut broker, &mut disk, produce());
    assert_eq!(resp, Response::Produced { partition_id: 0, offset: 2 });
    let files = &disk.dirs["data/t/0"];
    assert_eq!(files.len(), 2);
    assert_eq!(files[&log_file_name(1)].len(), 26);
    assert_eq!(files[&index_file_name(1)].len(), 24);
}

#[test]
fn a_request_that_cannot_be_served_changes_nothing() {
    let mut disk = Disk::default();
    let mut broker = disk.open("data");
    let create = Request::CreateTopic { name: "t".into(), partition_count: 2 };
    let broken = || Found {
        segment: SegmentFiles::empty(),
        partitions: vec![vec![StoredSegment {
            base_offset: 0,
            files: SegmentFiles {
                log: vec![0, 0, 0, 1, 0, 0, 0, 0, 0, 0, 0, 0],
                index: Vec::new(),
            },
        }]],
    };
    assert!(!broker.accepts(&create, &broken()));
    assert_eq!(broker.serve(create, broken()), None);
    assert!(!has_topic(&broker, "t"));
    let resp = handle(
        &mut broker,
        &mut disk,
        Request::Produce { topic: "t".into(), key: None, payload: vec![] },
    );
    assert_eq!(resp, Response::Error { message: "topic 't' not found".into() });
}

#[test]
fn create_on_a_torn_segment_is_refused() {
    let mut disk = Disk::default();
    disk.file("data/t/0", log_file_name(0)).extend_from_slice(&[0, 0, 0, 9, 1]);
    let mut broker = Broker::open("data", Vec::new()).unwrap();
    let resp = handle(
        &mut broker,
        &mut disk,
        Request::CreateTopic { name: "t".into(), partition_count: 1 },
    );
    assert_eq!(resp, Response::Error { message: "failed to fill whole buffer".into() });
    assert!(!has_topic(&broker, "t"));
}

#[test]
fn create_finds_the_messages_that_are_already_there() {
    let mut disk = Disk::default();
    let mut broker = disk.open("data");
    let create = || Request::CreateTopic { name: "t".into(), partition_count: 1 };
    handle(&mut broker, &mut disk, create());
    handle(
        &mut broker,
        &mut disk,
        Request::Produce { topic: "t".into(), key: None, payload: b"old".to_vec() },
    );
    let mut other = Broker::open("data", Vec::new()).unwrap();
    assert_eq!(handle(&mut other, &mut disk, create()), Response::Okay);
    let resp = handle(
        &mut other,
        &mut disk,
        Request::Fetch { topic: "t".into(), partition_id: 0, offset: 0, max_messages: 5 },
    );
    assert_eq!(
        resp,
        Response::Fetched {
            messages: vec![FetchedWireMessage { offset: 0, payload: b"old".to_vec() }]
        }
    );
}

#[test]
fn create_keeps_the_partitions_that_are_already_there() {
    for asked in [1, 2, 3, 5] {
        let mut disk = Disk::default();
        let mut broker = disk.open("data");
        let create = |n: u32| create_topic_request("t", n);
        handle(&mut broker, &mut disk, create(3));
        for i in 0..3u8 {
            handle(
                &mut broker,
                &mut disk,
                Request::Produce { topic: "t".into(), key: None, payload: vec![i] },
            );
        }
        let mut other = Broker::open("data", Vec::new()).unwrap();
        assert_eq!(handle(&mut other, &mut disk, create(asked)), Response::Okay);
        for id in 0..5u32 {
            let resp = handle(
                &mut other,
                &mut disk,
                Request::Fetch { topic: "t".into(), partition_id: id, offset: 0, max_messages: 5 },
            );
            if id < 3 {
                assert_eq!(
                    resp,
                    Response::Fetched {
                        messages: vec![FetchedWireMessage { offset: 0, payload: vec![id as u8] }]
                    }
                );
            } else {
                assert_eq!(
                    resp,
                    Response::Error {
                        message: format!("partition {id} does not exist (topic has 3)")
                    }
                );
            }
        }
    }
}

#[test]
fn opening_passes_over_topics_without_partitions() {
    let broker = Broker::open(
        "data",
        vec![StoredTopic { name: "empty".into(), partitions: Vec::new() }],
    )
    .unwrap();
    assert!(!has_topic(&broker, "empty"));
}

#[test]
fn opening_fails_where_a_topic_fails() {
    let torn = || {
        vec![StoredTopic {
            name: "t".into(),
            partitions: vec![vec![StoredSegment {
                base_offset: 0,
                files: SegmentFiles { log: vec![0, 0, 0, 9, 1], index: Vec::new() },
            }]],
        }]
    };
    assert!(Broker::probe("data", &torn()) == Opening::Fails);
    match Broker::open("data", torn()) {
        Ok(_) => panic!("a torn segment was accepted"),
        Err(e) => assert_eq!(e.kind, ErrorKind::UnexpectedEof),
    }
    let mut broken = torn();
    broken[0].partitions[0][0].files.log = vec![0, 0, 0, 1, 0, 0, 0, 0, 0, 0, 0, 0];
    assert!(Broker::probe("data", &broken) == Opening::Unreadable);
}

#[test]
fn restart_brings_every_topic_back() {
    let mut disk = Disk::default();
    let mut broker = disk.open("data");
    for (name, n) in [("a", 1), ("b", 2), ("c", 3)] {
        handle(
            &mut broker,
            &mut disk,
            Request::CreateTopic { name: name.into(), partition_count: n },
        );
        for i in 0..5u8 {
            handle(
                &mut broker,
                &mut disk,
                Request::Produce { topic: name.into(), key: None, payload: vec![i] },
            );
        }
    }
    let mut again = disk.open("data");
    for (name, n) in [("a", 1u32), ("b", 2), ("c", 3)] {
        for id in 0..n {
            let fetch = || Request::Fetch {
                topic: name.into(),
                partition_id: id,
                offset: 0,
                max_messages: 10,
            };
            let was = handle(&mut broker, &mut disk, fetch());
            assert!(matches!(was, Response::Fetched { .. }));
            assert_eq!(handle(&mut again, &mut disk, fetch()), was);
        }
    }
}

#[test]
fn partitions_are_counted_by_their_directories() {
    assert_eq!(count_partitions(&vec![true, false, true, true]), 3);
    assert_eq!(count_partitions(&Vec::new()), 0);
}

#[test]
fn a_disk_failure_is_passed_on() {
    assert_eq!(
        disk_failure("disk full".into()),
        Response::Error { message: "disk full".into() }
    );
}

// ── Over the wire ────────────────────────────────────────────────────────────

#[test]
fn create_topic() {
    let mut disk = Disk::default();
    let mut broker = disk.open("create_topic");

    let resp = roundtrip(
        &mut broker,
        &mut disk,
        Request::CreateTopic {
            name: "events".into(),
            partition_count: 2,
        },
    );

    assert_eq!(resp, Response::Okay);
}

#[test]
fn duplicate_topic_returns_error() {
    let mut disk = Disk::default();
    let mut broker = disk.open("dup_topic");

    roundtrip(
        &mut broker,
        &mut disk,
        Request::CreateTopic {
            name: "t".into(),
            partition_count: 1,
        },
    );

    let resp = roundtrip(
        &mut broker,
        &mut disk,
        Request::CreateTopic {
            name: "t".into(),
            partition_count: 1,
        },
    );
    assert!(matches!(resp, Response::Error { .. }));
}

#[test]
fn produce_and_fetch_end_to_end() {
    let mut disk = Disk::default();
    let mut broker = disk.open("produce_fetch");

    // Create topic.
    roundtrip(
        &mut broker,
        &mut disk,
        Request::CreateTopic {
            name: "orders".into(),
            partition_count: 3,
        },
    );

    // Produce.
    let resp = roundtrip(
        &mut broker,
        &mut disk,
        Request::Produce {
            topic: "orders".into(),
            key: Some(b"customer-1".to_vec()),
            payload: b"order-payload".to_vec(),
        },
    );

    let (pid, offset) = match resp {
        Response::Produced {
            partition_id,
            offset,
        } => (partition_id, offset),
        other => panic!("expected Produced, got {:?}", other),
    };

    // Fetch back.
    let resp = roundtrip(
        &mut broker,
        &mut disk,
        Request::Fetch {
            topic: "orders".into(),
            partition_id: pid,
            offset,
            max_messages: 1,
        },
    );

    match resp {
        Response::Fetched { messages } => {
            assert_eq!(messages.len(), 1);
            assert_eq!(messages[0].offset, offset);
            assert_eq!(messages[0].payload, b"order-payload");
        }
        other => panic!("expected Fetched, got {:?}", other),
    }
}

#[test]
fn fetch_unknown_topic_returns_error() {
    let mut disk = Disk::default();
    let mut broker = disk.open("fetch_unknown");

    let resp = roundtrip(
        &mut broker,
        &mut disk,
        Request::Fetch {
            topic: "ghost".into(),
            partition_id: 0,
            offset: 0,
            max_messages: 10,
        },
    );

    assert!(matches!(resp, Response::Error { .. }));
}

#[test]
fn multiple_messages_ordered() {
    let mut disk = Disk::default();
    let mut broker = disk.open("ordered");

    roundtrip(
        &mut broker,
        &mut disk,
        Request::CreateTopic {
            name: "log".into(),
            partition_count: 1,
        },
    );

    // All keyless → all go to partition 0 (single partition topic).
    for i in 0u8..5 {
        roundtrip(
            &mut broker,
            &mut disk,
            Request::Produce {
                topic: "log".into(),
                key: None,
                payload: vec![i],
            },
        );
    }

    let resp = roundtrip(
        &mut broker,
        &mut disk,
        Request::Fetch {
            topic: "log".into(),
            partition_id: 0,
            offset: 0,
            max_messages: 10,
        },
    );

    match resp {
        Response::Fetched { messages } => {
            assert_eq!(messages.len(), 5);
            for (i, msg) in messages.iter().enumerate() {
                assert_eq!(msg.offset, i as u64);
                assert_eq!(msg.payload, vec![i as u8]);
            }
        }
        other => panic!("expected Fetched, got {:?}", other),
    }
}

#[test]
fn two_clients_concurrent() {
    let mut disk = Disk::default();
    let mut broker = disk.open("concurrent");

    roundtrip(
        &mut broker,
        &mut disk,
        Request::CreateTopic {
            name: "shared".into(),
            partition_count: 1,
        },
    );

    // Two producers, whose requests the broker takes one at a time.
    for _ in 0..10 {
        for payload in [b"from-t1".to_vec(), b"from-t2".to_vec()] {
            let resp = roundtrip(
                &mut broker,
                &mut disk,
                Request::Produce {
                    topic: "shared".into(),
                    key: None,
                    payload,
                },
            );
            assert!(matches!(resp, Response::Produced { .. }));
        }
    }

    // All 20 messages should be visible.
    let resp = roundtrip(
        &mut broker,
        &mut disk,
        Request::Fetch {
            topic: "shared".into(),
            partition_id: 0,
            offset: 0,
            max_messages: 100,
        },
    );

    match resp {
        Response::Fetched { messages } => assert_eq!(messages.len(), 20),
        other => panic!("expected Fetched, got {:?}", other),
    }
}

// ── Client ───────────────────────────────────────────────────────────────────

#[test]
fn client_create_and_produce_and_fetch() {
    let mut client = Connection::open("client_basic");

    client.create_topic("events", 3).unwrap();

    let (pid, offset) = client
        .produce("events", Some(b"user-99"), b"click-event")
        .unwrap();

    let messages = client.fetch("events", pid, offset, 10).unwrap();
    assert_eq!(messages.len(), 1);
    assert_eq!(messages[0].offset, offset);
    assert_eq!(messages[0].payload, b"click-event");
}

#[test]
fn client_same_key_same_partition() {
    let mut client = Connection::open("client_keyed");

    client.create_topic("orders", 4).unwrap();

    let mut seen_partitions = std::collections::HashSet::new();
    for _ in 0..8 {
        let (pid, _) = client.produce("orders", Some(b"cust-1"), b"order").unwrap();
        seen_partitions.insert(pid);
    }

    assert_eq!(
        seen_partitions.len(),
        1,
        "keyed messages must always hit the same partition"
    );
}

#[test]
fn client_fetch_pagination() {
    let mut client = Connection::open("client_pagination");

    client.create_topic("log", 1).unwrap();

    for i in 0u8..20 {
        client.produce("log", None, &[i]).unwrap();
    }

    // Page through in batches of 5.
    let mut all = Vec::new();
    let mut offset = 0u64;
    loop {
        let batch = client.fetch("log", 0, offset, 5).unwrap();
        if batch.is_empty() {
            break;
        }
        offset = batch.last().unwrap().offset + 1;
        all.extend(batch);
    }

    assert_eq!(all.len(), 20);
    for (i, msg) in all.iter().enumerate() {
        assert_eq!(msg.offset, i as u64);
        assert_eq!(msg.payload, vec![i as u8]);
    }
}

#[test]
fn client_error_on_duplicate_topic() {
    let mut client = Connection::open("client_dup_topic");

    client.create_topic("t", 1).unwrap();
    let err = client.create_topic("t", 1);
    assert!(err.is_err());
}

#[test]
fn client_error_on_unknown_topic_produce() {
    let mut client = Connection::open("client_unknown_produce");

    let err = client.produce("ghost", None, b"data");
    assert!(err.is_err());
}

#[test]
fn a_refused_request_is_an_error_of_the_broker() {
    let mut client = Connection::open("data");
    let e = client.create_topic("t", 0).unwrap_err();
    assert_eq!(e.kind, ErrorKind::Other);
    assert_eq!(e.message, "partition_count must be >= 1");
    let e = client.fetch("t", 0, 0, 1).unwrap_err();
    assert_eq!(e, broker_error("topic 't' not found".into()));
}

#[test]
fn a_closed_connection_is_an_end_of_file() {
    let e = read_reply(&mut &[][..]).unwrap_err();
    assert_eq!(e.kind, ErrorKind::UnexpectedEof);
    assert_eq!(e.message, "broker closed connection");
    assert_eq!(read_reply(&mut &[0, 0, 0][..]).unwrap_err(), e);
}

#[test]
fn a_malformed_answer_is_an_error_of_its_own() {
    let e = read_reply(&mut &[0, 0, 0, 1, 9][..]).unwrap_err();
    assert_eq!(e.kind, ErrorKind::InvalidData);
    assert_eq!(e.message, "unknown response tag: 0x09");
    let e = read_reply(&mut &[0, 0, 0, 2, 1][..]).unwrap_err();
    assert_eq!(e.kind, ErrorKind::UnexpectedEof);
    assert_eq!(e.message, "early eof");
}

#[test]
fn requests_on_one_stream_are_answered_in_order() {
    let mut disk = Disk::default();
    let mut broker = disk.open("data");
    let mut sent = Vec::new();
    create_topic_request("t", 2).write_to(&mut sent);
    produce_request("t", None, b"a").write_to(&mut sent);
    produce_request("t", None, b"b").write_to(&mut sent);
    fetch_request("t", 1, 0, 5).write_to(&mut sent);
    fetch_request("ghost", 0, 0, 5).write_to(&mut sent);

    let mut answers = Vec::new();
    let mut stream = sent.as_slice();
    while let Some(request) = Request::read_from(&mut stream).unwrap() {
        handle(&mut broker, &mut disk, request).write_to(&mut answers);
    }

    let mut received = answers.as_slice();
    let expected = vec![
        Response::Okay,
        Response::Produced { partition_id: 0, offset: 0 },
        Response::Produced { partition_id: 1, offset: 0 },
        Response::Fetched {
            messages: vec![FetchedWireMessage { offset: 0, payload: b"b".to_vec() }],
        },
        Response::Error { message: "topic 'ghost' not found".into() },
    ];
    for response in expected {
        assert_eq!(read_reply(&mut received).unwrap(), response);
    }
    assert!(received.is_empty());
}

#[test]
fn an_unexpected_response_is_shown() {
    let shown = |response: Response| {
        let e = unexpected_response(response);
        assert_eq!(e.kind, ErrorKind::InvalidData);
        e.message
    };
    assert_eq!(shown(Response::Okay), "unexpected broker response: Ok");
    assert_eq!(
        shown(Response::Produced { partition_id: 1, offset: 42 }),
        "unexpected broker response: Produced { partition_id: 1, offset: 42 }"
    );
    assert_eq!(
        shown(Response::Fetched { messages: vec![] }),
        "unexpected broker response: Fetched { messages: [] }"
    );
    assert_eq!(
        shown(Response::Error { message: "say \"no\"\n".into() }),
        "unexpected broker response: Error { message: \"say \\\"no\\\"\\n\" }"
    );
    let fetched = || Response::Fetched {
        messages: vec![
            FetchedWireMessage { offset: 10, payload: vec![1, 20, 255] },
            FetchedWireMessage { offset: 11, payload: vec![] },
        ],
    };
    assert_eq!(
        shown(fetched()),
        "unexpected broker response: Fetched { messages: [FetchedWireMessage { offset: 10, \
         payload: [1, 20, 255] }, FetchedWireMessage { offset: 11, payload: [] }] }"
    );
    assert_eq!(shown(fetched()), format!("unexpected broker response: {:?}", fetched()));
}

#[test]
fn responses_of_another_kind_are_unexpected() {
    let okay = || Response::Okay;
    assert_eq!(produce_result(okay()).unwrap_err().kind, ErrorKind::InvalidData);
    assert_eq!(fetch_result(okay()).unwrap_err().kind, ErrorKind::InvalidData);
    let produced = Response::Produced { partition_id: 0, offset: 0 };
    assert_eq!(create_topic_result(produced).unwrap_err().kind, ErrorKind::InvalidData);
}

#[test]
fn wire_messages_become_client_messages() {
    let m = Message::from(FetchedWireMessage { offset: 3, payload: vec![4] });
    assert_eq!(m, Message { offset: 3, payload: vec![4] });
    assert_eq!(m.clone(), m);
}
