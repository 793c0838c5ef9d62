use rafka::error::ErrorKind;
use rafka::protocol::{
    frame_extent, read_bytes32, read_str16, read_u16, read_u32, read_u64, read_u8, write_bytes32,
    write_str16, write_u32, write_u64, FetchedWireMessage, Request, Response,
};

fn roundtrip_request(req: Request) -> Request {
    let mut buf = Vec::new();
    req.write_to(&mut buf);
    let mut reader = buf.as_slice();
    Request::read_from(&mut reader).unwrap().unwrap()
}

fn roundtrip_response(resp: Response) -> Response {
    let mut buf = Vec::new();
    resp.write_to(&mut buf);
    let mut reader = buf.as_slice();
    Response::read_from(&mut reader).unwrap().unwrap()
}

#[test]
fn create_topic_roundtrip() {
    let req = Request::CreateTopic {
        name: "events".into(),
        partition_count: 3,
    };
    let decoded = roundtrip_request(req);
    assert!(matches!(decoded, Request::CreateTopic { name, partition_count: 3 } if name == "events"));
}

#[test]
fn produce_with_key_roundtrip() {
    let req = Request::Produce {
        topic: "orders".into(),
        key: Some(b"user-42".to_vec()),
        payload: b"order-data".to_vec(),
    };
    let decoded = roundtrip_request(req);
    match decoded {
        Request::Produce {
            topic,
            key,
            payload,
        } => {
            assert_eq!(topic, "orders");
            assert_eq!(key.unwrap(), b"user-42");
            assert_eq!(payload, b"order-data");
        }
        _ => panic!("wrong variant"),
    }
}

#[test]
fn produce_keyless_roundtrip() {
    let req = Request::Produce {
        topic: "logs".into(),
        key: None,
        payload: b"log-line".to_vec(),
    };
    let decoded = roundtrip_request(req);
    assert!(matches!(decoded, Request::Produce { key: None, .. }));
}

#[test]
fn fetch_roundtrip() {
    let req = Request::Fetch {
        topic: "events".into(),
        partition_id: 2,
        offset: 1024,
        max_messages: 50,
    };
    let decoded = roundtrip_request(req);
    match decoded {
        Request::Fetch {
            topic,
            partition_id,
            offset,
            max_messages,
        } => {
            assert_eq!(topic, "events");
            assert_eq!(partition_id, 2);
            assert_eq!(offset, 1024);
            assert_eq!(max_messages, 50);
        }
        _ => panic!("wrong variant"),
    }
}

#[test]
fn response_ok_roundtrip() {
    assert_eq!(roundtrip_response(Response::Okay), Response::Okay);
}

#[test]
fn response_produced_roundtrip() {
    let resp = Response::Produced {
        partition_id: 1,
        offset: 42,
    };
    assert_eq!(
        roundtrip_response(resp),
        Response::Produced {
            partition_id: 1,
            offset: 42
        }
    );
}

#[test]
fn response_fetched_roundtrip() {
    let resp = Response::Fetched {
        messages: vec![
            FetchedWireMessage {
                offset: 0,
                payload: b"hello".to_vec(),
            },
            FetchedWireMessage {
                offset: 1,
                payload: b"world".to_vec(),
            },
        ],
    };
    let decoded = roundtrip_response(resp);
    match decoded {
        Response::Fetched { messages } => {
            assert_eq!(messages.len(), 2);
            assert_eq!(messages[1].payload, b"world");
        }
        _ => panic!("wrong variant"),
    }
}

#[test]
fn response_error_roundtrip() {
    let resp = Response::Error {
        message: "topic not found".into(),
    };
    assert_eq!(
        roundtrip_response(resp),
        Response::Error {
            message: "topic not found".into()
        }
    );
}

#[test]
fn create_topic_bytes() {
    let mut buf = Vec::new();
    Request::CreateTopic {
        name: "ab".into(),
        partition_count: 258,
    }
    .write_to(&mut buf);
    assert_eq!(buf, vec![0, 0, 0, 9, 1, 0, 2, b'a', b'b', 0, 0, 1, 2]);
}

#[test]
fn produce_bytes() {
    let mut buf = Vec::new();
    Request::Produce {
        topic: "t".into(),
        key: Some(vec![7]),
        payload: vec![8, 9],
    }
    .write_to(&mut buf);
    assert_eq!(
        buf,
        vec![0, 0, 0, 16, 2, 0, 1, b't', 1, 0, 0, 0, 1, 7, 0, 0, 0, 2, 8, 9]
    );
    let mut keyless = Vec::new();
    Request::Produce {
        topic: "t".into(),
        key: None,
        payload: vec![],
    }
    .write_to(&mut keyless);
    assert_eq!(keyless, vec![0, 0, 0, 9, 2, 0, 1, b't', 0, 0, 0, 0, 0]);
}

#[test]
fn fetch_bytes() {
    let mut buf = Vec::new();
    Request::Fetch {
        topic: "t".into(),
        partition_id: 1,
        offset: 2,
        max_messages: 3,
    }
    .write_to(&mut buf);
    assert_eq!(
        buf,
        vec![0, 0, 0, 20, 3, 0, 1, b't', 0, 0, 0, 1, 0, 0, 0, 0, 0, 0, 0, 2, 0, 0, 0, 3]
    );
}

#[test]
fn response_bytes() {
    assert_eq!(Response::Okay.encode(), vec![0]);
    assert_eq!(
        Response::Produced {
            partition_id: 1,
            offset: 0x0102
        }
        .encode(),
        vec![1, 0, 0, 0, 1, 0, 0, 0, 0, 0, 0, 1, 2]
    );
    assert_eq!(
        Response::Fetched {
            messages: vec![FetchedWireMessage {
                offset: 5,
                payload: vec![6]
            }]
        }
        .encode(),
        vec![2, 0, 0, 0, 1, 0, 0, 0, 0, 0, 0, 0, 5, 0, 0, 0, 1, 6]
    );
    assert_eq!(
        Response::Error {
            message: "no".into()
        }
        .encode(),
        vec![0xFF, 0, 2, b'n', b'o']
    );
}

#[test]
fn end_of_stream_is_none() {
    let mut empty: &[u8] = &[];
    assert!(Request::read_from(&mut empty).unwrap().is_none());
    let mut partial: &[u8] = &[0, 0, 0];
    assert!(Request::read_from(&mut partial).unwrap().is_none());
    let mut answer: &[u8] = &[];
    assert!(Response::read_from(&mut answer).unwrap().is_none());
}

#[test]
fn cut_off_body_is_eof() {
    let mut reader: &[u8] = &[0, 0, 0, 5, 1, 0];
    let e = Request::read_from(&mut reader).unwrap_err();
    assert_eq!(e.kind, ErrorKind::UnexpectedEof);
    assert_eq!(e.message, "early eof");
}

#[test]
fn frames_follow_each_other() {
    let mut buf = Vec::new();
    Response::Okay.write_to(&mut buf);
    Response::Produced {
        partition_id: 3,
        offset: 4,
    }
    .write_to(&mut buf);
    let mut reader = buf.as_slice();
    assert_eq!(Response::read_from(&mut reader).unwrap(), Some(Response::Okay));
    assert_eq!(
        Response::read_from(&mut reader).unwrap(),
        Some(Response::Produced {
            partition_id: 3,
            offset: 4
        })
    );
    assert_eq!(Response::read_from(&mut reader).unwrap(), None);
}

#[test]
fn unknown_tags_are_invalid_data() {
    let e = Request::decode(&[0x7f]).unwrap_err();
    assert_eq!(e.kind, ErrorKind::InvalidData);
    assert_eq!(e.message, "unknown request tag: 0x7f");
    let e = Response::decode(&[0x0a]).unwrap_err();
    assert_eq!(e.kind, ErrorKind::InvalidData);
    assert_eq!(e.message, "unknown response tag: 0x0a");
}

#[test]
fn short_fields_are_eof() {
    assert_eq!(Request::decode(&[]).unwrap_err().kind, ErrorKind::UnexpectedEof);
    assert_eq!(Request::decode(&[1, 0]).unwrap_err().kind, ErrorKind::UnexpectedEof);
    assert_eq!(
        Request::decode(&[1, 0, 9, b'x']).unwrap_err().kind,
        ErrorKind::UnexpectedEof
    );
    assert_eq!(
        Response::decode(&[2, 0, 0, 0, 1, 0]).unwrap_err().kind,
        ErrorKind::UnexpectedEof
    );
}

#[test]
fn text_that_is_not_utf8_is_invalid_data() {
    let bytes = [0x61u8, 0xff, 0x62];
    let mut body = vec![1, 0, 3];
    body.extend_from_slice(&bytes);
    body.extend_from_slice(&[0, 0, 0, 1]);
    let e = Request::decode(&body).unwrap_err();
    assert_eq!(e.kind, ErrorKind::InvalidData);
    assert_eq!(e.message, std::str::from_utf8(&bytes).unwrap_err().to_string());
}

#[test]
fn text_beyond_ascii_survives() {
    let decoded = roundtrip_request(Request::CreateTopic {
        name: "größe-日本".into(),
        partition_count: 1,
    });
    assert!(matches!(decoded, Request::CreateTopic { name, .. } if name == "größe-日本"));
}

#[test]
fn bytes_after_the_last_field_are_ignored() {
    assert_eq!(Response::decode(&[0, 1, 2, 3]).unwrap(), Response::Okay);
}

#[test]
fn a_key_flag_other_than_zero_means_a_key() {
    let body = [2, 0, 1, b't', 9, 0, 0, 0, 1, b'k', 0, 0, 0, 0];
    match Request::decode(&body) {
        Ok(Request::Produce { key, .. }) => assert_eq!(key, Some(vec![b'k'])),
        other => panic!("unexpected: {:?}", other),
    }
}

#[test]
fn long_text_length_is_cut_to_sixteen_bits() {
    let mut buf = Vec::new();
    let text: String = "x".repeat(65_537);
    write_str16(&mut buf, &text);
    assert_eq!(&buf[..2], &[0, 1]);
    assert_eq!(buf.len(), 65_539);
}

#[test]
fn field_writers_and_readers() {
    let mut buf = Vec::new();
    write_u32(&mut buf, 0x01020304);
    write_u64(&mut buf, 0x05060708090a0b0c);
    write_str16(&mut buf, "hé");
    write_bytes32(&mut buf, &[9, 8]);
    assert_eq!(
        buf,
        vec![
            1, 2, 3, 4, 5, 6, 7, 8, 9, 10, 11, 12, 0, 3, b'h', 0xc3, 0xa9, 0, 0, 0, 2, 9, 8
        ]
    );
    let mut cur = buf.as_slice();
    assert_eq!(read_u32(&mut cur).unwrap(), 0x01020304);
    assert_eq!(read_u64(&mut cur).unwrap(), 0x05060708090a0b0c);
    assert_eq!(read_str16(&mut cur).unwrap(), "hé");
    assert_eq!(read_bytes32(&mut cur).unwrap(), vec![9, 8]);
    assert!(cur.is_empty());
    let mut more: &[u8] = &[5, 1, 2];
    assert_eq!(read_u8(&mut more).unwrap(), 5);
    assert_eq!(read_u16(&mut more).unwrap(), 258);
    assert!(read_u8(&mut more).is_err());
}

#[test]
fn extent_of_a_frame() {
    assert_eq!(frame_extent(&[]), 4);
    assert_eq!(frame_extent(&[0, 0, 1]), 4);
    assert_eq!(frame_extent(&[0, 0, 1, 2]), 262);
    assert_eq!(frame_extent(&[0xff, 0xff, 0xff, 0xff, 1]), 4_294_967_299);
}
