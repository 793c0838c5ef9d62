//! Binary wire protocol.
//!
//! Every message on the wire is a **frame**:
//!
//! ```text
//! [frame_length: u32][body: bytes...]
//! ```
//!
//! `frame_length` is the number of bytes in `body` (does not include itself).
//! The first byte of the body is always a **type tag** that identifies the
//! request or response kind. All integers are big-endian.
//!
//! ## Request types
//!
//! | Tag  | Name         | Fields                                              |
//! |------|--------------|-----------------------------------------------------|
//! | 0x01 | CreateTopic  | name: str16, partition_count: u32                   |
//! | 0x02 | Produce      | topic: str16, has_key: u8, [key: bytes32], msg: bytes32 |
//! | 0x03 | Fetch        | topic: str16, partition_id: u32, offset: u64, max: u32 |
//!
//! ## Response types
//!
//! | Tag  | Name     | Fields                                              |
//! |------|----------|-----------------------------------------------------|
//! | 0x00 | Ok       | (empty)                                             |
//! | 0x01 | Produced | partition_id: u32, offset: u64                      |
//! | 0x02 | Fetched  | count: u32, [(offset: u64, payload: bytes32)...]    |
//! | 0xFF | Error    | message: str16                                      |
//!
//! Encoding helpers:
//! - `str16`   = [length: u16][utf-8 bytes]
//! - `bytes32` = [length: u32][bytes]
//!
//! A length that its field cannot hold is written modulo the field's range, and
//! bytes of a body after its last field are ignored.

use crate::bigendian::{
    be_bytes, be_value, law_be_decode_encode, lemma_be_bytes_len, lemma_pow256_widths, push_be,
    value_be,
};
use crate::error::{seen, seen_option, Error, ErrorKind, ErrorView};
use crate::text::{hex2, hex2_text, utf8_complaint, utf8_text};
use vstd::prelude::*;
use vstd::slice::{slice_subrange, slice_to_vec};
use vstd::string::StringExecFns;
use vstd::utf8::{
    decode_utf8, encode_utf8, encode_utf8_decode_utf8, encode_utf8_valid_utf8, valid_utf8,
};

verus! {

// ── Messages ─────────────────────────────────────────────────────────────────

pub const TAG_CREATE_TOPIC: u8 = 0x01;

pub const TAG_PRODUCE: u8 = 0x02;

pub const TAG_FETCH: u8 = 0x03;

pub const TAG_OK: u8 = 0x00;

pub const TAG_PRODUCED: u8 = 0x01;

pub const TAG_FETCHED: u8 = 0x02;

pub const TAG_ERROR: u8 = 0xFF;

/// A decoded client request.
#[derive(Debug)]
pub enum Request {
    CreateTopic { name: String, partition_count: u32 },
    Produce { topic: String, key: Option<Vec<u8>>, payload: Vec<u8> },
    Fetch { topic: String, partition_id: u32, offset: u64, max_messages: u32 },
}

/// A decoded broker response.
#[derive(Debug, PartialEq)]
pub enum Response {
    /// Generic success (e.g. CreateTopic).
    Okay,
    /// Successful produce: where the message landed.
    Produced { partition_id: u32, offset: u64 },
    /// Successful fetch: zero or more messages.
    Fetched { messages: Vec<FetchedWireMessage> },
    /// Any broker-side error.
    Error { message: String },
}

/// A single message as it appears in a Fetch response.
#[derive(Debug, PartialEq)]
pub struct FetchedWireMessage {
    pub offset: u64,
    pub payload: Vec<u8>,
}

/// What a [`Request`] asks for.
#[verifier::ext_equal]
pub enum RequestView {
    CreateTopic { name: Seq<char>, partition_count: u32 },
    Produce { topic: Seq<char>, key: Option<Seq<u8>>, payload: Seq<u8> },
    Fetch { topic: Seq<char>, partition_id: u32, offset: u64, max_messages: u32 },
}

/// What a [`Response`] says.
#[verifier::ext_equal]
pub enum ResponseView {
    Okay,
    Produced { partition_id: u32, offset: u64 },
    Fetched { messages: Seq<MessageView> },
    Error { message: Seq<char> },
}

/// A message with its offset: what a fetch returns, at every layer.
#[verifier::ext_equal]
pub struct MessageView {
    pub offset: u64,
    pub payload: Seq<u8>,
}

impl View for FetchedWireMessage {
    type V = MessageView;

    open spec fn view(&self) -> MessageView {
        MessageView { offset: self.offset, payload: self.payload@ }
    }
}

/// An optional vector by its contents.
pub open spec fn key_view(key: Option<Vec<u8>>) -> Option<Seq<u8>> {
    match key {
        Some(k) => Some(k@),
        None => None,
    }
}

impl View for Request {
    type V = RequestView;

    open spec fn view(&self) -> RequestView {
        match *self {
            Request::CreateTopic { name, partition_count } => RequestView::CreateTopic {
                name: name@,
                partition_count,
            },
            Request::Produce { topic, key, payload } => RequestView::Produce {
                topic: topic@,
                key: key_view(key),
                payload: payload@,
            },
            Request::Fetch { topic, partition_id, offset, max_messages } => RequestView::Fetch {
                topic: topic@,
                partition_id,
                offset,
                max_messages,
            },
        }
    }
}

/// The messages of a response by their contents.
pub open spec fn wire_messages(messages: Seq<FetchedWireMessage>) -> Seq<MessageView> {
    messages.map_values(|m: FetchedWireMessage| m@)
}

impl View for Response {
    type V = ResponseView;

    open spec fn view(&self) -> ResponseView {
        match *self {
            Response::Okay => ResponseView::Okay,
            Response::Produced { partition_id, offset } => ResponseView::Produced {
                partition_id,
                offset,
            },
            Response::Fetched { messages } => ResponseView::Fetched {
                messages: wire_messages(messages@),
            },
            Response::Error { message } => ResponseView::Error { message: message@ },
        }
    }
}

// ── Encoding ─────────────────────────────────────────────────────────────────

/// `[length: u32][bytes]`.
pub open spec fn bytes32(bytes: Seq<u8>) -> Seq<u8> {
    be_bytes(bytes.len() % 0x1_0000_0000, 4) + bytes
}

/// `[length: u16][utf-8 bytes]`.
pub open spec fn str16(s: Seq<char>) -> Seq<u8> {
    be_bytes(encode_utf8(s).len() % 0x1_0000, 2) + encode_utf8(s)
}

/// The messages of a fetch, one after the other.
pub open spec fn messages_bytes(messages: Seq<MessageView>) -> Seq<u8>
    decreases messages.len(),
{
    if messages.len() == 0 {
        Seq::empty()
    } else {
        messages_bytes(messages.drop_last()) + be_bytes(messages.last().offset as nat, 8) + bytes32(
            messages.last().payload,
        )
    }
}

/// The key of a produce as the wire carries it.
pub open spec fn key_field(key: Option<Seq<u8>>) -> Seq<u8> {
    match key {
        Some(k) => seq![1u8] + bytes32(k),
        None => seq![0u8],
    }
}

/// A body with its length in front.
pub open spec fn frame(body: Seq<u8>) -> Seq<u8> {
    bytes32(body)
}

impl RequestView {
    /// The body of the request's frame.
    pub open spec fn body(self) -> Seq<u8> {
        match self {
            RequestView::CreateTopic { name, partition_count } => seq![TAG_CREATE_TOPIC] + str16(
                name,
            ) + be_bytes(partition_count as nat, 4),
            RequestView::Produce { topic, key, payload } => seq![TAG_PRODUCE] + str16(topic)
                + key_field(key) + bytes32(payload),
            RequestView::Fetch { topic, partition_id, offset, max_messages } => seq![TAG_FETCH]
                + str16(topic) + be_bytes(partition_id as nat, 4) + be_bytes(offset as nat, 8)
                + be_bytes(max_messages as nat, 4),
        }
    }

    /// Every length fits the field that carries it.
    pub open spec fn fits(self) -> bool {
        &&& self.body().len() <= u32::MAX
        &&& match self {
            RequestView::CreateTopic { name, .. } => encode_utf8(name).len() <= u16::MAX,
            RequestView::Produce { topic, .. } => encode_utf8(topic).len() <= u16::MAX,
            RequestView::Fetch { topic, .. } => encode_utf8(topic).len() <= u16::MAX,
        }
    }
}

impl ResponseView {
    /// The body of the response's frame.
    pub open spec fn body(self) -> Seq<u8> {
        match self {
            ResponseView::Okay => seq![TAG_OK],
            ResponseView::Produced { partition_id, offset } => seq![TAG_PRODUCED] + be_bytes(
                partition_id as nat,
                4,
            ) + be_bytes(offset as nat, 8),
            ResponseView::Fetched { messages } => seq![TAG_FETCHED] + be_bytes(
                messages.len() % 0x1_0000_0000,
                4,
            ) + messages_bytes(messages),
            ResponseView::Error { message } => seq![TAG_ERROR] + str16(message),
        }
    }

    /// Every length fits the field that carries it.
    pub open spec fn fits(self) -> bool {
        &&& self.body().len() <= u32::MAX
        &&& match self {
            ResponseView::Error { message } => encode_utf8(message).len() <= u16::MAX,
            _ => true,
        }
    }
}

/// Append a slice of bytes.
pub fn write_slice(buf: &mut Vec<u8>, bytes: &[u8])
    ensures
        final(buf)@ == old(buf)@ + bytes@,
{
    buf.extend_from_slice(bytes);
    assert(buf@ =~= old(buf)@ + bytes@);
}

pub fn write_u32(buf: &mut Vec<u8>, v: u32)
    ensures
        final(buf)@ == old(buf)@ + be_bytes(v as nat, 4),
{
    push_be(buf, v as u64, 4);
}

pub fn write_u64(buf: &mut Vec<u8>, v: u64)
    ensures
        final(buf)@ == old(buf)@ + be_bytes(v as nat, 8),
{
    push_be(buf, v, 8);
}

pub fn write_str16(buf: &mut Vec<u8>, s: &str)
    ensures
        final(buf)@ == old(buf)@ + str16(s@),
{
    let bytes: &[u8] = s.as_bytes();
    push_be(buf, bytes.len() as u64 % 0x1_0000, 2);
    write_slice(buf, bytes);
    assert(buf@ =~= old(buf)@ + str16(s@));
}

pub fn write_bytes32(buf: &mut Vec<u8>, bytes: &[u8])
    ensures
        final(buf)@ == old(buf)@ + bytes32(bytes@),
{
    push_be(buf, bytes.len() as u64 % 0x1_0000_0000, 4);
    write_slice(buf, bytes);
    assert(buf@ =~= old(buf)@ + bytes32(bytes@));
}

impl Request {
    /// The body of this request's frame.
    pub fn encode(&self) -> (body: Vec<u8>)
        ensures
            body@ == self@.body(),
    {
        let mut body: Vec<u8> = Vec::new();
        match self {
            Request::CreateTopic { name, partition_count } => {
                body.push(TAG_CREATE_TOPIC);
                write_str16(&mut body, name.as_str());
                write_u32(&mut body, *partition_count);
            },
            Request::Produce { topic, key, payload } => {
                body.push(TAG_PRODUCE);
                write_str16(&mut body, topic.as_str());
                match key {
                    Some(k) => {
                        body.push(1u8);
                        write_bytes32(&mut body, k.as_slice());
                    },
                    None => {
                        body.push(0u8);
                    },
                }
                write_bytes32(&mut body, payload.as_slice());
            },
            Request::Fetch { topic, partition_id, offset, max_messages } => {
                body.push(TAG_FETCH);
                write_str16(&mut body, topic.as_str());
                write_u32(&mut body, *partition_id);
                write_u64(&mut body, *offset);
                write_u32(&mut body, *max_messages);
            },
        }
        assert(body@ =~= self@.body());
        body
    }

    /// Encode this request into a frame and append it to `writer`.
    pub fn write_to(&self, writer: &mut Vec<u8>)
        ensures
            final(writer)@ == old(writer)@ + frame(self@.body()),
    {
        let body: Vec<u8> = self.encode();
        write_bytes32(writer, body.as_slice());
    }
}

impl Response {
    /// The body of this response's frame.
    pub fn encode(&self) -> (body: Vec<u8>)
        ensures
            body@ == self@.body(),
    {
        let mut body: Vec<u8> = Vec::new();
        match self {
            Response::Okay => {
                body.push(TAG_OK);
            },
            Response::Produced { partition_id, offset } => {
                body.push(TAG_PRODUCED);
                write_u32(&mut body, *partition_id);
                write_u64(&mut body, *offset);
            },
            Response::Fetched { messages } => {
                body.push(TAG_FETCHED);
                push_be(&mut body, messages.len() as u64 % 0x1_0000_0000, 4);
                let ghost head = body@;
                let ghost views = wire_messages(messages@);
                let mut i: usize = 0;
                assert(body@ =~= head + messages_bytes(views.take(0)));
                while i < messages.len()
                    invariant
                        i <= messages@.len(),
                        views == wire_messages(messages@),
                        body@ == head + messages_bytes(views.take(i as int)),
                    decreases messages@.len() - i,
                {
                    proof {
                        assert(views.take(i + 1).drop_last() =~= views.take(i as int));
                        assert(views.take(i + 1).last() == messages@[i as int]@);
                    }
                    write_u64(&mut body, messages[i].offset);
                    write_bytes32(&mut body, messages[i].payload.as_slice());
                    assert(body@ =~= head + messages_bytes(views.take(i + 1)));
                    i = i + 1;
                }
                assert(views.take(i as int) =~= views);
            },
            Response::Error { message } => {
                body.push(TAG_ERROR);
                write_str16(&mut body, message.as_str());
            },
        }
        assert(body@ =~= self@.body());
        body
    }

    /// Encode this response into a frame and append it to `writer`.
    pub fn write_to(&self, writer: &mut Vec<u8>)
        ensures
            final(writer)@ == old(writer)@ + frame(self@.body()),
    {
        let body: Vec<u8> = self.encode();
        write_bytes32(writer, body.as_slice());
    }
}

// ── Decoding ─────────────────────────────────────────────────────────────────

/// What a decoding step yields: the value or the error, and the input left over.
pub type Step<T> = (Result<T, ErrorView>, Seq<u8>);

/// The error for input that ends too early.
pub open spec fn eof<T>(message: Seq<char>) -> Result<T, ErrorView> {
    Err(ErrorView { kind: ErrorKind::UnexpectedEof, message })
}

pub open spec fn parse_u8(s: Seq<u8>) -> Step<u8> {
    if s.len() < 1 {
        (eof("expected u8"@), s)
    } else {
        (Ok(s[0]), s.skip(1))
    }
}

pub open spec fn parse_u16(s: Seq<u8>) -> Step<u16> {
    if s.len() < 2 {
        (eof("expected u16"@), s)
    } else {
        (Ok(be_value(s.take(2)) as u16), s.skip(2))
    }
}

pub open spec fn parse_u32(s: Seq<u8>) -> Step<u32> {
    if s.len() < 4 {
        (eof("expected u32"@), s)
    } else {
        (Ok(be_value(s.take(4)) as u32), s.skip(4))
    }
}

pub open spec fn parse_u64(s: Seq<u8>) -> Step<u64> {
    if s.len() < 8 {
        (eof("expected u64"@), s)
    } else {
        (Ok(be_value(s.take(8)) as u64), s.skip(8))
    }
}

pub open spec fn parse_str16(s: Seq<u8>) -> Step<Seq<char>> {
    match parse_u16(s) {
        (Err(e), rest) => (Err(e), rest),
        (Ok(n), rest) => if rest.len() < n {
            (eof("expected str body"@), rest)
        } else if !valid_utf8(rest.take(n as int)) {
            (
                Err(
                    ErrorView {
                        kind: ErrorKind::InvalidData,
                        message: utf8_complaint(rest.take(n as int)),
                    },
                ),
                rest,
            )
        } else {
            (Ok(decode_utf8(rest.take(n as int))), rest.skip(n as int))
        },
    }
}

pub open spec fn parse_bytes32(s: Seq<u8>) -> Step<Seq<u8>> {
    match parse_u32(s) {
        (Err(e), rest) => (Err(e), rest),
        (Ok(n), rest) => if rest.len() < n {
            (eof("expected bytes body"@), rest)
        } else {
            (Ok(rest.take(n as int)), rest.skip(n as int))
        },
    }
}

/// `n` fetched messages, after the ones in `before`.
pub open spec fn parse_messages(s: Seq<u8>, n: nat, before: Seq<MessageView>) -> Step<
    Seq<MessageView>,
>
    decreases n,
{
    if n == 0 {
        (Ok(before), s)
    } else {
        match parse_u64(s) {
            (Err(e), rest) => (Err(e), rest),
            (Ok(offset), rest) => match parse_bytes32(rest) {
                (Err(e), rest) => (Err(e), rest),
                (Ok(payload), rest) => parse_messages(
                    rest,
                    (n - 1) as nat,
                    before.push(MessageView { offset, payload }),
                ),
            },
        }
    }
}

pub open spec fn parse_create_topic(s: Seq<u8>) -> Result<RequestView, ErrorView> {
    match parse_str16(s) {
        (Err(e), _) => Err(e),
        (Ok(name), s) => match parse_u32(s) {
            (Err(e), _) => Err(e),
            (Ok(partition_count), _) => Ok(RequestView::CreateTopic { name, partition_count }),
        },
    }
}

/// The optional key of a produce request: a flag byte, then the key if the flag
/// is not zero.
pub open spec fn parse_key(s: Seq<u8>) -> Step<Option<Seq<u8>>> {
    match parse_u8(s) {
        (Err(e), s) => (Err(e), s),
        (Ok(has_key), s) => if has_key == 0 {
            (Ok(None), s)
        } else {
            match parse_bytes32(s) {
                (Err(e), s) => (Err(e), s),
                (Ok(key), s) => (Ok(Some(key)), s),
            }
        },
    }
}

pub open spec fn parse_produce(s: Seq<u8>) -> Result<RequestView, ErrorView> {
    match parse_str16(s) {
        (Err(e), _) => Err(e),
        (Ok(topic), s) => match parse_key(s) {
            (Err(e), _) => Err(e),
            (Ok(key), s) => match parse_bytes32(s) {
                (Err(e), _) => Err(e),
                (Ok(payload), _) => Ok(RequestView::Produce { topic, key, payload }),
            },
        },
    }
}

pub open spec fn parse_fetch(s: Seq<u8>) -> Result<RequestView, ErrorView> {
    match parse_str16(s) {
        (Err(e), _) => Err(e),
        (Ok(topic), s) => match parse_u32(s) {
            (Err(e), _) => Err(e),
            (Ok(partition_id), s) => match parse_u64(s) {
                (Err(e), _) => Err(e),
                (Ok(offset), s) => match parse_u32(s) {
                    (Err(e), _) => Err(e),
                    (Ok(max_messages), _) => Ok(
                        RequestView::Fetch { topic, partition_id, offset, max_messages },
                    ),
                },
            },
        },
    }
}

/// The error for a tag that names nothing.
pub open spec fn unknown_tag<T>(prefix: Seq<char>, tag: u8) -> Result<T, ErrorView> {
    Err(ErrorView { kind: ErrorKind::InvalidData, message: prefix + hex2(tag) })
}

/// The request that a frame body holds.
pub open spec fn parse_request(body: Seq<u8>) -> Result<RequestView, ErrorView> {
    match parse_u8(body) {
        (Err(e), _) => Err(e),
        (Ok(tag), s) => if tag == TAG_CREATE_TOPIC {
            parse_create_topic(s)
        } else if tag == TAG_PRODUCE {
            parse_produce(s)
        } else if tag == TAG_FETCH {
            parse_fetch(s)
        } else {
            unknown_tag("unknown request tag: 0x"@, tag)
        },
    }
}

pub open spec fn parse_produced(s: Seq<u8>) -> Result<ResponseView, ErrorView> {
    match parse_u32(s) {
        (Err(e), _) => Err(e),
        (Ok(partition_id), s) => match parse_u64(s) {
            (Err(e), _) => Err(e),
            (Ok(offset), _) => Ok(ResponseView::Produced { partition_id, offset }),
        },
    }
}

pub open spec fn parse_fetched(s: Seq<u8>) -> Result<ResponseView, ErrorView> {
    match parse_u32(s) {
        (Err(e), _) => Err(e),
        (Ok(count), s) => match parse_messages(s, count as nat, Seq::empty()) {
            (Err(e), _) => Err(e),
            (Ok(messages), _) => Ok(ResponseView::Fetched { messages }),
        },
    }
}

pub open spec fn parse_error(s: Seq<u8>) -> Result<ResponseView, ErrorView> {
    match parse_str16(s) {
        (Err(e), _) => Err(e),
        (Ok(message), _) => Ok(ResponseView::Error { message }),
    }
}

/// The response that a frame body holds.
pub open spec fn parse_response(body: Seq<u8>) -> Result<ResponseView, ErrorView> {
    match parse_u8(body) {
        (Err(e), _) => Err(e),
        (Ok(tag), s) => if tag == TAG_OK {
            Ok(ResponseView::Okay)
        } else if tag == TAG_PRODUCED {
            parse_produced(s)
        } else if tag == TAG_FETCHED {
            parse_fetched(s)
        } else if tag == TAG_ERROR {
            parse_error(s)
        } else {
            unknown_tag("unknown response tag: 0x"@, tag)
        },
    }
}

/// The body of the first frame of a stream, and the stream after it. A stream
/// that ends inside the length is over; one that ends inside the body is cut short.
pub open spec fn parse_frame(s: Seq<u8>) -> Step<Option<Seq<u8>>> {
    if s.len() < 4 {
        (Ok(None), Seq::empty())
    } else {
        let n = be_value(s.take(4)) as int;
        if s.len() - 4 < n {
            (eof("early eof"@), Seq::empty())
        } else {
            (Ok(Some(s.subrange(4, 4 + n))), s.skip(4 + n))
        }
    }
}

/// The first request of a stream, and the stream after it.
pub open spec fn first_request(s: Seq<u8>) -> Step<Option<RequestView>> {
    match parse_frame(s) {
        (Err(e), rest) => (Err(e), rest),
        (Ok(None), rest) => (Ok(None), rest),
        (Ok(Some(body)), rest) => match parse_request(body) {
            Ok(request) => (Ok(Some(request)), rest),
            Err(e) => (Err(e), rest),
        },
    }
}

/// The first response of a stream, and the stream after it.
pub open spec fn first_response(s: Seq<u8>) -> Step<Option<ResponseView>> {
    match parse_frame(s) {
        (Err(e), rest) => (Err(e), rest),
        (Ok(None), rest) => (Ok(None), rest),
        (Ok(Some(body)), rest) => match parse_response(body) {
            Ok(response) => (Ok(Some(response)), rest),
            Err(e) => (Err(e), rest),
        },
    }
}

pub fn read_u8(cur: &mut &[u8]) -> (r: Result<u8, Error>)
    ensures
        (seen(r), final(cur)@) == parse_u8(old(cur)@),
{
    if cur.len() < 1 {
        return Err(Error::new(ErrorKind::UnexpectedEof, "expected u8"));
    }
    let v: u8 = cur[0];
    *cur = slice_subrange(*cur, 1, cur.len());
    Ok(v)
}

pub fn read_u16(cur: &mut &[u8]) -> (r: Result<u16, Error>)
    ensures
        (seen(r), final(cur)@) == parse_u16(old(cur)@),
{
    if cur.len() < 2 {
        return Err(Error::new(ErrorKind::UnexpectedEof, "expected u16"));
    }
    proof {
        lemma_pow256_widths();
    }
    let v: u16 = value_be(slice_subrange(*cur, 0, 2)) as u16;
    *cur = slice_subrange(*cur, 2, cur.len());
    Ok(v)
}

pub fn read_u32(cur: &mut &[u8]) -> (r: Result<u32, Error>)
    ensures
        (seen(r), final(cur)@) == parse_u32(old(cur)@),
{
    if cur.len() < 4 {
        return Err(Error::new(ErrorKind::UnexpectedEof, "expected u32"));
    }
    proof {
        lemma_pow256_widths();
    }
    let v: u32 = value_be(slice_subrange(*cur, 0, 4)) as u32;
    *cur = slice_subrange(*cur, 4, cur.len());
    Ok(v)
}

pub fn read_u64(cur: &mut &[u8]) -> (r: Result<u64, Error>)
    ensures
        (seen(r), final(cur)@) == parse_u64(old(cur)@),
{
    if cur.len() < 8 {
        return Err(Error::new(ErrorKind::UnexpectedEof, "expected u64"));
    }
    let v: u64 = value_be(slice_subrange(*cur, 0, 8));
    *cur = slice_subrange(*cur, 8, cur.len());
    Ok(v)
}

pub fn read_str16(cur: &mut &[u8]) -> (r: Result<String, Error>)
    ensures
        (seen(r), final(cur)@) == parse_str16(old(cur)@),
{
    let len: usize = match read_u16(cur) {
        Ok(n) => n as usize,
        Err(e) => return Err(e),
    };
    if cur.len() < len {
        return Err(Error::new(ErrorKind::UnexpectedEof, "expected str body"));
    }
    match utf8_text(slice_subrange(*cur, 0, len)) {
        Ok(s) => {
            proof {
                encode_utf8_decode_utf8(s@);
            }
            *cur = slice_subrange(*cur, len, cur.len());
            Ok(s)
        },
        Err(message) => Err(Error { kind: ErrorKind::InvalidData, message }),
    }
}

pub fn read_bytes32(cur: &mut &[u8]) -> (r: Result<Vec<u8>, Error>)
    ensures
        (seen(r), final(cur)@) == parse_bytes32(old(cur)@),
{
    let len: u32 = match read_u32(cur) {
        Ok(n) => n,
        Err(e) => return Err(e),
    };
    if (cur.len() as u64) < len as u64 {
        return Err(Error::new(ErrorKind::UnexpectedEof, "expected bytes body"));
    }
    let len: usize = len as usize;
    let bytes: Vec<u8> = slice_to_vec(slice_subrange(*cur, 0, len));
    *cur = slice_subrange(*cur, len, cur.len());
    Ok(bytes)
}

/// The optional key of a produce request.
fn read_key(cur: &mut &[u8]) -> (r: Result<Option<Vec<u8>>, Error>)
    ensures
        (seen_option(r), final(cur)@) == parse_key(old(cur)@),
{
    match read_u8(cur) {
        Err(e) => Err(e),
        Ok(has_key) => if has_key == 0 {
            Ok(None)
        } else {
            match read_bytes32(cur) {
                Err(e) => Err(e),
                Ok(key) => Ok(Some(key)),
            }
        },
    }
}

/// The error for a tag that names nothing.
fn unknown_tag_error(prefix: &str, tag: u8) -> (e: Error)
    ensures
        e@ == (ErrorView { kind: ErrorKind::InvalidData, message: prefix@ + hex2(tag) }),
{
    let mut message: String = prefix.to_owned();
    message.append(hex2_text(tag).as_str());
    Error { kind: ErrorKind::InvalidData, message }
}

/// Take the first frame off a stream and return its body.
fn read_frame(reader: &mut &[u8]) -> (r: Result<Option<Vec<u8>>, Error>)
    ensures
        (seen_option(r), final(reader)@) == parse_frame(old(reader)@),
{
    let len: usize = reader.len();
    if len < 4 {
        *reader = slice_subrange(*reader, len, len);
        assert(reader@ =~= Seq::empty());
        return Ok(None);
    }
    let n: u64 = value_be(slice_subrange(*reader, 0, 4));
    if ((len - 4) as u64) < n {
        *reader = slice_subrange(*reader, len, len);
        assert(reader@ =~= Seq::empty());
        return Err(Error::new(ErrorKind::UnexpectedEof, "early eof"));
    }
    let end: usize = 4 + n as usize;
    let body: Vec<u8> = slice_to_vec(slice_subrange(*reader, 4, end));
    *reader = slice_subrange(*reader, end, len);
    Ok(Some(body))
}

/// How many bytes of a stream the frame at its start takes, as far as the bytes
/// received so far tell: the length field alone, or the length field and the body.
pub open spec fn extent(received: Seq<u8>) -> nat {
    if received.len() < 4 {
        4
    } else {
        4 + be_value(received.take(4))
    }
}

/// How many bytes of a stream the frame at its start takes, as far as the bytes
/// received so far tell: the length field alone, or the length field and the body.
pub fn frame_extent(received: &[u8]) -> (n: u64)
    ensures
        n as nat == extent(received@),
        n as int == (if received@.len() < 4 {
            4
        } else {
            4 + be_value(received@.take(4)) as int
        }),
{
    if received.len() < 4 {
        4
    } else {
        proof {
            lemma_pow256_widths();
        }
        4 + value_be(slice_subrange(received, 0, 4))
    }
}

impl Request {
    /// Decode a frame body.
    pub fn decode(body: &[u8]) -> (r: Result<Request, Error>)
        ensures
            seen(r) == parse_request(body@),
    {
        let mut cur: &[u8] = body;
        let tag: u8 = match read_u8(&mut cur) {
            Ok(tag) => tag,
            Err(e) => return Err(e),
        };
        if tag == TAG_CREATE_TOPIC {
            let name: String = match read_str16(&mut cur) {
                Ok(name) => name,
                Err(e) => return Err(e),
            };
            match read_u32(&mut cur) {
                Ok(partition_count) => Ok(Request::CreateTopic { name, partition_count }),
                Err(e) => Err(e),
            }
        } else if tag == TAG_PRODUCE {
            let topic: String = match read_str16(&mut cur) {
                Ok(topic) => topic,
                Err(e) => return Err(e),
            };
            let key: Option<Vec<u8>> = match read_key(&mut cur) {
                Ok(key) => key,
                Err(e) => return Err(e),
            };
            match read_bytes32(&mut cur) {
                Ok(payload) => Ok(Request::Produce { topic, key, payload }),
                Err(e) => Err(e),
            }
        } else if tag == TAG_FETCH {
            let topic: String = match read_str16(&mut cur) {
                Ok(topic) => topic,
                Err(e) => return Err(e),
            };
            let partition_id: u32 = match read_u32(&mut cur) {
                Ok(partition_id) => partition_id,
                Err(e) => return Err(e),
            };
            let offset: u64 = match read_u64(&mut cur) {
                Ok(offset) => offset,
                Err(e) => return Err(e),
            };
            match read_u32(&mut cur) {
                Ok(max_messages) => Ok(
                    Request::Fetch { topic, partition_id, offset, max_messages },
                ),
                Err(e) => Err(e),
            }
        } else {
            Err(unknown_tag_error("unknown request tag: 0x", tag))
        }
    }

    /// Read and decode one request frame from `reader`.
    ///
    /// Returns `None` on clean EOF (client disconnected).
    pub fn read_from(reader: &mut &[u8]) -> (r: Result<Option<Self>, Error>)
        ensures
            (seen_option(r), final(reader)@) == first_request(old(reader)@),
    {
        match read_frame(reader) {
            Err(e) => Err(e),
            Ok(None) => Ok(None),
            Ok(Some(body)) => match Request::decode(body.as_slice()) {
                Ok(request) => Ok(Some(request)),
                Err(e) => Err(e),
            },
        }
    }
}

impl Response {
    /// Decode a frame body.
    pub fn decode(body: &[u8]) -> (r: Result<Response, Error>)
        ensures
            seen(r) == parse_response(body@),
    {
        let mut cur: &[u8] = body;
        let tag: u8 = match read_u8(&mut cur) {
            Ok(tag) => tag,
            Err(e) => return Err(e),
        };
        if tag == TAG_OK {
            Ok(Response::Okay)
        } else if tag == TAG_PRODUCED {
            let partition_id: u32 = match read_u32(&mut cur) {
                Ok(partition_id) => partition_id,
                Err(e) => return Err(e),
            };
            match read_u64(&mut cur) {
                Ok(offset) => Ok(Response::Produced { partition_id, offset }),
                Err(e) => Err(e),
            }
        } else if tag == TAG_FETCHED {
            let count: u32 = match read_u32(&mut cur) {
                Ok(count) => count,
                Err(e) => return Err(e),
            };
            let ghost start = cur@;
            let mut messages: Vec<FetchedWireMessage> = Vec::new();
            let mut i: u32 = 0;
            assert(wire_messages(messages@) =~= Seq::empty());
            while i < count
                invariant
                    i <= count,
                    parse_messages(start, count as nat, Seq::empty()) == parse_messages(
                        cur@,
                        (count - i) as nat,
                        wire_messages(messages@),
                    ),
                    parse_u8(body@) == (Ok::<u8, ErrorView>(TAG_FETCHED), body@.skip(1)),
                    parse_u32(body@.skip(1)) == (Ok::<u32, ErrorView>(count), start),
                decreases count - i,
            {
                let offset: u64 = match read_u64(&mut cur) {
                    Ok(offset) => offset,
                    Err(e) => return Err(e),
                };
                let payload: Vec<u8> = match read_bytes32(&mut cur) {
                    Ok(payload) => payload,
                    Err(e) => return Err(e),
                };
                let ghost before = wire_messages(messages@);
                messages.push(FetchedWireMessage { offset, payload });
                assert(wire_messages(messages@) =~= before.push(
                    MessageView { offset, payload: payload@ },
                ));
                i = i + 1;
            }
            Ok(Response::Fetched { messages })
        } else if tag == TAG_ERROR {
            match read_str16(&mut cur) {
                Ok(message) => Ok(Response::Error { message }),
                Err(e) => Err(e),
            }
        } else {
            Err(unknown_tag_error("unknown response tag: 0x", tag))
        }
    }

    /// Read and decode one response frame from `reader`.
    ///
    /// Returns `None` on clean EOF.
    pub fn read_from(reader: &mut &[u8]) -> (r: Result<Option<Self>, Error>)
        ensures
            (seen_option(r), final(reader)@) == first_response(old(reader)@),
    {
        match read_frame(reader) {
            Err(e) => Err(e),
            Ok(None) => Ok(None),
            Ok(Some(body)) => match Response::decode(body.as_slice()) {
                Ok(response) => Ok(Some(response)),
                Err(e) => Err(e),
            },
        }
    }
}

// ── Laws ─────────────────────────────────────────────────────────────────────

proof fn lemma_split<T>(head: Seq<T>, tail: Seq<T>)
    ensures
        (head + tail).take(head.len() as int) == head,
        (head + tail).skip(head.len() as int) == tail,
{
    assert((head + tail).take(head.len() as int) =~= head);
    assert((head + tail).skip(head.len() as int) =~= tail);
}

proof fn lemma_parse_u8_tag(tag: u8, tail: Seq<u8>)
    ensures
        parse_u8(seq![tag] + tail) == (Ok::<u8, ErrorView>(tag), tail),
{
    lemma_split(seq![tag], tail);
}

proof fn lemma_parse_u16_written(v: u16, tail: Seq<u8>)
    ensures
        parse_u16(be_bytes(v as nat, 2) + tail) == (Ok::<u16, ErrorView>(v), tail),
{
    lemma_be_bytes_len(v as nat, 2);
    lemma_pow256_widths();
    law_be_decode_encode(v as nat, 2);
    lemma_split(be_bytes(v as nat, 2), tail);
}

proof fn lemma_parse_u32_written(v: u32, tail: Seq<u8>)
    ensures
        parse_u32(be_bytes(v as nat, 4) + tail) == (Ok::<u32, ErrorView>(v), tail),
{
    lemma_be_bytes_len(v as nat, 4);
    lemma_pow256_widths();
    law_be_decode_encode(v as nat, 4);
    lemma_split(be_bytes(v as nat, 4), tail);
}

proof fn lemma_parse_u64_written(v: u64, tail: Seq<u8>)
    ensures
        parse_u64(be_bytes(v as nat, 8) + tail) == (Ok::<u64, ErrorView>(v), tail),
{
    lemma_be_bytes_len(v as nat, 8);
    lemma_pow256_widths();
    law_be_decode_encode(v as nat, 8);
    lemma_split(be_bytes(v as nat, 8), tail);
}

proof fn lemma_parse_bytes32_written(bytes: Seq<u8>, tail: Seq<u8>)
    requires
        bytes.len() <= u32::MAX,
    ensures
        parse_bytes32(bytes32(bytes) + tail) == (Ok::<Seq<u8>, ErrorView>(bytes), tail),
{
    let n = bytes.len() as u32;
    assert(bytes32(bytes) + tail =~= be_bytes(n as nat, 4) + (bytes + tail));
    lemma_parse_u32_written(n, bytes + tail);
    lemma_split(bytes, tail);
}

proof fn lemma_parse_str16_written(s: Seq<char>, tail: Seq<u8>)
    requires
        encode_utf8(s).len() <= u16::MAX,
    ensures
        parse_str16(str16(s) + tail) == (Ok::<Seq<char>, ErrorView>(s), tail),
{
    let bytes = encode_utf8(s);
    let n = bytes.len() as u16;
    assert(str16(s) + tail =~= be_bytes(n as nat, 2) + (bytes + tail));
    lemma_parse_u16_written(n, bytes + tail);
    lemma_split(bytes, tail);
    encode_utf8_valid_utf8(s);
    encode_utf8_decode_utf8(s);
}

/// The first message of a list is also the first on the wire.
proof fn lemma_messages_bytes_first(messages: Seq<MessageView>)
    requires
        messages.len() > 0,
    ensures
        messages_bytes(messages) == be_bytes(messages[0].offset as nat, 8) + bytes32(
            messages[0].payload,
        ) + messages_bytes(messages.skip(1)),
    decreases messages.len(),
{
    let first = be_bytes(messages[0].offset as nat, 8) + bytes32(messages[0].payload);
    let last = be_bytes(messages.last().offset as nat, 8) + bytes32(messages.last().payload);
    if messages.len() == 1 {
        assert(messages.drop_last() =~= Seq::empty());
        assert(messages.skip(1) =~= Seq::empty());
        assert(messages_bytes(messages) =~= first + messages_bytes(messages.skip(1)));
    } else {
        let init = messages.drop_last();
        lemma_messages_bytes_first(init);
        assert(init.skip(1) =~= messages.skip(1).drop_last());
        assert(messages.skip(1).last() == messages.last());
        assert(messages_bytes(messages) =~= first + messages_bytes(init.skip(1)) + last);
        assert(messages_bytes(messages.skip(1)) =~= messages_bytes(init.skip(1)) + last);
    }
}

/// No payload is longer than the list that carries it.
proof fn lemma_messages_bytes_bound(messages: Seq<MessageView>)
    ensures
        messages.len() <= messages_bytes(messages).len(),
        forall|i: int|
            0 <= i < messages.len() ==> (#[trigger] messages[i]).payload.len() <= messages_bytes(
                messages,
            ).len(),
    decreases messages.len(),
{
    if messages.len() > 0 {
        let init = messages.drop_last();
        lemma_messages_bytes_bound(init);
        lemma_be_bytes_len(messages.last().offset as nat, 8);
        assert forall|i: int| 0 <= i < messages.len() implies (
        #[trigger] messages[i]).payload.len() <= messages_bytes(messages).len() by {
            if i < init.len() {
                assert(init[i] == messages[i]);
            }
        }
    }
}

proof fn lemma_parse_messages_written(
    messages: Seq<MessageView>,
    tail: Seq<u8>,
    before: Seq<MessageView>,
)
    requires
        forall|i: int|
            0 <= i < messages.len() ==> (#[trigger] messages[i]).payload.len() <= u32::MAX,
    ensures
        parse_messages(messages_bytes(messages) + tail, messages.len(), before) == (
            Ok::<Seq<MessageView>, ErrorView>(before + messages),
            tail,
        ),
    decreases messages.len(),
{
    if messages.len() == 0 {
        assert(messages_bytes(messages) + tail =~= tail);
        assert(before + messages =~= before);
    } else {
        let m = messages[0];
        let rest = messages.skip(1);
        lemma_messages_bytes_first(messages);
        let after_payload = messages_bytes(rest) + tail;
        let after_offset = bytes32(m.payload) + after_payload;
        assert(messages_bytes(messages) + tail =~= be_bytes(m.offset as nat, 8) + after_offset);
        lemma_parse_u64_written(m.offset, after_offset);
        lemma_parse_bytes32_written(m.payload, after_payload);
        assert forall|i: int| 0 <= i < rest.len() implies (#[trigger] rest[i]).payload.len()
            <= u32::MAX by {
            assert(rest[i] == messages[i + 1]);
        }
        lemma_parse_messages_written(rest, tail, before.push(m));
        assert(before.push(m) + rest =~= before + messages);
    }
}

/// The body of a create, whatever follows it.
proof fn lemma_create_topic_roundtrip(name: Seq<char>, partition_count: u32, tail: Seq<u8>)
    requires
        encode_utf8(name).len() <= u16::MAX,
    ensures
        parse_create_topic(str16(name) + be_bytes(partition_count as nat, 4) + tail) == Ok::<
            RequestView,
            ErrorView,
        >(RequestView::CreateTopic { name, partition_count }),
{
    let count = be_bytes(partition_count as nat, 4);
    assert(str16(name) + count + tail =~= str16(name) + (count + tail));
    lemma_parse_str16_written(name, count + tail);
    lemma_parse_u32_written(partition_count, tail);
}

proof fn lemma_parse_key_written(key: Option<Seq<u8>>, tail: Seq<u8>)
    requires
        key is Some ==> key->0.len() <= u32::MAX,
    ensures
        parse_key(key_field(key) + tail) == (Ok::<Option<Seq<u8>>, ErrorView>(key), tail),
{
    match key {
        Some(k) => {
            assert(key_field(key) + tail =~= seq![1u8] + (bytes32(k) + tail));
            lemma_parse_u8_tag(1u8, bytes32(k) + tail);
            lemma_parse_bytes32_written(k, tail);
        },
        None => {
            lemma_parse_u8_tag(0u8, tail);
        },
    }
}

/// The body of a produce, whatever follows it.
proof fn lemma_produce_roundtrip(
    topic: Seq<char>,
    key: Option<Seq<u8>>,
    payload: Seq<u8>,
    tail: Seq<u8>,
)
    requires
        encode_utf8(topic).len() <= u16::MAX,
        key is Some ==> key->0.len() <= u32::MAX,
        payload.len() <= u32::MAX,
    ensures
        parse_produce(str16(topic) + key_field(key) + bytes32(payload) + tail) == Ok::<
            RequestView,
            ErrorView,
        >(RequestView::Produce { topic, key, payload }),
{
    let s2 = bytes32(payload) + tail;
    let s1 = key_field(key) + s2;
    assert(str16(topic) + key_field(key) + bytes32(payload) + tail =~= str16(topic) + s1);
    lemma_parse_str16_written(topic, s1);
    lemma_parse_key_written(key, s2);
    lemma_parse_bytes32_written(payload, tail);
}

/// The body of a fetch, whatever follows it.
proof fn lemma_fetch_roundtrip(
    topic: Seq<char>,
    partition_id: u32,
    offset: u64,
    max_messages: u32,
    tail: Seq<u8>,
)
    requires
        encode_utf8(topic).len() <= u16::MAX,
    ensures
        parse_fetch(
            str16(topic) + be_bytes(partition_id as nat, 4) + be_bytes(offset as nat, 8)
                + be_bytes(max_messages as nat, 4) + tail,
        ) == Ok::<RequestView, ErrorView>(
            RequestView::Fetch { topic, partition_id, offset, max_messages },
        ),
{
    let s4 = be_bytes(max_messages as nat, 4) + tail;
    let s3 = be_bytes(offset as nat, 8) + s4;
    let s2 = be_bytes(partition_id as nat, 4) + s3;
    assert(str16(topic) + be_bytes(partition_id as nat, 4) + be_bytes(offset as nat, 8)
        + be_bytes(max_messages as nat, 4) + tail =~= str16(topic) + s2);
    lemma_parse_str16_written(topic, s2);
    lemma_parse_u32_written(partition_id, s3);
    lemma_parse_u64_written(offset, s4);
    lemma_parse_u32_written(max_messages, tail);
}

/// Decoding the body of a request gives the request back, whenever its lengths
/// fit their fields. Bytes after the last field change nothing.
pub proof fn law_request_extended(request: RequestView, tail: Seq<u8>)
    requires
        request.fits(),
    ensures
        parse_request(request.body() + tail) == Ok::<RequestView, ErrorView>(request),
{
    let body = request.body();
    match request {
        RequestView::CreateTopic { name, partition_count } => {
            let s = str16(name) + be_bytes(partition_count as nat, 4);
            assert(body + tail =~= seq![TAG_CREATE_TOPIC] + (s + tail));
            lemma_parse_u8_tag(TAG_CREATE_TOPIC, s + tail);
            lemma_create_topic_roundtrip(name, partition_count, tail);
        },
        RequestView::Produce { topic, key, payload } => {
            let s = str16(topic) + key_field(key) + bytes32(payload);
            assert(body + tail =~= seq![TAG_PRODUCE] + (s + tail));
            lemma_parse_u8_tag(TAG_PRODUCE, s + tail);
            lemma_produce_roundtrip(topic, key, payload, tail);
        },
        RequestView::Fetch { topic, partition_id, offset, max_messages } => {
            let s = str16(topic) + be_bytes(partition_id as nat, 4) + be_bytes(offset as nat, 8)
                + be_bytes(max_messages as nat, 4);
            assert(body + tail =~= seq![TAG_FETCH] + (s + tail));
            lemma_parse_u8_tag(TAG_FETCH, s + tail);
            lemma_fetch_roundtrip(topic, partition_id, offset, max_messages, tail);
        },
    }
}

/// Decoding the body of a request gives the request back, whenever its lengths
/// fit their fields.
pub proof fn law_request_roundtrip(request: RequestView)
    requires
        request.fits(),
    ensures
        parse_request(request.body()) == Ok::<RequestView, ErrorView>(request),
{
    law_request_extended(request, Seq::empty());
    assert(request.body() + Seq::<u8>::empty() =~= request.body());
}

/// A response decodes as it was encoded, and bytes after the last field change
/// nothing.
pub proof fn law_response_extended(response: ResponseView, tail: Seq<u8>)
    requires
        response.fits(),
    ensures
        parse_response(response.body() + tail) == Ok::<ResponseView, ErrorView>(response),
{
    let body = response.body();
    match response {
        ResponseView::Okay => {
            lemma_parse_u8_tag(TAG_OK, tail);
        },
        ResponseView::Produced { partition_id, offset } => {
            let s2 = be_bytes(offset as nat, 8) + tail;
            let s1 = be_bytes(partition_id as nat, 4) + s2;
            assert(body + tail =~= seq![TAG_PRODUCED] + s1);
            lemma_parse_u8_tag(TAG_PRODUCED, s1);
            lemma_parse_u32_written(partition_id, s2);
            lemma_parse_u64_written(offset, tail);
        },
        ResponseView::Fetched { messages } => {
            lemma_messages_bytes_bound(messages);
            let n = messages.len() as u32;
            let s2 = messages_bytes(messages) + tail;
            let s1 = be_bytes(n as nat, 4) + s2;
            assert(body + tail =~= seq![TAG_FETCHED] + s1);
            lemma_parse_u8_tag(TAG_FETCHED, s1);
            lemma_parse_u32_written(n, s2);
            lemma_parse_messages_written(messages, tail, Seq::empty());
            assert(Seq::<MessageView>::empty() + messages =~= messages);
        },
        ResponseView::Error { message } => {
            let s1 = str16(message) + tail;
            assert(body + tail =~= seq![TAG_ERROR] + s1);
            lemma_parse_u8_tag(TAG_ERROR, s1);
            lemma_parse_str16_written(message, tail);
        },
    }
}

/// Decoding the body of a response gives the response back, whenever its lengths
/// fit their fields.
pub proof fn law_response_roundtrip(response: ResponseView)
    requires
        response.fits(),
    ensures
        parse_response(response.body()) == Ok::<ResponseView, ErrorView>(response),
{
    law_response_extended(response, Seq::empty());
    assert(response.body() + Seq::<u8>::empty() =~= response.body());
}

// ── What fits ────────────────────────────────────────────────────────────────

/// A request fits its frame if its name takes up at most 65535 bytes and all of it
/// at most 2^32 - 1.
pub proof fn law_request_fits(
    name: Seq<char>,
    partition_count: u32,
    offset: u64,
    max_messages: u32,
    key: Option<Seq<u8>>,
    payload: Seq<u8>,
)
    requires
        encode_utf8(name).len() <= 65535,
    ensures
        (RequestView::CreateTopic { name, partition_count }).fits(),
        (RequestView::Fetch { topic: name, partition_id: partition_count, offset, max_messages })
            .fits(),
        8 + encode_utf8(name).len() + payload.len() + (match key {
            Some(k) => 4 + k.len() as int,
            None => 0,
        }) <= 0xFFFF_FFFF ==> (RequestView::Produce { topic: name, key, payload }).fits(),
{
    let n = encode_utf8(name).len();
    lemma_be_bytes_len(n % 0x1_0000, 2);
    lemma_be_bytes_len(partition_count as nat, 4);
    lemma_be_bytes_len(offset as nat, 8);
    lemma_be_bytes_len(max_messages as nat, 4);
    lemma_be_bytes_len(payload.len() % 0x1_0000_0000, 4);
    if let Some(k) = key {
        lemma_be_bytes_len(k.len() % 0x1_0000_0000, 4);
    }
}

/// A response fits its frame if its message takes up at most 65535 bytes, or its list,
/// with twelve bytes for each message beside the payload, at most 2^32 - 1.
pub proof fn law_response_fits(
    partition_id: u32,
    offset: u64,
    message: Seq<char>,
    messages: Seq<MessageView>,
)
    ensures
        ResponseView::Okay.fits(),
        (ResponseView::Produced { partition_id, offset }).fits(),
        encode_utf8(message).len() <= 65535 ==> (ResponseView::Error { message }).fits(),
        5 + messages.map_values(|m: MessageView| 12 + m.payload.len() as int).fold_left(
            0,
            |sum: int, n: int| sum + n,
        ) <= 0xFFFF_FFFF ==> (ResponseView::Fetched { messages }).fits(),
{
    lemma_be_bytes_len(partition_id as nat, 4);
    lemma_be_bytes_len(offset as nat, 8);
    lemma_be_bytes_len(encode_utf8(message).len() % 0x1_0000, 2);
    lemma_be_bytes_len(messages.len() % 0x1_0000_0000, 4);
    lemma_messages_size(messages);
}

proof fn lemma_messages_size(messages: Seq<MessageView>)
    ensures
        messages_bytes(messages).len() as int == messages.map_values(
            |m: MessageView| 12 + m.payload.len() as int,
        ).fold_left(0, |sum: int, n: int| sum + n),
    decreases messages.len(),
{
    if messages.len() > 0 {
        let sizes = messages.map_values(|m: MessageView| 12 + m.payload.len() as int);
        lemma_messages_size(messages.drop_last());
        assert(sizes.drop_last() =~= messages.drop_last().map_values(
            |m: MessageView| 12 + m.payload.len() as int,
        ));
        lemma_be_bytes_len(messages.last().offset as nat, 8);
        lemma_be_bytes_len(messages.last().payload.len() % 0x1_0000_0000, 4);
    }
}

// ── Layout ───────────────────────────────────────────────────────────────────

/// Length fields: four bytes in front of bytes, two in front of text, holding the
/// length, cut to the width of the field.
pub proof fn law_length_fields(bytes: Seq<u8>, text: Seq<char>)
    ensures
        bytes32(bytes).len() == 4 + bytes.len(),
        be_value(bytes32(bytes).take(4)) == bytes.len() % 0x1_0000_0000,
        bytes32(bytes).skip(4) == bytes,
        frame(bytes) == bytes32(bytes),
        str16(text).len() == 2 + encode_utf8(text).len(),
        be_value(str16(text).take(2)) == encode_utf8(text).len() % 0x1_0000,
        str16(text).skip(2) == encode_utf8(text),
{
    let n = bytes.len() % 0x1_0000_0000;
    let m = encode_utf8(text).len() % 0x1_0000;
    lemma_pow256_widths();
    lemma_be_bytes_len(n, 4);
    lemma_be_bytes_len(m, 2);
    law_be_decode_encode(n, 4);
    law_be_decode_encode(m, 2);
    lemma_split(be_bytes(n, 4), bytes);
    lemma_split(be_bytes(m, 2), encode_utf8(text));
}

/// Where each field of a request stands: the tag, the name with its length, and then
/// the other fields in turn.
pub proof fn law_request_layout(
    name: Seq<char>,
    number: u32,
    offset: u64,
    max_messages: u32,
    key: Seq<u8>,
    payload: Seq<u8>,
)
    requires
        encode_utf8(name).len() <= 65535,
    ensures
        ({
            let n = encode_utf8(name).len() as int;
            let create = (RequestView::CreateTopic { name, partition_count: number }).body();
            let fetch = (RequestView::Fetch {
                topic: name,
                partition_id: number,
                offset,
                max_messages,
            }).body();
            let keyed = (RequestView::Produce { topic: name, key: Some(key), payload }).body();
            let keyless = (RequestView::Produce { topic: name, key: None, payload }).body();
            &&& create[0] == 0x01 && keyed[0] == 0x02 && keyless[0] == 0x02 && fetch[0] == 0x03
            &&& create.len() == n + 7 && fetch.len() == n + 19
            &&& create.subrange(1, n + 3) == str16(name)
            &&& be_value(create.subrange(n + 3, n + 7)) == number
            &&& fetch.subrange(1, n + 3) == str16(name)
            &&& be_value(fetch.subrange(n + 3, n + 7)) == number
            &&& be_value(fetch.subrange(n + 7, n + 15)) == offset
            &&& be_value(fetch.subrange(n + 15, n + 19)) == max_messages
            &&& keyed.subrange(1, n + 3) == str16(name)
            &&& keyed[n + 3] == 1
            &&& keyed.skip(n + 4) == bytes32(key) + bytes32(payload)
            &&& keyless.subrange(1, n + 3) == str16(name)
            &&& keyless[n + 3] == 0
            &&& keyless.skip(n + 4) == bytes32(payload)
        }),
{
    let n = encode_utf8(name).len() as int;
    lemma_pow256_widths();
    lemma_be_bytes_len(n as nat, 2);
    lemma_be_bytes_len(number as nat, 4);
    lemma_be_bytes_len(offset as nat, 8);
    lemma_be_bytes_len(max_messages as nat, 4);
    law_be_decode_encode(number as nat, 4);
    law_be_decode_encode(offset as nat, 8);
    law_be_decode_encode(max_messages as nat, 4);
    let create = (RequestView::CreateTopic { name, partition_count: number }).body();
    assert(create.subrange(1, n + 3) =~= str16(name));
    assert(create.subrange(n + 3, n + 7) =~= be_bytes(number as nat, 4));
    let fetch = (RequestView::Fetch { topic: name, partition_id: number, offset, max_messages })
        .body();
    assert(fetch.subrange(1, n + 3) =~= str16(name));
    assert(fetch.subrange(n + 3, n + 7) =~= be_bytes(number as nat, 4));
    assert(fetch.subrange(n + 7, n + 15) =~= be_bytes(offset as nat, 8));
    assert(fetch.subrange(n + 15, n + 19) =~= be_bytes(max_messages as nat, 4));
    let keyed = (RequestView::Produce { topic: name, key: Some(key), payload }).body();
    assert(keyed.subrange(1, n + 3) =~= str16(name));
    assert(keyed.skip(n + 4) =~= bytes32(key) + bytes32(payload));
    let keyless = (RequestView::Produce { topic: name, key: None, payload }).body();
    assert(keyless.subrange(1, n + 3) =~= str16(name));
    assert(keyless.skip(n + 4) =~= bytes32(payload));
}

/// Where each field of a response stands. A list grows by one message at its end: the
/// count by one, and the bytes by the offset and the payload with its length.
pub proof fn law_response_layout(
    partition_id: u32,
    offset: u64,
    message: Seq<char>,
    messages: Seq<MessageView>,
    m: MessageView,
)
    ensures
        ({
            let produced = (ResponseView::Produced { partition_id, offset }).body();
            let error = (ResponseView::Error { message }).body();
            let list = (ResponseView::Fetched { messages }).body();
            let longer = (ResponseView::Fetched { messages: messages.push(m) }).body();
            &&& ResponseView::Okay.body() == seq![0x00u8]
            &&& produced.len() == 13 && produced[0] == 0x01
            &&& be_value(produced.subrange(1, 5)) == partition_id
            &&& be_value(produced.subrange(5, 13)) == offset
            &&& error == seq![0xFFu8] + str16(message)
            &&& list.len() >= 5 && list[0] == 0x02 && longer[0] == 0x02
            &&& be_value(list.subrange(1, 5)) == messages.len() % 0x1_0000_0000
            &&& be_value(longer.subrange(1, 5)) == (messages.len() + 1) % 0x1_0000_0000
            &&& longer.skip(5) == list.skip(5) + be_bytes(m.offset as nat, 8) + bytes32(m.payload)
            &&& messages.len() == 0 ==> list.len() == 5
        }),
{
    lemma_pow256_widths();
    lemma_be_bytes_len(partition_id as nat, 4);
    lemma_be_bytes_len(offset as nat, 8);
    law_be_decode_encode(partition_id as nat, 4);
    law_be_decode_encode(offset as nat, 8);
    let produced = (ResponseView::Produced { partition_id, offset }).body();
    assert(produced.subrange(1, 5) =~= be_bytes(partition_id as nat, 4));
    assert(produced.subrange(5, 13) =~= be_bytes(offset as nat, 8));
    let n = messages.len() % 0x1_0000_0000;
    let n1 = (messages.len() + 1) % 0x1_0000_0000;
    lemma_be_bytes_len(n, 4);
    lemma_be_bytes_len(n1, 4);
    law_be_decode_encode(n, 4);
    law_be_decode_encode(n1, 4);
    let list = (ResponseView::Fetched { messages }).body();
    let longer = (ResponseView::Fetched { messages: messages.push(m) }).body();
    assert(messages.push(m).drop_last() =~= messages);
    assert(list.subrange(1, 5) =~= be_bytes(n, 4));
    assert(longer.subrange(1, 5) =~= be_bytes(n1, 4));
    assert(list.skip(5) =~= messages_bytes(messages));
    assert(longer.skip(5) =~= messages_bytes(messages.push(m)));
    assert(longer.skip(5) =~= list.skip(5) + be_bytes(m.offset as nat, 8) + bytes32(m.payload));
}

// ── Broken input ─────────────────────────────────────────────────────────────

/// A field that is cut short is an error that says what was expected, and nothing is
/// read.
pub proof fn law_short_field(s: Seq<u8>)
    ensures
        s.len() < 1 ==> parse_u8(s) == (
            Err::<u8, ErrorView>(
                ErrorView { kind: ErrorKind::UnexpectedEof, message: "expected u8"@ },
            ),
            s,
        ),
        s.len() < 2 ==> parse_u16(s) == (
            Err::<u16, ErrorView>(
                ErrorView { kind: ErrorKind::UnexpectedEof, message: "expected u16"@ },
            ),
            s,
        ),
        s.len() < 4 ==> parse_u32(s) == (
            Err::<u32, ErrorView>(
                ErrorView { kind: ErrorKind::UnexpectedEof, message: "expected u32"@ },
            ),
            s,
        ),
        s.len() < 8 ==> parse_u64(s) == (
            Err::<u64, ErrorView>(
                ErrorView { kind: ErrorKind::UnexpectedEof, message: "expected u64"@ },
            ),
            s,
        ),
{
}

/// Bytes and text whose length field promises more than follows are an error that says
/// what was expected.
pub proof fn law_short_body(n: nat, body: Seq<u8>)
    requires
        body.len() < n,
    ensures
        n <= 0xFFFF ==> parse_str16(be_bytes(n, 2) + body) == (
            Err::<Seq<char>, ErrorView>(
                ErrorView { kind: ErrorKind::UnexpectedEof, message: "expected str body"@ },
            ),
            body,
        ),
        n <= 0xFFFF_FFFF ==> parse_bytes32(be_bytes(n, 4) + body) == (
            Err::<Seq<u8>, ErrorView>(
                ErrorView { kind: ErrorKind::UnexpectedEof, message: "expected bytes body"@ },
            ),
            body,
        ),
{
    if n <= 0xFFFF {
        lemma_parse_u16_written(n as u16, body);
    }
    if n <= 0xFFFF_FFFF {
        lemma_parse_u32_written(n as u32, body);
    }
}

/// Text that is not UTF-8 is refused with what std says about it.
pub proof fn law_bad_text(bytes: Seq<u8>, tail: Seq<u8>)
    requires
        bytes.len() <= 0xFFFF,
        !valid_utf8(bytes),
    ensures
        parse_str16(be_bytes(bytes.len(), 2) + bytes + tail).0 == Err::<Seq<char>, ErrorView>(
            ErrorView { kind: ErrorKind::InvalidData, message: utf8_complaint(bytes) },
        ),
{
    assert(be_bytes(bytes.len(), 2) + bytes + tail =~= be_bytes(bytes.len(), 2) + (bytes + tail));
    lemma_parse_u16_written(bytes.len() as u16, bytes + tail);
    lemma_split(bytes, tail);
}

/// A request whose name, or an error response whose message, is not UTF-8 or is cut
/// short is refused with the error of that text, and a body of no bytes as one without
/// a tag.
pub proof fn law_bad_name(tag: u8, s: Seq<u8>)
    ensures
        parse_str16(s).0 matches Err(e) ==> {
            &&& tag == 1 || tag == 2 || tag == 3 ==> parse_request(seq![tag] + s) == Err::<
                RequestView,
                ErrorView,
            >(e)
            &&& parse_response(seq![0xFFu8] + s) == Err::<ResponseView, ErrorView>(e)
        },
        parse_request(Seq::empty()) == Err::<RequestView, ErrorView>(
            ErrorView { kind: ErrorKind::UnexpectedEof, message: "expected u8"@ },
        ),
        parse_response(Seq::empty()) == Err::<ResponseView, ErrorView>(
            ErrorView { kind: ErrorKind::UnexpectedEof, message: "expected u8"@ },
        ),
{
    lemma_parse_u8_tag(tag, s);
    lemma_parse_u8_tag(0xFFu8, s);
}

/// Any flag but zero announces a key.
pub proof fn law_key_flag(flag: u8, key: Seq<u8>, tail: Seq<u8>)
    requires
        key.len() <= 0xFFFF_FFFF,
    ensures
        flag != 0 ==> parse_key(seq![flag] + (bytes32(key) + tail)) == (
            Ok::<Option<Seq<u8>>, ErrorView>(Some(key)),
            tail,
        ),
        parse_key(seq![0u8] + tail) == (Ok::<Option<Seq<u8>>, ErrorView>(None), tail),
{
    lemma_parse_u8_tag(flag, bytes32(key) + tail);
    lemma_parse_bytes32_written(key, tail);
    lemma_parse_u8_tag(0u8, tail);
}

/// A body that starts with a tag that names no request, or no response, is refused
/// with the tag in two hexadecimal digits.
pub proof fn law_unknown_tag(tag: u8, rest: Seq<u8>)
    ensures
        tag != 1 && tag != 2 && tag != 3 ==> parse_request(seq![tag] + rest) == Err::<
            RequestView,
            ErrorView,
        >(
            ErrorView {
                kind: ErrorKind::InvalidData,
                message: "unknown request tag: 0x"@ + hex2(tag),
            },
        ),
        tag != 0 && tag != 1 && tag != 2 && tag != 0xFF ==> parse_response(seq![tag] + rest)
            == Err::<ResponseView, ErrorView>(
            ErrorView {
                kind: ErrorKind::InvalidData,
                message: "unknown response tag: 0x"@ + hex2(tag),
            },
        ),
{
    lemma_parse_u8_tag(tag, rest);
}

/// A stream that ends inside the body of a frame is cut short.
pub proof fn law_cut_frame(body: Seq<u8>, k: int)
    requires
        body.len() <= 0xFFFF_FFFF,
        4 <= k < 4 + body.len(),
    ensures
        parse_frame(frame(body).take(k)) == (
            Err::<Option<Seq<u8>>, ErrorView>(
                ErrorView { kind: ErrorKind::UnexpectedEof, message: "early eof"@ },
            ),
            Seq::<u8>::empty(),
        ),
        first_request(frame(body).take(k)).0 == Err::<Option<RequestView>, ErrorView>(
            ErrorView { kind: ErrorKind::UnexpectedEof, message: "early eof"@ },
        ),
        first_response(frame(body).take(k)).0 == Err::<Option<ResponseView>, ErrorView>(
            ErrorView { kind: ErrorKind::UnexpectedEof, message: "early eof"@ },
        ),
{
    law_length_fields(body, Seq::empty());
    assert(frame(body).take(k).take(4) =~= frame(body).take(4));
}

/// A body that is no request, or no response, is refused with the same error when it
/// comes in a frame, and the stream goes on after the frame.
pub proof fn law_framed_error(body: Seq<u8>, tail: Seq<u8>)
    requires
        body.len() <= 0xFFFF_FFFF,
    ensures
        parse_request(body) matches Err(e) ==> first_request(frame(body) + tail) == (
            Err::<Option<RequestView>, ErrorView>(e),
            tail,
        ),
        parse_response(body) matches Err(e) ==> first_response(frame(body) + tail) == (
            Err::<Option<ResponseView>, ErrorView>(e),
            tail,
        ),
{
    law_frame_roundtrip(body, tail);
}

/// A beginning of two parts is a beginning of the first, or the first and a beginning
/// of the second.
proof fn lemma_cut<T>(head: Seq<T>, tail: Seq<T>, k: int)
    requires
        0 <= k <= head.len() + tail.len(),
    ensures
        (head + tail).take(k) == (if k < head.len() {
            head.take(k)
        } else {
            head + tail.take(k - head.len())
        }),
{
    if k < head.len() {
        assert((head + tail).take(k) =~= head.take(k));
    } else {
        assert((head + tail).take(k) =~= head + tail.take(k - head.len()));
    }
}

proof fn lemma_str16_cut(s: Seq<char>, k: int)
    requires
        encode_utf8(s).len() <= u16::MAX,
        0 <= k < str16(s).len(),
    ensures
        parse_str16(str16(s).take(k)).0 matches Err(e) && e.kind == ErrorKind::UnexpectedEof,
{
    let n = encode_utf8(s).len();
    lemma_be_bytes_len(n, 2);
    if k >= 2 {
        lemma_cut(be_bytes(n, 2), encode_utf8(s), k);
        lemma_parse_u16_written(n as u16, encode_utf8(s).take(k - 2));
    }
}

proof fn lemma_bytes32_cut(bytes: Seq<u8>, k: int)
    requires
        bytes.len() <= u32::MAX,
        0 <= k < bytes32(bytes).len(),
    ensures
        parse_bytes32(bytes32(bytes).take(k)).0 matches Err(e) && e.kind
            == ErrorKind::UnexpectedEof,
{
    let n = bytes.len();
    lemma_be_bytes_len(n, 4);
    if k >= 4 {
        lemma_cut(be_bytes(n, 4), bytes, k);
        lemma_parse_u32_written(n as u32, bytes.take(k - 4));
    }
}

proof fn lemma_key_cut(key: Option<Seq<u8>>, k: int)
    requires
        key is Some ==> key->0.len() <= u32::MAX,
        0 <= k < key_field(key).len(),
    ensures
        parse_key(key_field(key).take(k)).0 matches Err(e) && e.kind == ErrorKind::UnexpectedEof,
{
    if k >= 1 {
        let b = key->0;
        lemma_cut(seq![1u8], bytes32(b), k);
        lemma_parse_u8_tag(1u8, bytes32(b).take(k - 1));
        lemma_bytes32_cut(b, k - 1);
    }
}

proof fn lemma_create_topic_cut(name: Seq<char>, partition_count: u32, k: int)
    requires
        encode_utf8(name).len() <= u16::MAX,
        0 <= k < str16(name).len() + 4,
    ensures
        parse_create_topic((str16(name) + be_bytes(partition_count as nat, 4)).take(k)) matches Err(
            e,
        ) && e.kind == ErrorKind::UnexpectedEof,
{
    let count = be_bytes(partition_count as nat, 4);
    lemma_be_bytes_len(partition_count as nat, 4);
    lemma_cut(str16(name), count, k);
    if k < str16(name).len() {
        lemma_str16_cut(name, k);
    } else {
        lemma_parse_str16_written(name, count.take(k - str16(name).len()));
    }
}

proof fn lemma_produce_cut(topic: Seq<char>, key: Option<Seq<u8>>, payload: Seq<u8>, k: int)
    requires
        encode_utf8(topic).len() <= u16::MAX,
        key is Some ==> key->0.len() <= u32::MAX,
        payload.len() <= u32::MAX,
        0 <= k < str16(topic).len() + key_field(key).len() + bytes32(payload).len(),
    ensures
        parse_produce((str16(topic) + (key_field(key) + bytes32(payload))).take(k)) matches Err(e)
            && e.kind == ErrorKind::UnexpectedEof,
{
    let s2 = bytes32(payload);
    let s1 = key_field(key) + s2;
    lemma_cut(str16(topic), s1, k);
    if k < str16(topic).len() {
        lemma_str16_cut(topic, k);
    } else {
        let j1 = k - str16(topic).len();
        lemma_parse_str16_written(topic, s1.take(j1));
        lemma_cut(key_field(key), s2, j1);
        if j1 < key_field(key).len() {
            lemma_key_cut(key, j1);
        } else {
            let j2 = j1 - key_field(key).len();
            lemma_parse_key_written(key, s2.take(j2));
            lemma_bytes32_cut(payload, j2);
        }
    }
}

proof fn lemma_fetch_cut(
    topic: Seq<char>,
    partition_id: u32,
    offset: u64,
    max_messages: u32,
    k: int,
)
    requires
        encode_utf8(topic).len() <= u16::MAX,
        0 <= k < str16(topic).len() + 16,
    ensures
        parse_fetch(
            (str16(topic) + (be_bytes(partition_id as nat, 4) + (be_bytes(offset as nat, 8)
                + be_bytes(max_messages as nat, 4)))).take(k),
        ) matches Err(e) && e.kind == ErrorKind::UnexpectedEof,
{
    let s3 = be_bytes(max_messages as nat, 4);
    let s2 = be_bytes(offset as nat, 8) + s3;
    let s1 = be_bytes(partition_id as nat, 4) + s2;
    lemma_be_bytes_len(partition_id as nat, 4);
    lemma_be_bytes_len(offset as nat, 8);
    lemma_be_bytes_len(max_messages as nat, 4);
    lemma_cut(str16(topic), s1, k);
    if k < str16(topic).len() {
        lemma_str16_cut(topic, k);
    } else {
        let j1 = k - str16(topic).len();
        lemma_parse_str16_written(topic, s1.take(j1));
        lemma_cut(be_bytes(partition_id as nat, 4), s2, j1);
        if j1 >= 4 {
            let j2 = j1 - 4;
            lemma_parse_u32_written(partition_id, s2.take(j2));
            lemma_cut(be_bytes(offset as nat, 8), s3, j2);
            if j2 >= 8 {
                lemma_parse_u64_written(offset, s3.take(j2 - 8));
            }
        }
    }
}

/// A request that is cut off anywhere is refused as too short.
pub proof fn law_request_cut(request: RequestView, k: int)
    requires
        request.fits(),
        0 <= k < request.body().len(),
    ensures
        parse_request(request.body().take(k)) matches Err(e) && e.kind
            == ErrorKind::UnexpectedEof,
{
    let body = request.body();
    let tag = request.body()[0];
    let s = match request {
        RequestView::CreateTopic { name, partition_count } => str16(name) + be_bytes(
            partition_count as nat,
            4,
        ),
        RequestView::Produce { topic, key, payload } => str16(topic) + (key_field(key) + bytes32(
            payload,
        )),
        RequestView::Fetch { topic, partition_id, offset, max_messages } => str16(topic) + (
        be_bytes(partition_id as nat, 4) + (be_bytes(offset as nat, 8) + be_bytes(
            max_messages as nat,
            4,
        ))),
    };
    assert(body =~= seq![tag] + s);
    lemma_cut(seq![tag], s, k);
    if k == 0 {
        assert(body.take(0).len() == 0);
    } else {
        lemma_parse_u8_tag(tag, s.take(k - 1));
        match request {
            RequestView::CreateTopic { name, partition_count } => {
                lemma_be_bytes_len(partition_count as nat, 4);
                lemma_create_topic_cut(name, partition_count, k - 1);
            },
            RequestView::Produce { topic, key, payload } => {
                lemma_produce_cut(topic, key, payload, k - 1);
            },
            RequestView::Fetch { topic, partition_id, offset, max_messages } => {
                lemma_be_bytes_len(partition_id as nat, 4);
                lemma_be_bytes_len(offset as nat, 8);
                lemma_be_bytes_len(max_messages as nat, 4);
                lemma_fetch_cut(topic, partition_id, offset, max_messages, k - 1);
            },
        }
    }
}

proof fn lemma_messages_cut(messages: Seq<MessageView>, k: int, before: Seq<MessageView>)
    requires
        forall|i: int|
            0 <= i < messages.len() ==> (#[trigger] messages[i]).payload.len() <= u32::MAX,
        0 <= k < messages_bytes(messages).len(),
    ensures
        parse_messages(messages_bytes(messages).take(k), messages.len(), before).0 matches Err(e)
            && e.kind == ErrorKind::UnexpectedEof,
    decreases messages.len(),
{
    if messages.len() > 0 {
        let m = messages[0];
        let rest = messages.skip(1);
        lemma_messages_bytes_first(messages);
        let s2 = messages_bytes(rest);
        let s1 = bytes32(m.payload) + s2;
        let offset = be_bytes(m.offset as nat, 8);
        lemma_be_bytes_len(m.offset as nat, 8);
        assert(messages_bytes(messages) =~= offset + s1);
        lemma_cut(offset, s1, k);
        if k >= 8 {
            let j = k - 8;
            lemma_parse_u64_written(m.offset, s1.take(j));
            lemma_cut(bytes32(m.payload), s2, j);
            if j < bytes32(m.payload).len() {
                lemma_bytes32_cut(m.payload, j);
            } else {
                let j1 = j - bytes32(m.payload).len();
                lemma_parse_bytes32_written(m.payload, s2.take(j1));
                assert forall|i: int| 0 <= i < rest.len() implies (
                #[trigger] rest[i]).payload.len() <= u32::MAX by {
                    assert(rest[i] == messages[i + 1]);
                }
                lemma_messages_cut(rest, j1, before.push(m));
            }
        }
    }
}

/// A response that is cut off anywhere is refused as too short.
pub proof fn law_response_cut(response: ResponseView, k: int)
    requires
        response.fits(),
        0 <= k < response.body().len(),
    ensures
        parse_response(response.body().take(k)) matches Err(e) && e.kind
            == ErrorKind::UnexpectedEof,
{
    let body = response.body();
    if k == 0 {
        assert(body.take(0).len() == 0);
    } else {
        match response {
            ResponseView::Okay => {},
            ResponseView::Produced { partition_id, offset } => {
                let s1 = be_bytes(offset as nat, 8);
                let s = be_bytes(partition_id as nat, 4) + s1;
                lemma_be_bytes_len(partition_id as nat, 4);
                lemma_be_bytes_len(offset as nat, 8);
                assert(body =~= seq![TAG_PRODUCED] + s);
                lemma_cut(seq![TAG_PRODUCED], s, k);
                lemma_parse_u8_tag(TAG_PRODUCED, s.take(k - 1));
                lemma_cut(be_bytes(partition_id as nat, 4), s1, k - 1);
                if k >= 5 {
                    lemma_parse_u32_written(partition_id, s1.take(k - 5));
                }
            },
            ResponseView::Fetched { messages } => {
                lemma_messages_bytes_bound(messages);
                let n = messages.len() as u32;
                let s1 = messages_bytes(messages);
                let s = be_bytes(n as nat, 4) + s1;
                lemma_be_bytes_len(n as nat, 4);
                assert(body =~= seq![TAG_FETCHED] + s);
                lemma_cut(seq![TAG_FETCHED], s, k);
                lemma_parse_u8_tag(TAG_FETCHED, s.take(k - 1));
                lemma_cut(be_bytes(n as nat, 4), s1, k - 1);
                if k >= 5 {
                    lemma_parse_u32_written(n, s1.take(k - 5));
                    lemma_messages_cut(messages, k - 5, Seq::empty());
                }
            },
            ResponseView::Error { message } => {
                let s = str16(message);
                assert(body =~= seq![TAG_ERROR] + s);
                lemma_cut(seq![TAG_ERROR], s, k);
                lemma_parse_u8_tag(TAG_ERROR, s.take(k - 1));
                lemma_str16_cut(message, k - 1);
            },
        }
    }
}

/// Once the length field of a frame is there, it tells how many bytes the frame takes,
/// whatever else has come.
pub proof fn law_extent(body: Seq<u8>, tail: Seq<u8>, k: int)
    requires
        body.len() <= 0xFFFF_FFFF,
        0 <= k <= frame(body).len() + tail.len(),
    ensures
        extent((frame(body) + tail).take(k)) == (if k < 4 {
            4
        } else {
            frame(body).len()
        }),
{
    law_length_fields(body, Seq::empty());
    if k >= 4 {
        assert((frame(body) + tail).take(k).take(4) =~= frame(body).take(4));
    }
}

/// A frame comes off a stream as it was put on, and what follows it is untouched.
pub proof fn law_frame_roundtrip(body: Seq<u8>, tail: Seq<u8>)
    requires
        body.len() <= u32::MAX,
    ensures
        parse_frame(frame(body) + tail) == (Ok::<Option<Seq<u8>>, ErrorView>(Some(body)), tail),
{
    let n = body.len();
    let s = frame(body) + tail;
    lemma_be_bytes_len(n, 4);
    lemma_pow256_widths();
    law_be_decode_encode(n, 4);
    assert(s.take(4) =~= be_bytes(n, 4));
    assert(s.subrange(4, 4 + n as int) =~= body);
    assert(s.skip(4 + n as int) =~= tail);
}

/// A request written to a stream is the next one read from it, and the stream
/// goes on where the request ends.
pub proof fn law_request_stream(request: RequestView, tail: Seq<u8>)
    requires
        request.fits(),
    ensures
        first_request(frame(request.body()) + tail) == (
            Ok::<Option<RequestView>, ErrorView>(Some(request)),
            tail,
        ),
{
    law_frame_roundtrip(request.body(), tail);
    law_request_roundtrip(request);
}

/// A response written to a stream is the next one read from it, and the stream
/// goes on where the response ends.
pub proof fn law_response_stream(response: ResponseView, tail: Seq<u8>)
    requires
        response.fits(),
    ensures
        first_response(frame(response.body()) + tail) == (
            Ok::<Option<ResponseView>, ErrorView>(Some(response)),
            tail,
        ),
{
    law_frame_roundtrip(response.body(), tail);
    law_response_roundtrip(response);
}

/// A finished stream holds no further request or response.
pub proof fn law_end_of_stream(s: Seq<u8>)
    requires
        s.len() < 4,
    ensures
        first_request(s) == (Ok::<Option<RequestView>, ErrorView>(None), Seq::<u8>::empty()),
        first_response(s) == (Ok::<Option<ResponseView>, ErrorView>(None), Seq::<u8>::empty()),
{
}

} // verus!
