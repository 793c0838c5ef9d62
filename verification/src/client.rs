//! What a client sends and how it takes the answers.
//!
//! The connection itself belongs to the program around this library: it sends the
//! request that a `*_request` function makes, hands the bytes that come back to
//! [`read_reply`], and the response in them to the `*_result` function of the same
//! name.

use crate::bigendian::lemma_be_bytes_len;
use crate::broker::{
    found_nothing, law_fetch, law_fetch_after_produce, law_produce, BrokerView, FoundView,
};
use crate::error::{seen, Error, ErrorKind, ErrorView};
use crate::protocol::{
    first_request, first_response, frame, law_cut_frame, law_end_of_stream, law_framed_error,
    law_request_stream, law_response_stream, messages_bytes, parse_response, wire_messages,
    FetchedWireMessage, MessageView, Request, RequestView, Response, ResponseView,
};
use crate::text::{decimal, decimal_text, quoted, quoted_text};
use crate::topic::key_bytes;
use vstd::prelude::*;
use vstd::slice::slice_to_vec;
use vstd::string::StringExecFns;
use vstd::utf8::encode_utf8;

verus! {

/// A message returned by a fetch.
#[derive(Debug, Clone, PartialEq)]
pub struct Message {
    /// The message's absolute offset within its partition.
    pub offset: u64,
    /// The raw message payload.
    pub payload: Vec<u8>,
}

impl View for Message {
    type V = MessageView;

    open spec fn view(&self) -> MessageView {
        MessageView { offset: self.offset, payload: self.payload@ }
    }
}

impl From<FetchedWireMessage> for Message {
    fn from(m: FetchedWireMessage) -> (r: Self) {
        Message { offset: m.offset, payload: m.payload }
    }
}

impl vstd::std_specs::convert::FromSpecImpl<FetchedWireMessage> for Message {
    open spec fn obeys_from_spec() -> bool {
        true
    }

    open spec fn from_spec(m: FetchedWireMessage) -> Self {
        Message { offset: m.offset, payload: m.payload }
    }
}

/// Messages by their contents.
pub open spec fn client_messages(messages: Seq<Message>) -> Seq<MessageView> {
    messages.map_values(|m: Message| m@)
}

// ── Requests ─────────────────────────────────────────────────────────────────

/// The request for a new topic with the given number of partitions.
pub fn create_topic_request(name: &str, partition_count: u32) -> (r: Request)
    ensures
        r@ == (RequestView::CreateTopic { name: name@, partition_count }),
{
    Request::CreateTopic { name: name.to_owned(), partition_count }
}

/// The request that produces a message to a topic.
///
/// `key` controls partition routing:
/// - `Some(key)` → consistent hash, same key always → same partition
/// - `None`      → broker selects partition
pub fn produce_request(topic: &str, key: Option<&[u8]>, payload: &[u8]) -> (r: Request)
    ensures
        r@ == (RequestView::Produce { topic: topic@, key: key_bytes(key), payload: payload@ }),
{
    let key: Option<Vec<u8>> = match key {
        Some(k) => Some(slice_to_vec(k)),
        None => None,
    };
    Request::Produce { topic: topic.to_owned(), key, payload: slice_to_vec(payload) }
}

/// The request for up to `max_messages` from a specific partition starting at
/// `offset`.
pub fn fetch_request(topic: &str, partition_id: u32, offset: u64, max_messages: u32) -> (r: Request)
    ensures
        r@ == (RequestView::Fetch { topic: topic@, partition_id, offset, max_messages }),
{
    Request::Fetch { topic: topic.to_owned(), partition_id, offset, max_messages }
}

// ── Results ──────────────────────────────────────────────────────────────────

/// The error for a connection that the broker closed.
pub open spec fn closed() -> ErrorView {
    ErrorView { kind: ErrorKind::UnexpectedEof, message: "broker closed connection"@ }
}

/// The error for a request that the broker refused.
pub open spec fn refused(message: Seq<char>) -> ErrorView {
    ErrorView { kind: ErrorKind::Other, message }
}

/// The error for a response that does not answer the request.
pub open spec fn unexpected(response: ResponseView) -> ErrorView {
    ErrorView {
        kind: ErrorKind::InvalidData,
        message: "unexpected broker response: "@ + response_debug(response),
    }
}

/// The response that a client reads off the bytes it gets. Bytes that hold no response
/// are an error, and so is a connection that ends before one.
pub open spec fn reply(received: Seq<u8>) -> Result<ResponseView, ErrorView> {
    match first_response(received).0 {
        Err(e) => Err(e),
        Ok(None) => Err(closed()),
        Ok(Some(response)) => Ok(response),
    }
}

/// What a response means to the sender of a create.
pub open spec fn created(response: ResponseView) -> Result<(), ErrorView> {
    match response {
        ResponseView::Okay => Ok(()),
        ResponseView::Error { message } => Err(refused(message)),
        other => Err(unexpected(other)),
    }
}

/// What a response means to the sender of a produce: where the message landed.
pub open spec fn produced(response: ResponseView) -> Result<(u32, u64), ErrorView> {
    match response {
        ResponseView::Produced { partition_id, offset } => Ok((partition_id, offset)),
        ResponseView::Error { message } => Err(refused(message)),
        other => Err(unexpected(other)),
    }
}

/// What a response means to the sender of a fetch: the messages.
pub open spec fn fetched(response: ResponseView) -> Result<Seq<MessageView>, ErrorView> {
    match response {
        ResponseView::Fetched { messages } => Ok(messages),
        ResponseView::Error { message } => Err(refused(message)),
        other => Err(unexpected(other)),
    }
}

/// Read the response that is owed to a request.
pub fn read_reply(reader: &mut &[u8]) -> (r: Result<Response, Error>)
    ensures
        seen(r) == reply(old(reader)@),
        final(reader)@ == first_response(old(reader)@).1,
{
    match Response::read_from(reader) {
        Err(e) => Err(e),
        Ok(None) => Err(Error::new(ErrorKind::UnexpectedEof, "broker closed connection")),
        Ok(Some(response)) => Ok(response),
    }
}

/// Take the response to a create.
///
/// It is an error if the topic already exists or the partition count is 0.
pub fn create_topic_result(response: Response) -> (r: Result<(), Error>)
    ensures
        match r {
            Ok(()) => created(response@) is Ok,
            Err(e) => created(response@) == Err::<(), ErrorView>(e@),
        },
        response is Okay <==> r is Ok,
{
    match response {
        Response::Okay => Ok(()),
        Response::Error { message } => Err(broker_error(message)),
        other => Err(unexpected_response(other)),
    }
}

/// Take the response to a produce.
///
/// Returns `(partition_id, offset)` identifying where the message landed.
pub fn produce_result(response: Response) -> (r: Result<(u32, u64), Error>)
    ensures
        match r {
            Ok(place) => produced(response@) == Ok::<(u32, u64), ErrorView>(place),
            Err(e) => produced(response@) == Err::<(u32, u64), ErrorView>(e@),
        },
        response matches Response::Produced { partition_id, offset } ==> r == Ok::<
            (u32, u64),
            Error,
        >((partition_id, offset)),
        response !is Produced ==> r is Err,
{
    match response {
        Response::Produced { partition_id, offset } => Ok((partition_id, offset)),
        Response::Error { message } => Err(broker_error(message)),
        other => Err(unexpected_response(other)),
    }
}

/// Take the response to a fetch.
///
/// Returns messages in offset order. An empty vec means no messages are
/// available at or after the offset (the consumer is caught up).
pub fn fetch_result(response: Response) -> (r: Result<Vec<Message>, Error>)
    ensures
        match r {
            Ok(messages) => fetched(response@) == Ok::<Seq<MessageView>, ErrorView>(
                client_messages(messages@),
            ),
            Err(e) => fetched(response@) == Err::<Seq<MessageView>, ErrorView>(e@),
        },
        response matches Response::Fetched { messages } ==> {
            &&& r matches Ok(list)
            &&& list@.len() == messages@.len()
            &&& forall|i: int|
                0 <= i < list@.len() ==> (#[trigger] list@[i]).offset == messages@[i].offset
                    && list@[i].payload@ == messages@[i].payload@
        },
        response !is Fetched ==> r is Err,
{
    match response {
        Response::Fetched { messages } => Ok(from_wire(messages)),
        Response::Error { message } => Err(broker_error(message)),
        other => Err(unexpected_response(other)),
    }
}

/// Messages off the wire as a client hands them out.
fn from_wire(wire: Vec<FetchedWireMessage>) -> (messages: Vec<Message>)
    ensures
        client_messages(messages@) == wire_messages(wire@),
        messages@.len() == wire@.len(),
        forall|i: int|
            0 <= i < messages@.len() ==> (#[trigger] messages@[i]).offset == wire@[i].offset
                && messages@[i].payload@ == wire@[i].payload@,
{
    let mut messages: Vec<Message> = Vec::new();
    for m in it: wire.into_iter()
        invariant
            it.seq() == wire@,
            messages@.len() == it.index(),
            forall|i: int| 0 <= i < messages@.len() ==> (#[trigger] messages@[i])@ == wire@[i]@,
            forall|i: int|
                0 <= i < messages@.len() ==> (#[trigger] messages@[i]).offset == wire@[i].offset
                    && messages@[i].payload@ == wire@[i].payload@,
    {
        messages.push(Message::from(m));
    }
    assert(client_messages(messages@) =~= wire_messages(wire@));
    messages
}

/// The error for a request that the broker refused.
pub fn broker_error(message: String) -> (e: Error)
    ensures
        e@ == refused(message@),
{
    Error { kind: ErrorKind::Other, message }
}

/// The error for a response that does not answer the request.
pub fn unexpected_response(resp: Response) -> (e: Error)
    ensures
        e@ == unexpected(resp@),
{
    let mut message: String = "unexpected broker response: ".to_owned();
    message.append(response_text(&resp).as_str());
    Error { kind: ErrorKind::InvalidData, message }
}

// ── Responses as text ────────────────────────────────────────────────────────

/// Texts with commas between them.
pub open spec fn commas(items: Seq<Seq<char>>) -> Seq<char>
    decreases items.len(),
{
    if items.len() == 0 {
        Seq::empty()
    } else if items.len() == 1 {
        items[0]
    } else {
        commas(items.drop_last()) + ", "@ + items.last()
    }
}

/// Bytes as a list of decimal numbers.
pub open spec fn bytes_debug(bytes: Seq<u8>) -> Seq<char> {
    "["@ + commas(bytes.map_values(|b: u8| decimal(b as nat))) + "]"@
}

/// A message with its fields named.
pub open spec fn message_debug(m: MessageView) -> Seq<char> {
    "FetchedWireMessage { offset: "@ + decimal(m.offset as nat) + ", payload: "@ + bytes_debug(
        m.payload,
    ) + " }"@
}

/// A response with its fields named.
pub open spec fn response_debug(response: ResponseView) -> Seq<char> {
    match response {
        ResponseView::Okay => "Ok"@,
        ResponseView::Produced { partition_id, offset } => "Produced { partition_id: "@ + decimal(
            partition_id as nat,
        ) + ", offset: "@ + decimal(offset as nat) + " }"@,
        ResponseView::Fetched { messages } => "Fetched { messages: ["@ + commas(
            messages.map_values(|m: MessageView| message_debug(m)),
        ) + "] }"@,
        ResponseView::Error { message } => "Error { message: "@ + quoted(message) + " }"@,
    }
}

fn bytes_text(bytes: &Vec<u8>) -> (s: String)
    ensures
        s@ == bytes_debug(bytes@),
{
    let ghost items = bytes@.map_values(|b: u8| decimal(b as nat));
    let mut s: String = "[".to_owned();
    let mut i: usize = 0;
    assert(s@ =~= "["@ + commas(items.take(0)));
    while i < bytes.len()
        invariant
            i <= bytes@.len(),
            items == bytes@.map_values(|b: u8| decimal(b as nat)),
            s@ == "["@ + commas(items.take(i as int)),
        decreases bytes@.len() - i,
    {
        assert(items.take(i + 1).drop_last() =~= items.take(i as int));
        if i > 0 {
            s.append(", ");
        }
        s.append(decimal_text(bytes[i] as u64).as_str());
        assert(s@ =~= "["@ + commas(items.take(i + 1)));
        i = i + 1;
    }
    assert(items.take(i as int) =~= items);
    s.append("]");
    s
}

fn message_text(m: &FetchedWireMessage) -> (s: String)
    ensures
        s@ == message_debug(m@),
{
    let mut s: String = "FetchedWireMessage { offset: ".to_owned();
    s.append(decimal_text(m.offset).as_str());
    s.append(", payload: ");
    s.append(bytes_text(&m.payload).as_str());
    s.append(" }");
    s
}

fn response_text(response: &Response) -> (s: String)
    ensures
        s@ == response_debug(response@),
{
    match response {
        Response::Okay => "Ok".to_owned(),
        Response::Produced { partition_id, offset } => {
            let mut s: String = "Produced { partition_id: ".to_owned();
            s.append(decimal_text(*partition_id as u64).as_str());
            s.append(", offset: ");
            s.append(decimal_text(*offset).as_str());
            s.append(" }");
            s
        },
        Response::Fetched { messages } => fetched_text(messages),
        Response::Error { message } => {
            let mut s: String = "Error { message: ".to_owned();
            s.append(quoted_text(message.as_str()).as_str());
            s.append(" }");
            s
        },
    }
}

fn fetched_text(messages: &Vec<FetchedWireMessage>) -> (s: String)
    ensures
        s@ == response_debug(ResponseView::Fetched { messages: wire_messages(messages@) }),
{
    let ghost items = wire_messages(messages@).map_values(|m: MessageView| message_debug(m));
    let mut s: String = "Fetched { messages: [".to_owned();
    let mut i: usize = 0;
    assert(s@ =~= "Fetched { messages: ["@ + commas(items.take(0)));
    while i < messages.len()
        invariant
            i <= messages@.len(),
            items == wire_messages(messages@).map_values(|m: MessageView| message_debug(m)),
            s@ == "Fetched { messages: ["@ + commas(items.take(i as int)),
        decreases messages@.len() - i,
    {
        assert(items.take(i + 1).drop_last() =~= items.take(i as int));
        if i > 0 {
            s.append(", ");
        }
        s.append(message_text(&messages[i]).as_str());
        assert(s@ =~= "Fetched { messages: ["@ + commas(items.take(i + 1)));
        i = i + 1;
    }
    assert(items.take(i as int) =~= items);
    s.append("] }");
    s
}

// ── Laws ─────────────────────────────────────────────────────────────────────

/// A broker served one frame of a stream: the broker afterwards, and the bytes that
/// it sends back. Bytes that are no request get no answer.
pub open spec fn exchange(broker: BrokerView, sent: Seq<u8>, found: FoundView) -> Option<
    (BrokerView, Seq<u8>),
> {
    match first_request(sent).0 {
        Ok(Some(request)) => {
            let (after, response) = broker.handle(request, found);
            Some((after, frame(response.body())))
        },
        _ => None,
    }
}

/// What a client reads is what the broker answers to the request that the client
/// sent.
pub proof fn law_exchange(broker: BrokerView, request: RequestView, found: FoundView)
    requires
        request.fits(),
        broker.handle(request, found).1.fits(),
    ensures
        exchange(broker, frame(request.body()), found) matches Some((after, sent_back)) && {
            &&& after == broker.handle(request, found).0
            &&& reply(sent_back) == Ok::<ResponseView, ErrorView>(
                broker.handle(request, found).1,
            )
        },
{
    let none = Seq::<u8>::empty();
    let bytes = frame(request.body());
    let answer = frame(broker.handle(request, found).1.body());
    law_request_stream(request, none);
    law_response_stream(broker.handle(request, found).1, none);
    assert(bytes + none =~= bytes);
    assert(answer + none =~= answer);
}

/// Each call has one kind of response that means success, and hands on what that
/// response says: nothing, the place of the message, or the list of messages, all of
/// them, in order and unchanged.
pub proof fn law_results(
    partition_id: u32,
    offset: u64,
    messages: Seq<MessageView>,
    response: ResponseView,
)
    ensures
        created(ResponseView::Okay) is Ok,
        produced(ResponseView::Produced { partition_id, offset }) == Ok::<(u32, u64), ErrorView>(
            (partition_id, offset),
        ),
        fetched(ResponseView::Fetched { messages }) matches Ok(list) && list.len()
            == messages.len() && forall|i: int|
            0 <= i < messages.len() ==> (#[trigger] list[i]).offset == messages[i].offset
                && list[i].payload == messages[i].payload,
        response !is Okay ==> created(response) is Err,
        response !is Produced ==> produced(response) is Err,
        response !is Fetched ==> fetched(response) is Err,
{
}

/// What the broker says in an error is what the caller is told, whatever was called.
pub proof fn law_refused(message: Seq<char>)
    ensures
        ({
            let response = ResponseView::Error { message };
            let e = ErrorView { kind: ErrorKind::Other, message };
            &&& created(response) == Err::<(), ErrorView>(e)
            &&& produced(response) == Err::<(u32, u64), ErrorView>(e)
            &&& fetched(response) == Err::<Seq<MessageView>, ErrorView>(e)
        }),
{
}

/// A response that answers another call is an error that shows the response.
pub proof fn law_unexpected(
    partition_id: u32,
    offset: u64,
    messages: Seq<MessageView>,
    message: Seq<char>,
)
    ensures
        ({
            let shown = "unexpected broker response: "@;
            let bad = |text: Seq<char>|
                ErrorView { kind: ErrorKind::InvalidData, message: shown + text };
            let okay = bad("Ok"@);
            let place = bad(
                "Produced { partition_id: "@ + decimal(partition_id as nat) + ", offset: "@
                    + decimal(offset as nat) + " }"@,
            );
            let answer = ResponseView::Produced { partition_id, offset };
            &&& produced(ResponseView::Okay) == Err::<(u32, u64), ErrorView>(okay)
            &&& fetched(ResponseView::Okay) == Err::<Seq<MessageView>, ErrorView>(okay)
            &&& created(answer) == Err::<(), ErrorView>(place)
            &&& fetched(answer) == Err::<Seq<MessageView>, ErrorView>(place)
            &&& created(ResponseView::Fetched { messages }) matches Err(e) && e.kind
                == ErrorKind::InvalidData
            &&& unexpected(ResponseView::Error { message }) == bad(
                "Error { message: "@ + quoted(message) + " }"@,
            )
        }),
{
}

/// A shown list grows by one message at its end: the first stands alone, and each
/// further one follows a comma.
pub proof fn law_unexpected_list(messages: Seq<MessageView>, m: MessageView)
    ensures
        ({
            let open = "unexpected broker response: "@ + ("Fetched { messages: ["@);
            let close = "] }"@;
            let bytes = m.payload.map_values(|b: u8| decimal(b as nat));
            let shown = "FetchedWireMessage { offset: "@ + decimal(m.offset as nat)
                + ", payload: "@ + ("["@ + commas(bytes) + "]"@) + " }"@;
            let list = |all: Seq<MessageView>|
                commas(all.map_values(|m: MessageView| message_debug(m)));
            &&& unexpected(ResponseView::Fetched { messages }).message == open + list(messages)
                + close
            &&& list(messages.push(m)) == (if messages.len() == 0 {
                shown
            } else {
                list(messages) + ", "@ + shown
            })
            &&& list(Seq::empty()) == Seq::<char>::empty()
        }),
{
    let f = |m: MessageView| message_debug(m);
    let texts = messages.push(m).map_values(f);
    assert(texts.drop_last() =~= messages.map_values(f));
    assert(texts.last() == message_debug(m));
    assert(Seq::<MessageView>::empty().map_values(f) =~= Seq::empty());
    let response = ResponseView::Fetched { messages };
    assert(unexpected(response).message =~= "unexpected broker response: "@ + (
    "Fetched { messages: ["@) + commas(messages.map_values(f)) + "] }"@);
}

/// Listed texts: none are no text, one stands alone, and one more comes after a comma
/// and a space.
pub proof fn law_commas(items: Seq<Seq<char>>, item: Seq<char>)
    ensures
        commas(Seq::empty()) == Seq::<char>::empty(),
        commas(seq![item]) == item,
        items.len() > 0 ==> commas(items.push(item)) == commas(items) + ", "@ + item,
{
    assert(items.push(item).drop_last() =~= items);
}

/// A frame that is cut off, or whose body is no response, is an error, the one that
/// reading the frame or its body gives.
pub proof fn law_bad_reply(body: Seq<u8>, tail: Seq<u8>, k: int)
    requires
        body.len() <= 0xFFFF_FFFF,
    ensures
        4 <= k < 4 + body.len() ==> reply(frame(body).take(k)) == Err::<ResponseView, ErrorView>(
            ErrorView { kind: ErrorKind::UnexpectedEof, message: "early eof"@ },
        ),
        parse_response(body) matches Err(e) ==> reply(frame(body) + tail) == Err::<
            ResponseView,
            ErrorView,
        >(e),
{
    if 4 <= k < 4 + body.len() {
        law_cut_frame(body, k);
    }
    law_framed_error(body, tail);
}

/// A connection that ends before a response is an error that says so.
pub proof fn law_closed(received: Seq<u8>)
    requires
        received.len() < 4,
    ensures
        reply(received) == Err::<ResponseView, ErrorView>(
            ErrorView { kind: ErrorKind::UnexpectedEof, message: "broker closed connection"@ },
        ),
{
    law_end_of_stream(received);
}

/// A client reads off the stream the response that was written to it, whatever
/// follows. A list of messages, of any length, comes out as it went in.
pub proof fn law_reply(response: ResponseView, tail: Seq<u8>)
    requires
        response.fits(),
    ensures
        reply(frame(response.body()) + tail) == Ok::<ResponseView, ErrorView>(response),
        response matches ResponseView::Fetched { messages } ==> fetched(
            reply(frame(response.body()) + tail)->Ok_0,
        ) == Ok::<Seq<MessageView>, ErrorView>(messages),
{
    law_response_stream(response, tail);
}

/// Requests one after the other on a stream.
pub open spec fn requests_bytes(requests: Seq<RequestView>) -> Seq<u8>
    decreases requests.len(),
{
    if requests.len() == 0 {
        Seq::empty()
    } else {
        frame(requests[0].body()) + requests_bytes(requests.drop_first())
    }
}

/// Responses one after the other on a stream.
pub open spec fn responses_bytes(responses: Seq<ResponseView>) -> Seq<u8>
    decreases responses.len(),
{
    if responses.len() == 0 {
        Seq::empty()
    } else {
        frame(responses[0].body()) + responses_bytes(responses.drop_first())
    }
}

/// The broker's answers to these requests, each with what was found for it, and the
/// broker afterwards.
pub open spec fn answers(
    broker: BrokerView,
    requests: Seq<RequestView>,
    found: Seq<FoundView>,
) -> (BrokerView, Seq<ResponseView>)
    decreases requests.len(),
{
    if requests.len() == 0 {
        (broker, Seq::empty())
    } else {
        let (next, response) = broker.handle(requests[0], found[0]);
        let (after, rest) = answers(next, requests.drop_first(), found.drop_first());
        (after, seq![response] + rest)
    }
}

/// A broker served frame after frame of a stream, as long as there is something found
/// for the next: the broker afterwards, the bytes that it sends back, and the stream
/// that is left.
pub open spec fn connection(broker: BrokerView, sent: Seq<u8>, found: Seq<FoundView>) -> (
    BrokerView,
    Seq<u8>,
    Seq<u8>,
)
    decreases found.len(),
{
    if found.len() == 0 {
        (broker, Seq::empty(), sent)
    } else {
        match first_request(sent) {
            (Ok(Some(request)), rest) => {
                let (next, response) = broker.handle(request, found[0]);
                let (after, answer, left) = connection(next, rest, found.drop_first());
                (after, frame(response.body()) + answer, left)
            },
            (_, rest) => (broker, Seq::empty(), rest),
        }
    }
}

/// The first `n` responses that a client reads off a stream, up to the first that it
/// cannot read.
pub open spec fn replies(received: Seq<u8>, n: nat) -> Result<Seq<ResponseView>, ErrorView>
    decreases n,
{
    if n == 0 {
        Ok(Seq::empty())
    } else {
        match reply(received) {
            Err(e) => Err(e),
            Ok(response) => match replies(first_response(received).1, (n - 1) as nat) {
                Err(e) => Err(e),
                Ok(rest) => Ok(seq![response] + rest),
            },
        }
    }
}

/// Every response fits its frame.
pub open spec fn all_fit(responses: Seq<ResponseView>) -> bool {
    forall|i: int| 0 <= i < responses.len() ==> (#[trigger] responses[i]).fits()
}

/// Requests sent one after the other on a connection are each answered with one
/// response, in the order of the requests, and the broker takes nothing more off the
/// stream.
pub proof fn law_conversation(
    broker: BrokerView,
    requests: Seq<RequestView>,
    found: Seq<FoundView>,
    tail: Seq<u8>,
)
    requires
        found.len() == requests.len(),
        forall|i: int| 0 <= i < requests.len() ==> (#[trigger] requests[i]).fits(),
        all_fit(answers(broker, requests, found).1),
    ensures
        ({
            let (after, responses) = answers(broker, requests, found);
            &&& responses.len() == requests.len()
            &&& connection(broker, requests_bytes(requests) + tail, found) == (
                after,
                responses_bytes(responses),
                tail,
            )
            &&& replies(responses_bytes(responses), requests.len()) == Ok::<
                Seq<ResponseView>,
                ErrorView,
            >(responses)
        }),
    decreases requests.len(),
{
    let (after, responses) = answers(broker, requests, found);
    if requests.len() == 0 {
        assert(requests_bytes(requests) + tail =~= tail);
    } else {
        let request = requests[0];
        let more = requests.drop_first();
        let (next, response) = broker.handle(request, found[0]);
        let rest = answers(next, more, found.drop_first()).1;
        assert(responses =~= seq![response] + rest);
        assert(responses.drop_first() =~= rest);
        assert(responses[0] == response);
        assert forall|i: int| 0 <= i < rest.len() implies (#[trigger] rest[i]).fits() by {
            assert(rest[i] == responses[i + 1]);
        }
        assert forall|i: int| 0 <= i < more.len() implies (#[trigger] more[i]).fits() by {
            assert(more[i] == requests[i + 1]);
        }
        law_conversation(next, more, found.drop_first(), tail);
        law_request_stream(request, requests_bytes(more) + tail);
        law_response_stream(response, responses_bytes(rest));
        assert(requests_bytes(requests) + tail =~= frame(request.body()) + (requests_bytes(more)
            + tail));
    }
}

/// A client that produces a message is told where it landed, and a fetch from
/// there gives it the message back.
pub proof fn law_client_produce_fetch(
    broker: BrokerView,
    contents: Map<Seq<char>, Seq<Seq<Seq<u8>>>>,
    topic: Seq<char>,
    key: Option<Seq<u8>>,
    payload: Seq<u8>,
)
    requires
        broker.holds(contents),
        broker.can_take(topic, key, payload),
        (RequestView::Produce { topic, key, payload }).fits(),
        payload.len() + 17 <= u32::MAX,
    ensures
        ({
            let produce = RequestView::Produce { topic, key, payload };
            let step = exchange(broker, frame(produce.body()), found_nothing());
            &&& step matches Some((after, answer))
            &&& reply(answer) matches Ok(response)
            &&& produced(response) matches Ok((partition_id, offset))
            &&& {
                let fetch = RequestView::Fetch { topic, partition_id, offset, max_messages: 1 };
                let next = exchange(after, frame(fetch.body()), found_nothing());
                &&& next matches Some((same, messages))
                &&& same == after
                &&& reply(messages) matches Ok(found)
                &&& fetched(found) == Ok::<Seq<MessageView>, ErrorView>(
                    seq![MessageView { offset, payload }],
                )
            }
        }),
{
    let produce = RequestView::Produce { topic, key, payload };
    law_produce(broker, contents, topic, key, payload);
    law_fetch_after_produce(broker, contents, topic, key, payload);
    let (after, response) = broker.handle(produce, found_nothing());
    lemma_produced_fits(response);
    law_exchange(broker, produce, found_nothing());
    let partition_id = response->partition_id;
    let offset = response->Produced_offset;
    let fetch = RequestView::Fetch { topic, partition_id, offset, max_messages: 1 };
    lemma_fetch_fits(topic, partition_id, offset, 1);
    lemma_fetched_fits(offset, payload);
    law_exchange(after, fetch, found_nothing());
}

/// A client that fetches is given the messages of the partition from the offset asked
/// for on, each with its offset and payload, as many as there are or as were asked
/// for.
pub proof fn law_client_fetch(
    broker: BrokerView,
    contents: Map<Seq<char>, Seq<Seq<Seq<u8>>>>,
    topic: Seq<char>,
    partition_id: u32,
    offset: u64,
    max_messages: u32,
)
    requires
        broker.holds(contents),
        broker.topics.contains_key(topic),
        partition_id < contents[topic].len(),
        broker.topics[topic].partitions[partition_id as int].log.oldest() <= offset,
        (RequestView::Fetch { topic, partition_id, offset, max_messages }).fits(),
        broker.handle(
            RequestView::Fetch { topic, partition_id, offset, max_messages },
            found_nothing(),
        ).1.fits(),
    ensures
        ({
            let request = RequestView::Fetch { topic, partition_id, offset, max_messages };
            let held = contents[topic][partition_id as int];
            let first = offset
                - broker.topics[topic].partitions[partition_id as int].log.oldest();
            let left = if first < held.len() {
                held.len() - first
            } else {
                0
            };
            &&& exchange(broker, frame(request.body()), found_nothing()) matches Some(
                (after, answer),
            )
            &&& after == broker
            &&& reply(answer) matches Ok(response)
            &&& fetched(response) matches Ok(list)
            &&& list.len() == (if max_messages < left {
                max_messages as int
            } else {
                left
            })
            &&& forall|k: int|
                0 <= k < list.len() ==> (#[trigger] list[k]).offset == offset + k
                    && list[k].payload == held[first + k]
        }),
{
    let request = RequestView::Fetch { topic, partition_id, offset, max_messages };
    law_fetch(broker, contents, topic, partition_id, offset, max_messages);
    law_exchange(broker, request, found_nothing());
}

proof fn lemma_produced_fits(response: ResponseView)
    requires
        response is Produced,
    ensures
        response.fits(),
{
    lemma_be_bytes_len(response->partition_id as nat, 4);
    lemma_be_bytes_len(response->Produced_offset as nat, 8);
}

proof fn lemma_fetch_fits(topic: Seq<char>, partition_id: u32, offset: u64, max_messages: u32)
    requires
        encode_utf8(topic).len() <= u16::MAX,
    ensures
        (RequestView::Fetch { topic, partition_id, offset, max_messages }).fits(),
{
    lemma_be_bytes_len(encode_utf8(topic).len(), 2);
    lemma_be_bytes_len(partition_id as nat, 4);
    lemma_be_bytes_len(offset as nat, 8);
    lemma_be_bytes_len(max_messages as nat, 4);
}

proof fn lemma_fetched_fits(offset: u64, payload: Seq<u8>)
    requires
        payload.len() + 17 <= u32::MAX,
    ensures
        (ResponseView::Fetched { messages: seq![MessageView { offset, payload }] }).fits(),
{
    let messages = seq![MessageView { offset, payload }];
    assert(messages.drop_last() =~= Seq::empty());
    assert(messages_bytes(messages.drop_last()) =~= Seq::empty());
    lemma_be_bytes_len(1, 4);
    lemma_be_bytes_len(offset as nat, 8);
    lemma_be_bytes_len(payload.len(), 4);
}

} // verus!
