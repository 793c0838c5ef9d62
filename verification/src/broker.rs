//! The broker owns all topics and answers decoded requests.
//!
//! The program around it does the disk work, in this order for each request:
//! what [`Broker::needs`] names is read, what [`Broker::plan`] returns is written,
//! and then [`Broker::serve`] takes the request in and answers it. If reading or
//! writing fails, the answer is [`disk_failure`] and the broker stays as it was.

use crate::error::{seen, Error, ErrorView};
use crate::log::segment::{storable, FilesView, SegmentFiles};
use crate::log::{
    law_append_writes_what_was_staged, no_files, opening, Opening, StoredSegment, StoredView,
    Write, WriteView,
};
use crate::partition::{
    dir_of, fetch_end, joined, law_partition_append, law_partition_fetch, message_views, numbered,
    partition_dir, topic_dir, FetchedMessage, PartitionView,
};
use crate::protocol::{
    key_view, wire_messages, FetchedWireMessage, MessageView, Request, RequestView, Response,
    ResponseView,
};
use crate::text::{decimal, is_digit, law_decimal};
use crate::topic::{
    files_to_open, hash_writes, key_bytes, law_keyed_route, law_keyless_route,
    law_partition_counts, law_produce_effect, law_select_in_range, law_topic_has_room,
    law_topic_new, law_topic_open_keeps_files, law_topic_produce, law_topic_resized,
    law_topic_restart, law_total_grows, law_total_is_sum, new_topic_files, open_partitions,
    partitions_openable, topic_files, Topic, TopicView,
};
use std::collections::hash_map::DefaultHasher;
use vstd::hash_map::StringHashMap;
use vstd::prelude::*;
use vstd::std_specs::hash::DefaultHasherAdditionalSpecFns;
use vstd::string::StringExecFns;

verus! {

/// The broker owns all topics and processes decoded requests.
///
/// It is the single source of truth for what topics exist and where their
/// data lives on disk.
pub struct Broker {
    /// Where each topic stands in `topics`, by name.
    pub(crate) slots: StringHashMap<usize>,
    /// All open topics.
    pub(crate) topics: Vec<Topic>,
    /// Root directory where all topic data is stored.
    pub(crate) data_dir: String,
}

/// What a broker holds.
#[verifier::ext_equal]
pub struct BrokerView {
    pub data_dir: Seq<char>,
    /// All open topics, by name.
    pub topics: Map<Seq<char>, TopicView>,
}

impl View for Broker {
    type V = BrokerView;

    open(crate) spec fn view(&self) -> BrokerView {
        BrokerView {
            data_dir: self.data_dir@,
            topics: Map::new(
                |name: Seq<char>| self.slots@.contains_key(name),
                |name: Seq<char>| self.topics@[self.slots@[name] as int]@,
            ),
        }
    }
}

/// What the disk held where a request needs to know it.
pub struct Found {
    /// The files of the segment that a produce has to open, both empty if they
    /// are new or if none has to be opened.
    pub segment: SegmentFiles,
    /// The segments of each partition that a topic to be created already has.
    pub partitions: Vec<Vec<StoredSegment>>,
}

/// What the disk held where a request needs to know it.
#[verifier::ext_equal]
pub struct FoundView {
    pub segment: FilesView,
    pub partitions: Seq<Seq<StoredView>>,
}

impl View for Found {
    type V = FoundView;

    open spec fn view(&self) -> FoundView {
        FoundView { segment: self.segment@, partitions: topic_files(self.partitions@) }
    }
}

/// What has to be read from the disk before a request can be answered.
#[derive(Debug, PartialEq)]
pub enum Need {
    Nothing,
    /// The two files of a segment, to be created if they do not exist.
    Segment { dir: String, base_offset: u64 },
    /// The partitions in this directory of a topic. If there are none, these
    /// directories of new ones are to be created.
    Topic { dir: String, new_partitions: Vec<String> },
}

/// What has to be read from the disk before a request can be answered.
#[verifier::ext_equal]
pub enum NeedView {
    Nothing,
    Segment { dir: Seq<char>, base_offset: u64 },
    Topic { dir: Seq<char>, new_partitions: Seq<Seq<char>> },
}

impl View for Need {
    type V = NeedView;

    open spec fn view(&self) -> NeedView {
        match *self {
            Need::Nothing => NeedView::Nothing,
            Need::Segment { dir, base_offset } => NeedView::Segment { dir: dir@, base_offset },
            Need::Topic { dir, new_partitions } => NeedView::Topic {
                dir: dir@,
                new_partitions: new_partitions@.map_values(|d: String| d@),
            },
        }
    }
}

/// A topic as found on the disk: its name and its partitions' segments.
pub struct StoredTopic {
    pub name: String,
    pub partitions: Vec<Vec<StoredSegment>>,
}

/// A topic as found on the disk: its name and its partitions' segments.
#[verifier::ext_equal]
pub struct StoredTopicView {
    pub name: Seq<char>,
    pub partitions: Seq<Seq<StoredView>>,
}

impl View for StoredTopic {
    type V = StoredTopicView;

    open spec fn view(&self) -> StoredTopicView {
        StoredTopicView { name: self.name@, partitions: topic_files(self.partitions@) }
    }
}

/// Stored topics by their contents.
pub open spec fn broker_files(stored: Seq<StoredTopic>) -> Seq<StoredTopicView> {
    stored.map_values(|t: StoredTopic| t@)
}

/// Open topics one after the other, up to the first that cannot be opened. One
/// without partitions is passed over; a later one replaces an earlier one of the
/// same name.
pub open spec fn open_topics(data_dir: Seq<char>, stored: Seq<StoredTopicView>) -> Result<
    Map<Seq<char>, TopicView>,
    ErrorView,
>
    decreases stored.len(),
{
    if stored.len() == 0 {
        Ok(Map::empty())
    } else {
        let last = stored.last();
        match open_topics(data_dir, stored.drop_last()) {
            Err(e) => Err(e),
            Ok(topics) => if last.partitions.len() == 0 {
                Ok(topics)
            } else {
                match TopicView::opened(data_dir, last.name, last.partitions) {
                    Err(e) => Err(e),
                    Ok(topic) => Ok(topics.insert(last.name, topic)),
                }
            },
        }
    }
}

/// Every topic that opening gets to can be scanned, and its partitions can be
/// numbered.
pub open spec fn topics_openable(data_dir: Seq<char>, stored: Seq<StoredTopicView>) -> bool
    decreases stored.len(),
{
    stored.len() == 0 || {
        let last = stored.last();
        &&& topics_openable(data_dir, stored.drop_last())
        &&& open_topics(data_dir, stored.drop_last()) is Ok ==> last.partitions.len() <= u32::MAX
            && partitions_openable(data_dir, last.name, last.partitions)
    }
}

/// How many of these entries are directories.
pub open spec fn directories(entries: Seq<bool>) -> nat
    decreases entries.len(),
{
    if entries.len() == 0 {
        0
    } else {
        directories(entries.drop_last()) + if entries.last() {
            1nat
        } else {
            0
        }
    }
}

/// "topic '{name}" and the rest of a message.
pub open spec fn about_topic(name: Seq<char>, rest: Seq<char>) -> Seq<char> {
    "topic '"@ + name + rest
}

pub open spec fn error_response(message: Seq<char>) -> ResponseView {
    ResponseView::Error { message }
}

impl BrokerView {
    /// The broker that stored topics make.
    pub open spec fn opened(data_dir: Seq<char>, stored: Seq<StoredTopicView>) -> Result<
        BrokerView,
        ErrorView,
    > {
        match open_topics(data_dir, stored) {
            Err(e) => Err(e),
            Ok(topics) => Ok(BrokerView { data_dir, topics }),
        }
    }

    /// A create would open a topic: the name is free and there are partitions.
    pub open spec fn opens(self, name: Seq<char>, partition_count: u32) -> bool {
        !self.topics.contains_key(name) && partition_count > 0
    }

    /// Answer a create: the broker afterwards, and the response.
    pub open spec fn create_topic(
        self,
        name: Seq<char>,
        partition_count: u32,
        stored: Seq<Seq<StoredView>>,
    ) -> (BrokerView, ResponseView) {
        if self.topics.contains_key(name) {
            (self, error_response(about_topic(name, "' already exists"@)))
        } else if partition_count == 0 {
            (self, error_response("partition_count must be >= 1"@))
        } else {
            match TopicView::opened(
                self.data_dir,
                name,
                files_to_open(partition_count, stored),
            ) {
                Ok(topic) => (
                    BrokerView { topics: self.topics.insert(name, topic), ..self },
                    ResponseView::Okay,
                ),
                Err(e) => (self, error_response(e.message)),
            }
        }
    }

    /// Answer a produce: the broker afterwards, and the response.
    pub open spec fn produce(
        self,
        topic: Seq<char>,
        key: Option<Seq<u8>>,
        payload: Seq<u8>,
        spare: FilesView,
    ) -> (BrokerView, ResponseView) {
        if !self.topics.contains_key(topic) {
            (self, error_response(about_topic(topic, "' not found"@)))
        } else {
            let (after, r) = self.topics[topic].produce(key, payload, spare);
            (
                BrokerView { topics: self.topics.insert(topic, after), ..self },
                match r {
                    Ok((partition_id, offset)) => ResponseView::Produced { partition_id, offset },
                    Err(e) => error_response(e.message),
                },
            )
        }
    }

    /// Answer a fetch.
    pub open spec fn fetch(
        self,
        topic: Seq<char>,
        partition_id: u32,
        offset: u64,
        max_messages: u32,
    ) -> ResponseView {
        if !self.topics.contains_key(topic) {
            error_response(about_topic(topic, "' not found"@))
        } else {
            match self.topics[topic].fetch(partition_id, offset, max_messages as nat) {
                Ok(messages) => ResponseView::Fetched { messages },
                Err(e) => error_response(e.message),
            }
        }
    }

    /// Answer a request: the broker afterwards, and the response.
    pub open spec fn handle(self, request: RequestView, found: FoundView) -> (
        BrokerView,
        ResponseView,
    ) {
        match request {
            RequestView::CreateTopic { name, partition_count } => self.create_topic(
                name,
                partition_count,
                found.partitions,
            ),
            RequestView::Produce { topic, key, payload } => self.produce(
                topic,
                key,
                payload,
                found.segment,
            ),
            RequestView::Fetch { topic, partition_id, offset, max_messages } => (
                self,
                self.fetch(topic, partition_id, offset, max_messages),
            ),
        }
    }

    /// The request can be answered with what the disk held: counters do not run
    /// over, no message goes to a segment whose offsets lie below its base, and every
    /// frame met covers its own offset field.
    pub open spec fn accepts(self, request: RequestView, found: FoundView) -> bool {
        match request {
            RequestView::CreateTopic { name, partition_count } => self.opens(
                name,
                partition_count,
            ) ==> found.partitions.len() <= u32::MAX && partitions_openable(
                self.data_dir,
                name,
                found.partitions,
            ),
            RequestView::Produce { topic, key, payload } => self.topics.contains_key(topic)
                ==> self.topics[topic].has_room(key, payload.len(), found.segment),
            RequestView::Fetch { topic, partition_id, offset, max_messages } =>
            self.topics.contains_key(topic) ==> self.topics[topic].fetchable(
                partition_id,
                offset,
                max_messages as nat,
            ),
        }
    }

    /// What has to be read before the request can be answered.
    pub open spec fn needs(self, request: RequestView) -> NeedView {
        match request {
            RequestView::CreateTopic { name, partition_count } => if self.opens(
                name,
                partition_count,
            ) {
                NeedView::Topic {
                    dir: joined(self.data_dir, name),
                    new_partitions: Seq::new(
                        partition_count as nat,
                        |i: int| dir_of(self.data_dir, name, i as u32),
                    ),
                }
            } else {
                NeedView::Nothing
            },
            RequestView::Produce { topic, key, .. } => if self.topics.contains_key(topic)
                && self.topics[topic].routable(key) {
                let t = self.topics[topic];
                let log = t.partitions[t.select(key) as int].log;
                if log.active().full() {
                    NeedView::Segment { dir: log.dir, base_offset: log.active().next_offset }
                } else {
                    NeedView::Nothing
                }
            } else {
                NeedView::Nothing
            },
            RequestView::Fetch { .. } => NeedView::Nothing,
        }
    }

    /// What has to be written before the request is answered, and in which
    /// directory.
    pub open spec fn plan(self, request: RequestView, found: FoundView) -> Option<
        (Seq<char>, WriteView),
    > {
        match request {
            RequestView::Produce { topic, key, payload } => if self.topics.contains_key(topic)
                && self.topics[topic].has_room(key, payload.len(), found.segment) {
                let t = self.topics[topic];
                let log = t.partitions[t.select(key) as int].log;
                match log.stage(payload, found.segment) {
                    Ok(write) => Some((log.dir, write)),
                    Err(_) => None,
                }
            } else {
                None
            },
            _ => None,
        }
    }
}

/// How many partitions a topic's directory holds, by which of its entries are
/// directories. The count is kept in 32 bits.
pub fn count_partitions(entries: &Vec<bool>) -> (n: u32)
    ensures
        n == directories(entries@) % 0x1_0000_0000,
        n as nat == entries@.filter(|is_dir: bool| is_dir).len() % 0x1_0000_0000,
{
    proof {
        law_directories(entries@);
    }
    let mut n: u64 = 0;
    let mut i: usize = 0;
    assert(entries@.take(0) =~= Seq::empty());
    while i < entries.len()
        invariant
            i <= entries@.len(),
            n == directories(entries@.take(i as int)),
            n <= i,
        decreases entries@.len() - i,
    {
        assert(entries@.take(i + 1).drop_last() =~= entries@.take(i as int));
        if entries[i] {
            n = n + 1;
        }
        i = i + 1;
    }
    assert(entries@.take(i as int) =~= entries@);
    (n % 0x1_0000_0000) as u32
}

/// The answer to a request whose disk work failed.
pub fn disk_failure(message: String) -> (r: Response)
    ensures
        r@ == (ResponseView::Error { message: message@ }),
{
    Response::Error { message }
}

/// A message about a topic.
fn topic_message(name: &str, rest: &str) -> (s: String)
    ensures
        s@ == about_topic(name@, rest@),
{
    let mut s: String = "topic '".to_owned();
    s.append(name);
    s.append(rest);
    s
}

/// Fetched messages as a response carries them.
fn to_wire(messages: Vec<FetchedMessage>) -> (wire: Vec<FetchedWireMessage>)
    ensures
        wire_messages(wire@) == message_views(messages@),
{
    let mut wire: Vec<FetchedWireMessage> = Vec::new();
    for m in it: messages.into_iter()
        invariant
            it.seq() == messages@,
            wire@.len() == it.index(),
            forall|i: int| 0 <= i < wire@.len() ==> (#[trigger] wire@[i])@ == messages@[i]@,
    {
        wire.push(FetchedWireMessage { offset: m.offset, payload: m.payload });
    }
    assert(wire_messages(wire@) =~= message_views(messages@));
    wire
}

impl Found {
    /// Nothing on the disk, as for a request that needs nothing or whose files
    /// are new.
    pub fn nothing() -> (found: Found)
        ensures
            found@ == found_nothing(),
    {
        let found: Found = Found { segment: SegmentFiles::empty(), partitions: Vec::new() };
        assert(found@.partitions =~= Seq::empty());
        found
    }
}

impl Broker {
    /// Every name leads to the topic of that name, and each topic is usable.
    pub open(crate) spec fn wf(&self) -> bool {
        &&& forall|name: Seq<char>| #[trigger]
            self.slots@.contains_key(name) ==> self.slots@[name] < self.topics@.len()
                && self.topics@[self.slots@[name] as int].name@ == name
        &&& forall|i: int|
            0 <= i < self.topics@.len() ==> (#[trigger] self.topics@[i]).wf()
                && self.topics@[i].partitions@.len() > 0
    }

    /// How opening these topics will end.
    pub fn probe(data_dir: &str, stored: &Vec<StoredTopic>) -> (r: Opening)
        ensures
            r == opening(
                topics_openable(data_dir@, broker_files(stored@)),
                open_topics(data_dir@, broker_files(stored@)) is Ok,
            ),
    {
        let ghost views = broker_files(stored@);
        let mut i: usize = 0;
        assert(views.take(0) =~= Seq::empty());
        while i < stored.len()
            invariant
                i <= stored@.len(),
                views == broker_files(stored@),
                topics_openable(data_dir@, views.take(i as int)),
                open_topics(data_dir@, views.take(i as int)) is Ok,
            decreases stored@.len() - i,
        {
            proof {
                let head = views.take(i + 1);
                assert(head.drop_last() =~= views.take(i as int));
                assert(head.last() == stored@[i as int]@);
                lemma_openable_prefix(data_dir@, views, i + 1);
            }
            let topic: &StoredTopic = &stored[i];
            if topic.partitions.len() as u64 > u32::MAX as u64 {
                return Opening::Unreadable;
            }
            match Topic::probe(data_dir, topic.name.as_str(), &topic.partitions) {
                Opening::Unreadable => return Opening::Unreadable,
                Opening::Fails => {
                    proof {
                        lemma_open_error_prefix(data_dir@, views, i + 1);
                    }
                    return Opening::Fails;
                },
                Opening::Opens => {},
            }
            i = i + 1;
        }
        assert(views.take(i as int) =~= views);
        Opening::Opens
    }

    /// Create a new broker, with the topics that already exist under `data_dir`.
    ///
    /// Each subdirectory is a topic; partitions are subdirectories within that.
    /// One without partitions is passed over.
    pub fn open(data_dir: &str, stored: Vec<StoredTopic>) -> (r: Result<Broker, Error>)
        requires
            topics_openable(data_dir@, broker_files(stored@)),
        ensures
            seen(r) == BrokerView::opened(data_dir@, broker_files(stored@)),
            r matches Ok(broker) ==> broker.wf(),
    {
        let ghost views = broker_files(stored@);
        let mut broker: Broker = Broker {
            slots: StringHashMap::new(),
            topics: Vec::new(),
            data_dir: data_dir.to_owned(),
        };
        assert(broker@.topics =~= Map::empty());
        assert(views.take(0) =~= Seq::empty());
        for topic in it: stored.into_iter()
            invariant
                it.seq() == stored@,
                views == broker_files(stored@),
                topics_openable(data_dir@, views),
                broker.wf(),
                broker@.data_dir == data_dir@,
                open_topics(data_dir@, views.take(it.index())) == Ok::<
                    Map<Seq<char>, TopicView>,
                    ErrorView,
                >(broker@.topics),
        {
            let ghost n = it.index() + 1;
            proof {
                assert(views.take(n).drop_last() =~= views.take(n - 1));
                assert(views.take(n).last() == topic@);
                lemma_openable_prefix(data_dir@, views, n);
            }
            let count: usize = topic.partitions.len();
            if count > 0 {
                proof {
                    lemma_open_partitions_len(data_dir@, topic.name@, topic@.partitions);
                }
                match Topic::open(
                    data_dir,
                    topic.name.as_str(),
                    count as u32,
                    topic.partitions,
                ) {
                    Ok(opened) => broker.insert(topic.name, opened),
                    Err(e) => {
                        proof {
                            lemma_open_error_prefix(data_dir@, views, n);
                        }
                        return Err(e);
                    },
                }
            }
        }
        assert(views.take(views.len() as int) =~= views);
        Ok(broker)
    }

    /// Whether the request can be answered with what the disk held.
    pub fn accepts(&self, request: &Request, found: &Found) -> (b: bool)
        requires
            self.wf(),
        ensures
            b == self@.accepts(request@, found@),
    {
        match request {
            Request::CreateTopic { name, partition_count } => {
                if self.slots.contains_key(name.as_str()) || *partition_count == 0 {
                    return true;
                }
                if found.partitions.len() as u64 > u32::MAX as u64 {
                    return false;
                }
                match Topic::probe(self.data_dir.as_str(), name.as_str(), &found.partitions) {
                    Opening::Unreadable => false,
                    _ => true,
                }
            },
            Request::Produce { topic, key, payload } => match self.find(topic.as_str()) {
                None => true,
                Some(i) => self.topics[i].can_produce(
                    as_slice(key),
                    payload.as_slice(),
                    &found.segment,
                ),
            },
            Request::Fetch { topic, partition_id, offset, max_messages } => match self.find(
                topic.as_str(),
            ) {
                None => true,
                Some(i) => self.topics[i].can_fetch(*partition_id, *offset, *max_messages as usize),
            },
        }
    }

    /// What has to be read from the disk before the request can be answered.
    pub fn needs(&self, request: &Request) -> (need: Need)
        requires
            self.wf(),
        ensures
            need@ == self@.needs(request@),
    {
        match request {
            Request::CreateTopic { name, partition_count } => {
                if self.slots.contains_key(name.as_str()) || *partition_count == 0 {
                    return Need::Nothing;
                }
                let mut dirs: Vec<String> = Vec::new();
                let mut id: u32 = 0;
                while id < *partition_count
                    invariant
                        id <= *partition_count,
                        dirs@.len() == id,
                        forall|i: int|
                            0 <= i < id ==> (#[trigger] dirs@[i])@ == dir_of(
                                self.data_dir@,
                                name@,
                                i as u32,
                            ),
                    decreases *partition_count - id,
                {
                    dirs.push(partition_dir(self.data_dir.as_str(), name.as_str(), id));
                    id = id + 1;
                }
                let dir: String = topic_dir(self.data_dir.as_str(), name.as_str());
                let need: Need = Need::Topic { dir, new_partitions: dirs };
                assert(need@ == self@.needs(request@));
                need
            },
            Request::Produce { topic, key, .. } => match self.find(topic.as_str()) {
                None => Need::Nothing,
                Some(i) => {
                    if !self.topics[i].can_route(as_slice(key)) {
                        return Need::Nothing;
                    }
                    match self.topics[i].roll_for(as_slice(key)) {
                        Some((dir, base_offset)) => Need::Segment { dir, base_offset },
                        None => Need::Nothing,
                    }
                },
            },
            Request::Fetch { .. } => Need::Nothing,
        }
    }

    /// What has to be written to the disk before the request is answered, and in
    /// which directory.
    pub fn plan(&self, request: &Request, found: &Found) -> (r: Option<(String, Write)>)
        requires
            self.wf(),
        ensures
            match r {
                Some((dir, write)) => Some((dir@, write@)) == self@.plan(request@, found@),
                None => self@.plan(request@, found@) is None,
            },
    {
        match request {
            Request::Produce { topic, key, payload } => match self.find(topic.as_str()) {
                None => None,
                Some(i) => {
                    let key: Option<&[u8]> = as_slice(key);
                    let t: &Topic = &self.topics[i];
                    if !t.can_produce(key, payload.as_slice(), &found.segment) {
                        return None;
                    }
                    match t.stage(key, payload.as_slice(), &found.segment) {
                        Ok((dir, write)) => Some((dir, write)),
                        Err(_) => None,
                    }
                },
            },
            _ => None,
        }
    }

    /// Answer a request if it can be answered with what the disk held. If it
    /// cannot, the broker stays as it was.
    pub fn serve(&mut self, request: Request, found: Found) -> (r: Option<Response>)
        requires
            old(self).wf(),
        ensures
            final(self).wf(),
            match r {
                Some(response) => old(self)@.accepts(request@, found@) && (
                    final(self)@,
                    response@,
                ) == old(self)@.handle(request@, found@),
                None => !old(self)@.accepts(request@, found@) && final(self)@ == old(self)@,
            },
    {
        if self.accepts(&request, &found) {
            Some(self.handle(request, found))
        } else {
            None
        }
    }

    /// Dispatch a decoded request and return the appropriate response.
    pub fn handle(&mut self, request: Request, found: Found) -> (response: Response)
        requires
            old(self).wf(),
            old(self)@.accepts(request@, found@),
        ensures
            final(self).wf(),
            (final(self)@, response@) == old(self)@.handle(request@, found@),
    {
        match request {
            Request::CreateTopic { name, partition_count } => self.create_topic(
                name,
                partition_count,
                found.partitions,
            ),
            Request::Produce { topic, key, payload } => self.produce(
                topic,
                key,
                payload,
                found.segment,
            ),
            Request::Fetch { topic, partition_id, offset, max_messages } => self.fetch(
                topic,
                partition_id,
                offset,
                max_messages,
            ),
        }
    }

    // ── request handlers ─────────────────────────────────────────────────────

    fn create_topic(
        &mut self,
        name: String,
        partition_count: u32,
        stored: Vec<Vec<StoredSegment>>,
    ) -> (response: Response)
        requires
            old(self).wf(),
            old(self)@.opens(name@, partition_count) ==> stored@.len() <= u32::MAX
                && partitions_openable(old(self).data_dir@, name@, topic_files(stored@)),
        ensures
            final(self).wf(),
            (final(self)@, response@) == old(self)@.create_topic(
                name@,
                partition_count,
                topic_files(stored@),
            ),
    {
        if self.slots.contains_key(name.as_str()) {
            return Response::Error { message: topic_message(name.as_str(), "' already exists") };
        }
        if partition_count == 0 {
            return Response::Error { message: "partition_count must be >= 1".to_owned() };
        }
        match Topic::open(self.data_dir.as_str(), name.as_str(), partition_count, stored) {
            Ok(topic) => {
                proof {
                    lemma_open_partitions_len(
                        self.data_dir@,
                        name@,
                        files_to_open(partition_count, topic_files(stored@)),
                    );
                }
                self.insert(name, topic);
                Response::Okay
            },
            Err(e) => Response::Error { message: e.message },
        }
    }

    fn produce(
        &mut self,
        topic_name: String,
        key: Option<Vec<u8>>,
        payload: Vec<u8>,
        spare: SegmentFiles,
    ) -> (response: Response)
        requires
            old(self).wf(),
            old(self)@.topics.contains_key(topic_name@) ==> old(
                self,
            )@.topics[topic_name@].has_room(key_view(key), payload@.len(), spare@),
        ensures
            final(self).wf(),
            (final(self)@, response@) == old(self)@.produce(
                topic_name@,
                key_view(key),
                payload@,
                spare@,
            ),
    {
        let i: usize = match self.find(topic_name.as_str()) {
            Some(i) => i,
            None => return Response::Error {
                message: topic_message(topic_name.as_str(), "' not found"),
            },
        };
        let ghost before = *self;
        let r: Result<(u32, u64), Error> = self.topics[i].produce(
            as_slice(&key),
            payload.as_slice(),
            spare,
        );
        proof {
            let was = before.topics@[i as int];
            let is = self.topics@[i as int];
            assert(is@.name == was@.name);
            assert(is@.partitions.len() == was@.partitions.len());
            lemma_topic_replaced(before, *self, topic_name@);
        }
        match r {
            Ok((partition_id, offset)) => Response::Produced { partition_id, offset },
            Err(e) => Response::Error { message: e.message },
        }
    }

    fn fetch(
        &self,
        topic_name: String,
        partition_id: u32,
        offset: u64,
        max_messages: u32,
    ) -> (response: Response)
        requires
            self.wf(),
            self@.topics.contains_key(topic_name@) ==> self@.topics[topic_name@].fetchable(
                partition_id,
                offset,
                max_messages as nat,
            ),
        ensures
            response@ == self@.fetch(topic_name@, partition_id, offset, max_messages),
    {
        let i: usize = match self.find(topic_name.as_str()) {
            Some(i) => i,
            None => return Response::Error {
                message: topic_message(topic_name.as_str(), "' not found"),
            },
        };
        match self.topics[i].fetch(partition_id, offset, max_messages as usize) {
            Ok(messages) => Response::Fetched { messages: to_wire(messages) },
            Err(e) => Response::Error { message: e.message },
        }
    }

    // ── internals ────────────────────────────────────────────────────────────

    /// Where a topic stands in `topics`.
    fn find(&self, name: &str) -> (r: Option<usize>)
        requires
            self.wf(),
        ensures
            match r {
                Some(i) => self.slots@.contains_key(name@) && self.slots@[name@] == i && i
                    < self.topics@.len() && self@.topics[name@] == self.topics@[i as int]@,
                None => !self.slots@.contains_key(name@),
            },
    {
        match self.slots.get(name) {
            Some(i) => Some(*i),
            None => None,
        }
    }

    /// Add a topic, in place of any other of that name.
    fn insert(&mut self, name: String, topic: Topic)
        requires
            old(self).wf(),
            topic.wf(),
            topic.partitions@.len() > 0,
            topic.name@ == name@,
        ensures
            final(self).wf(),
            final(self)@ == (BrokerView {
                topics: old(self)@.topics.insert(name@, topic@),
                ..old(self)@
            }),
    {
        let ghost before = *self;
        match self.find(name.as_str()) {
            Some(i) => {
                self.topics[i] = topic;
                proof {
                    lemma_topic_replaced(before, *self, name@);
                }
            },
            None => {
                let i: usize = self.topics.len();
                self.topics.push(topic);
                self.slots.insert(name, i);
                assert(self@.topics =~= before@.topics.insert(name@, topic@));
            },
        }
    }
}

/// An optional vector as an optional slice.
fn as_slice(key: &Option<Vec<u8>>) -> (r: Option<&[u8]>)
    ensures
        key_bytes(r) == key_view(*key),
{
    match key {
        Some(k) => Some(k.as_slice()),
        None => None,
    }
}

proof fn lemma_openable_prefix(data_dir: Seq<char>, stored: Seq<StoredTopicView>, n: int)
    requires
        0 <= n <= stored.len(),
    ensures
        topics_openable(data_dir, stored) ==> topics_openable(data_dir, stored.take(n)),
    decreases stored.len() - n,
{
    if n == stored.len() {
        assert(stored.take(n) =~= stored);
    } else {
        lemma_openable_prefix(data_dir, stored, n + 1);
        assert(stored.take(n + 1).drop_last() =~= stored.take(n));
    }
}

proof fn lemma_open_error_prefix(data_dir: Seq<char>, stored: Seq<StoredTopicView>, n: int)
    requires
        0 <= n <= stored.len(),
        open_topics(data_dir, stored.take(n)) is Err,
    ensures
        open_topics(data_dir, stored) == open_topics(data_dir, stored.take(n)),
        topics_openable(data_dir, stored) == topics_openable(data_dir, stored.take(n)),
    decreases stored.len() - n,
{
    if n == stored.len() {
        assert(stored.take(n) =~= stored);
    } else {
        assert(stored.take(n + 1).drop_last() =~= stored.take(n));
        lemma_open_error_prefix(data_dir, stored, n + 1);
    }
}

/// Opening gives as many partitions as were stored.
proof fn lemma_open_partitions_len(
    base_dir: Seq<char>,
    name: Seq<char>,
    stored: Seq<Seq<StoredView>>,
)
    ensures
        open_partitions(base_dir, name, stored) matches Ok(partitions) ==> partitions.len()
            == stored.len(),
    decreases stored.len(),
{
    if stored.len() > 0 {
        lemma_open_partitions_len(base_dir, name, stored.drop_last());
    }
}

/// A topic replaced in its place is the only change.
proof fn lemma_topic_replaced(before: Broker, after: Broker, name: Seq<char>)
    requires
        before.wf(),
        before.slots@.contains_key(name),
        after.slots == before.slots,
        after.data_dir == before.data_dir,
        after.topics@.len() == before.topics@.len(),
        ({
            let i = before.slots@[name] as int;
            &&& forall|k: int|
                0 <= k < before.topics@.len() && k != i ==> #[trigger] after.topics@[k]
                    == before.topics@[k]
            &&& after.topics@[i].wf()
            &&& after.topics@[i].partitions@.len() > 0
            &&& after.topics@[i].name@ == name
        }),
    ensures
        after.wf(),
        after@ == (BrokerView {
            topics: before@.topics.insert(name, after.topics@[before.slots@[name] as int]@),
            ..before@
        }),
{
    let i = before.slots@[name] as int;
    assert forall|other: Seq<char>| #[trigger] before.slots@.contains_key(other) && other
        != name implies before.slots@[other] != i by {
        assert(before.topics@[before.slots@[other] as int].name@ == other);
    }
    assert(after@.topics =~= before@.topics.insert(name, after.topics@[i]@));
    assert forall|k: int| 0 <= k < after.topics@.len() implies (#[trigger] after.topics@[k]).wf()
        && after.topics@[k].partitions@.len() > 0 by {
        if k != i {
            assert(before.topics@[k].wf());
        }
    }
}

// ── Laws ─────────────────────────────────────────────────────────────────────

impl BrokerView {
    /// The broker's topics are those in `contents`, each under its own name and in
    /// its directories, and partition `i` of topic `t` holds exactly
    /// `contents[t][i]`.
    pub open spec fn holds(self, contents: Map<Seq<char>, Seq<Seq<Seq<u8>>>>) -> bool {
        &&& contents.dom() == self.topics.dom()
        &&& forall|name: Seq<char>| #[trigger]
            self.topics.contains_key(name) ==> {
                &&& self.topics[name].name == name
                &&& self.topics[name].partitions.len() > 0
                &&& self.topics[name].placed(self.data_dir)
                &&& self.topics[name].holds(contents[name])
            }
    }

    /// There is such a topic, and it has room for the message.
    pub open spec fn can_take(
        self,
        topic: Seq<char>,
        key: Option<Seq<u8>>,
        payload: Seq<u8>,
    ) -> bool {
        self.topics.contains_key(topic) && self.topics[topic].can_take(key, payload)
    }
}

/// The partition count of a listing is the number of its entries that are
/// directories: of two listings one after the other it is the sum of theirs, and of
/// directories alone it is their number.
pub proof fn law_directories(entries: Seq<bool>)
    ensures
        directories(entries) == entries.filter(|is_dir: bool| is_dir).len(),
        forall|more: Seq<bool>| #[trigger]
            directories(entries + more) == directories(entries) + directories(more),
        forall|is_dir: bool|
            directories(#[trigger] entries.push(is_dir)) == directories(entries) + (if is_dir {
                1nat
            } else {
                0
            }),
        (forall|i: int| 0 <= i < entries.len() ==> #[trigger] entries[i]) ==> directories(entries)
            == entries.len(),
{
    lemma_directories(entries);
    assert forall|more: Seq<bool>| #[trigger] directories(entries + more) == directories(entries)
        + directories(more) by {
        lemma_directories_split(entries, more);
    }
    assert forall|is_dir: bool|
        directories(#[trigger] entries.push(is_dir)) == directories(entries) + (if is_dir {
            1nat
        } else {
            0
        }) by {
        assert(entries.push(is_dir).drop_last() =~= entries);
    }
    if forall|i: int| 0 <= i < entries.len() ==> #[trigger] entries[i] {
        lemma_all_directories(entries);
    }
}

proof fn lemma_directories(entries: Seq<bool>)
    ensures
        directories(entries) == entries.filter(|is_dir: bool| is_dir).len(),
    decreases entries.len(),
{
    reveal(Seq::filter);
    if entries.len() > 0 {
        lemma_directories(entries.drop_last());
    }
}

proof fn lemma_directories_split(entries: Seq<bool>, more: Seq<bool>)
    ensures
        directories(entries + more) == directories(entries) + directories(more),
    decreases more.len(),
{
    if more.len() == 0 {
        assert(entries + more =~= entries);
    } else {
        lemma_directories_split(entries, more.drop_last());
        assert((entries + more).drop_last() =~= entries + more.drop_last());
        assert((entries + more).last() == more.last());
    }
}

proof fn lemma_all_directories(entries: Seq<bool>)
    requires
        forall|i: int| 0 <= i < entries.len() ==> #[trigger] entries[i],
    ensures
        directories(entries) == entries.len(),
    decreases entries.len(),
{
    if entries.len() > 0 {
        let init = entries.drop_last();
        assert forall|i: int| 0 <= i < init.len() implies #[trigger] init[i] by {
            assert(init[i] == entries[i]);
        }
        lemma_all_directories(init);
        assert(entries[entries.len() - 1]);
    }
}

/// Nothing found on the disk.
pub open spec fn found_nothing() -> FoundView {
    FoundView { segment: no_files(), partitions: Seq::empty() }
}

/// A broker in an empty directory has no topics.
pub proof fn law_broker_new(data_dir: Seq<char>)
    ensures
        topics_openable(data_dir, Seq::empty()),
        BrokerView::opened(data_dir, Seq::empty()) matches Ok(broker) && broker.topics
            == Map::<Seq<char>, TopicView>::empty() && broker.holds(Map::empty()),
{
    let broker = BrokerView::opened(data_dir, Seq::empty())->Ok_0;
    assert(broker.topics.dom() =~= Map::<Seq<char>, Seq<Seq<Seq<u8>>>>::empty().dom());
}

/// Creating a topic under a free name, with at least one partition and nothing on
/// disk, succeeds: the broker then has the topic with that many empty partitions, and
/// every other topic as before.
pub proof fn law_create_topic(
    broker: BrokerView,
    contents: Map<Seq<char>, Seq<Seq<Seq<u8>>>>,
    name: Seq<char>,
    partition_count: u32,
)
    requires
        broker.holds(contents),
        !broker.topics.contains_key(name),
        partition_count > 0,
    ensures
        ({
            let request = RequestView::CreateTopic { name, partition_count };
            let found = found_nothing();
            let (after, response) = broker.handle(request, found);
            let empty = Seq::new(partition_count as nat, |i: int| Seq::<Seq<u8>>::empty());
            &&& broker.accepts(request, found)
            &&& response == ResponseView::Okay
            &&& after.holds(contents.insert(name, empty))
            &&& after.topics == broker.topics.insert(name, after.topics[name])
            &&& after.topics[name].partitions.len() == partition_count
            &&& after.topics[name].total() == 0
            &&& after.topics[name].stored() == new_topic_files(partition_count as nat)
            &&& after.data_dir == broker.data_dir
        }),
{
    law_topic_new(broker.data_dir, name, partition_count);
    let request = RequestView::CreateTopic { name, partition_count };
    let after = broker.handle(request, found_nothing()).0;
    let empty = Seq::new(partition_count as nat, |i: int| Seq::<Seq<u8>>::empty());
    assert(contents.insert(name, empty).dom() =~= after.topics.dom());
}

/// What a create asks to be made on disk is what the topic it makes will use: one
/// directory for each of its partitions, that of its log, all of them in the
/// directory named for the topic, and each for a number of its own.
pub proof fn law_create_dirs(
    broker: BrokerView,
    contents: Map<Seq<char>, Seq<Seq<Seq<u8>>>>,
    name: Seq<char>,
    partition_count: u32,
)
    requires
        broker.holds(contents),
        !broker.topics.contains_key(name),
        partition_count > 0,
    ensures
        ({
            let request = RequestView::CreateTopic { name, partition_count };
            let made = broker.handle(request, found_nothing()).0.topics[name];
            broker.needs(request) matches NeedView::Topic { dir, new_partitions } && {
                &&& new_partitions.len() == partition_count
                &&& new_partitions.len() == made.partitions.len()
                &&& forall|i: int|
                    0 <= i < partition_count ==> #[trigger] new_partitions[i]
                        == made.partitions[i].log.dir
                &&& forall|i: int|
                    0 <= i < partition_count ==> #[trigger] new_partitions[i] == dir
                        + (if dir.len() == 0 || dir.last() == '/' {
                        Seq::empty()
                    } else {
                        seq!['/']
                    }) + decimal(i as nat)
            }
        }),
{
    let request = RequestView::CreateTopic { name, partition_count };
    law_create_topic(broker, contents, name, partition_count);
    let after = broker.handle(request, found_nothing()).0;
    let made = after.topics[name];
    assert(after.topics.contains_key(name));
    assert(made.placed(broker.data_dir));
    let dir = joined(broker.data_dir, name);
    let dirs = broker.needs(request)->new_partitions;
    assert forall|i: int| 0 <= i < partition_count implies #[trigger] dirs[i]
        == made.partitions[i].log.dir && dirs[i] == dir + (if dir.len() == 0 || dir.last() == '/' {
        Seq::empty()
    } else {
        seq!['/']
    }) + decimal(i as nat) by {
        assert(made.partitions[i].id == i);
        law_decimal(i as nat);
        assert(is_digit(decimal(i as nat)[0]));
        if dir.len() == 0 || dir.last() == '/' {
            assert(dir + Seq::<char>::empty() =~= dir);
        } else {
            assert(dir + seq!['/'] =~= dir.push('/'));
        }
    }
}

/// Creating a topic that the disk already holds brings it back with the partitions
/// and messages it has, however many partitions are asked for.
pub proof fn law_create_existing(
    broker: BrokerView,
    contents: Map<Seq<char>, Seq<Seq<Seq<u8>>>>,
    topic: TopicView,
    messages: Seq<Seq<Seq<u8>>>,
    partition_count: u32,
)
    requires
        broker.holds(contents),
        !broker.topics.contains_key(topic.name),
        partition_count > 0,
        topic.holds(messages),
        topic.placed(broker.data_dir),
        topic.partitions.len() > 0,
    ensures
        ({
            let request = RequestView::CreateTopic { name: topic.name, partition_count };
            let found = FoundView { segment: no_files(), partitions: topic.stored() };
            let (after, response) = broker.handle(request, found);
            &&& broker.accepts(request, found)
            &&& response == ResponseView::Okay
            &&& after.topics == broker.topics.insert(topic.name, topic)
            &&& after.holds(contents.insert(topic.name, messages))
        }),
{
    law_topic_resized(broker.data_dir, topic, messages, partition_count);
    let request = RequestView::CreateTopic { name: topic.name, partition_count };
    let found = FoundView { segment: no_files(), partitions: topic.stored() };
    let after = broker.handle(request, found).0;
    assert(contents.insert(topic.name, messages).dom() =~= after.topics.dom());
}

/// A request that names no topic, a second topic of one name, or no partitions is
/// answered with an error that says so, and changes nothing.
pub proof fn law_refusals(broker: BrokerView, request: RequestView, found: FoundView)
    requires
        match request {
            RequestView::CreateTopic { name, partition_count } => broker.topics.contains_key(name)
                || partition_count == 0,
            RequestView::Produce { topic, .. } => !broker.topics.contains_key(topic),
            RequestView::Fetch { topic, .. } => !broker.topics.contains_key(topic),
        },
    ensures
        broker.accepts(request, found),
        broker.needs(request) == NeedView::Nothing,
        broker.plan(request, found) is None,
        broker.handle(request, found).0 == broker,
        broker.handle(request, found).1 == (ResponseView::Error {
            message: match request {
                RequestView::CreateTopic { name, .. } => if broker.topics.contains_key(name) {
                    "topic '"@ + name + "' already exists"@
                } else {
                    "partition_count must be >= 1"@
                },
                RequestView::Produce { topic, .. } => "topic '"@ + topic + "' not found"@,
                RequestView::Fetch { topic, .. } => "topic '"@ + topic + "' not found"@,
            },
        }),
{
}

/// A topic of the broker has room for every message that a frame can carry, as long as
/// no partition has given its last offset and the sum of the high-water marks is
/// within 64 bits.
pub proof fn law_broker_takes(
    broker: BrokerView,
    contents: Map<Seq<char>, Seq<Seq<Seq<u8>>>>,
    topic: Seq<char>,
    key: Option<Seq<u8>>,
    payload: Seq<u8>,
)
    requires
        broker.holds(contents),
        broker.topics.contains_key(topic),
        payload.len() + 8 <= 0xFFFF_FFFF,
        forall|i: int|
            0 <= i < broker.topics[topic].partitions.len() ==> (
            #[trigger] broker.topics[topic].partitions[i]).high_water_mark < u64::MAX,
        broker.topics[topic].partitions.map_values(
            |p: PartitionView| p.high_water_mark as int,
        ).fold_left(0, |sum: int, mark: int| sum + mark) <= u64::MAX,
    ensures
        broker.can_take(topic, key, payload),
        broker.accepts(RequestView::Produce { topic, key, payload }, found_nothing()),
        broker.handle(RequestView::Produce { topic, key, payload }, found_nothing()).1 is Produced,
{
    let t = broker.topics[topic];
    law_total_is_sum(t);
    law_select_in_range(t, key);
    law_topic_has_room(broker.data_dir, t, contents[topic], key, payload);
    law_produce(broker, contents, topic, key, payload);
}

/// A produce to a topic with room adds the message at the end of the partition
/// that it is routed to, answers with that partition and the offset, and leaves
/// everything else as it was.
pub proof fn law_produce(
    broker: BrokerView,
    contents: Map<Seq<char>, Seq<Seq<Seq<u8>>>>,
    topic: Seq<char>,
    key: Option<Seq<u8>>,
    payload: Seq<u8>,
)
    requires
        broker.holds(contents),
        broker.can_take(topic, key, payload),
    ensures
        ({
            let request = RequestView::Produce { topic, key, payload };
            let (after, response) = broker.handle(request, found_nothing());
            let id = broker.topics[topic].select(key);
            let held = contents[topic];
            &&& broker.accepts(request, found_nothing())
            &&& id as int == (match key {
                Some(k) => DefaultHasher::spec_finish(hash_writes(k)) as int,
                None => broker.topics[topic].partitions.map_values(
                    |p: PartitionView| p.high_water_mark as int,
                ).fold_left(0, |sum: int, mark: int| sum + mark),
            }) % broker.topics[topic].partitions.len() as int
            &&& response == (ResponseView::Produced {
                partition_id: id,
                offset: broker.topics[topic].partitions[id as int].high_water_mark,
            })
            &&& id < held.len()
            &&& after.holds(
                contents.insert(topic, held.update(id as int, held[id as int].push(payload))),
            )
            &&& after.topics == broker.topics.insert(topic, after.topics[topic])
            &&& after.data_dir == broker.data_dir
        }),
{
    let t = broker.topics[topic];
    let id = t.select(key) as int;
    law_select_in_range(t, key);
    law_topic_produce(t, contents[topic], key, payload);
    match key {
        Some(k) => law_keyed_route(t, k, payload, no_files()),
        None => law_keyless_route(t, payload, no_files()),
    }
    let request = RequestView::Produce { topic, key, payload };
    let after = broker.handle(request, found_nothing()).0;
    let held = contents[topic];
    let more = contents.insert(topic, held.update(id, held[id].push(payload)));
    assert(more.dom() =~= after.topics.dom());
}

/// A fetch is answered with the messages of the partition from the offset asked for
/// on, up to the number asked for, and with an error if there is no such partition.
pub proof fn law_fetch(
    broker: BrokerView,
    contents: Map<Seq<char>, Seq<Seq<Seq<u8>>>>,
    topic: Seq<char>,
    partition_id: u32,
    offset: u64,
    max_messages: u32,
)
    requires
        broker.holds(contents),
        broker.topics.contains_key(topic),
    ensures
        ({
            let request = RequestView::Fetch { topic, partition_id, offset, max_messages };
            let n = contents[topic].len();
            let p = broker.topics[topic].partitions[partition_id as int];
            let end = fetch_end(p.high_water_mark, offset, max_messages as nat);
            let held = contents[topic][partition_id as int];
            &&& broker.accepts(request, found_nothing())
            &&& broker.handle(request, found_nothing()) == (
                broker,
                if partition_id >= n {
                    ResponseView::Error {
                        message: "partition "@ + decimal(partition_id as nat)
                            + " does not exist (topic has "@ + decimal(n) + ")"@,
                    }
                } else if p.log.oldest() <= offset < p.high_water_mark {
                    ResponseView::Fetched { messages: numbered(held, p.log.oldest(), offset, end) }
                } else {
                    ResponseView::Fetched { messages: Seq::empty() }
                },
            )
            &&& partition_id < n ==> {
                &&& p.high_water_mark == p.log.oldest() + held.len()
                &&& broker.handle(request, found_nothing()).1 matches ResponseView::Fetched {
                    messages,
                }
                &&& p.log.oldest() <= offset < p.high_water_mark ==> messages.len() == (
                if max_messages < p.high_water_mark - offset {
                    max_messages as int
                } else {
                    p.high_water_mark - offset
                })
                &&& !(p.log.oldest() <= offset < p.high_water_mark) ==> messages.len() == 0
                &&& forall|k: int|
                    0 <= k < messages.len() ==> (#[trigger] messages[k]).offset == offset + k
                        && messages[k].payload == held[offset - p.log.oldest() + k]
            }
        }),
{
    let t = broker.topics[topic];
    if partition_id < t.partitions.len() {
        law_partition_fetch(
            t.partitions[partition_id as int],
            contents[topic][partition_id as int],
            offset,
            max_messages as nat,
        );
    }
}

/// What was produced is fetched: at the place that the answer to a produce names,
/// a fetch of one message finds that message.
pub proof fn law_fetch_after_produce(
    broker: BrokerView,
    contents: Map<Seq<char>, Seq<Seq<Seq<u8>>>>,
    topic: Seq<char>,
    key: Option<Seq<u8>>,
    payload: Seq<u8>,
)
    requires
        broker.holds(contents),
        broker.can_take(topic, key, payload),
    ensures
        ({
            let request = RequestView::Produce { topic, key, payload };
            let (after, response) = broker.handle(request, found_nothing());
            response matches ResponseView::Produced { partition_id, offset } && {
                let fetch = RequestView::Fetch { topic, partition_id, offset, max_messages: 1 };
                &&& after.accepts(fetch, found_nothing())
                &&& after.handle(fetch, found_nothing()).1 == (ResponseView::Fetched {
                    messages: seq![MessageView { offset, payload }],
                })
            }
        }),
{
    let t = broker.topics[topic];
    let id = t.select(key) as int;
    law_select_in_range(t, key);
    law_produce(broker, contents, topic, key, payload);
    law_topic_produce(t, contents[topic], key, payload);
    crate::topic::law_fetch_after_produce(t, contents[topic], key, payload);
    let after = t.produce(key, payload, no_files()).0;
    law_partition_fetch(
        after.partitions[id],
        contents[topic][id].push(payload),
        t.partitions[id].high_water_mark,
        1,
    );
}

/// A fetch changes nothing, whatever it asks for.
pub proof fn law_fetch_keeps_broker(broker: BrokerView, request: RequestView, found: FoundView)
    requires
        request is Fetch,
    ensures
        broker.handle(request, found).0 == broker,
        broker.needs(request) == NeedView::Nothing,
        broker.plan(request, found) is None,
{
}

/// A topic created, a first message produced to it and then fetched: the message
/// comes back, alone, with offset 0.
pub proof fn law_create_produce_fetch(
    broker: BrokerView,
    contents: Map<Seq<char>, Seq<Seq<Seq<u8>>>>,
    topic: Seq<char>,
    partition_count: u32,
    key: Option<Seq<u8>>,
    payload: Seq<u8>,
)
    requires
        broker.holds(contents),
        !broker.topics.contains_key(topic),
        partition_count > 0,
        storable(payload),
    ensures
        ({
            let create = RequestView::CreateTopic { name: topic, partition_count };
            let (created, r1) = broker.handle(create, found_nothing());
            let produce = RequestView::Produce { topic, key, payload };
            let (produced, r2) = created.handle(produce, found_nothing());
            &&& r1 == ResponseView::Okay
            &&& r2 matches ResponseView::Produced { partition_id, offset } && {
                let fetch = RequestView::Fetch { topic, partition_id, offset, max_messages: 1 };
                &&& partition_id < partition_count
                &&& offset == 0
                &&& produced.handle(fetch, found_nothing()) == (
                    produced,
                    ResponseView::Fetched { messages: seq![MessageView { offset, payload }] },
                )
            }
        }),
{
    law_create_topic(broker, contents, topic, partition_count);
    let create = RequestView::CreateTopic { name: topic, partition_count };
    let created = broker.handle(create, found_nothing()).0;
    let t = created.topics[topic];
    let empty = Seq::new(partition_count as nat, |i: int| Seq::<Seq<u8>>::empty());
    let held = contents.insert(topic, empty);
    let id = t.select(key) as int;
    law_select_in_range(t, key);
    law_partition_counts(t, id);
    law_topic_has_room(broker.data_dir, t, empty, key, payload);
    law_produce(created, held, topic, key, payload);
    law_fetch_after_produce(created, held, topic, key, payload);
}

impl BrokerView {
    /// The broker after these requests, one after the other, with nothing on disk but
    /// what it wrote itself.
    pub open spec fn after(self, requests: Seq<RequestView>) -> BrokerView
        decreases requests.len(),
    {
        if requests.len() == 0 {
            self
        } else {
            self.after(requests.drop_last()).handle(requests.last(), found_nothing()).0
        }
    }

    /// The answer to request `k` of these.
    pub open spec fn answer(self, requests: Seq<RequestView>, k: int) -> ResponseView {
        self.after(requests.take(k)).handle(requests[k], found_nothing()).1
    }
}

/// What a history of `n` requests leaves behind: the broker holds some messages, and
/// no topic counts more than `n` of them.
spec fn bounded(
    broker: BrokerView,
    contents: Map<Seq<char>, Seq<Seq<Seq<u8>>>>,
    n: int,
) -> bool {
    &&& broker.holds(contents)
    &&& forall|name: Seq<char>| #[trigger]
        broker.topics.contains_key(name) ==> broker.topics[name].total() <= n
}

/// One request of a history: it is accepted, and no message is lost.
proof fn lemma_step(
    broker: BrokerView,
    contents: Map<Seq<char>, Seq<Seq<Seq<u8>>>>,
    request: RequestView,
    n: int,
) -> (held: Map<Seq<char>, Seq<Seq<Seq<u8>>>>)
    requires
        bounded(broker, contents, n),
        0 <= n < u64::MAX - 1,
        request matches RequestView::Produce { payload, .. } ==> payload.len() + 8 <= 0xFFFF_FFFF,
    ensures
        broker.accepts(request, found_nothing()),
        ({
            let (after, response) = broker.handle(request, found_nothing());
            &&& bounded(after, held, n + 1)
            &&& forall|name: Seq<char>| #[trigger]
                broker.topics.contains_key(name) ==> after.topics.contains_key(name) && {
                    let was = broker.topics[name];
                    let is = after.topics[name];
                    &&& is.partitions.len() == was.partitions.len()
                    &&& forall|i: int|
                        0 <= i < was.partitions.len() ==> (
                        #[trigger] is.partitions[i]).log.oldest() == was.partitions[i].log.oldest()
                            && contents[name][i].is_prefix_of(held[name][i])
                }
            &&& response matches ResponseView::Produced { partition_id, offset } ==> {
                request matches RequestView::Produce { topic, payload, .. } && {
                    let p = after.topics[topic].partitions[partition_id as int];
                    &&& broker.topics.contains_key(topic)
                    &&& partition_id < broker.topics[topic].partitions.len()
                    &&& p.log.oldest() <= offset < p.log.oldest()
                        + held[topic][partition_id as int].len()
                    &&& held[topic][partition_id as int][offset - p.log.oldest()] == payload
                }
            }
        }),
{
    match request {
        RequestView::CreateTopic { name, partition_count } => if !broker.topics.contains_key(name)
            && partition_count > 0 {
            law_create_topic(broker, contents, name, partition_count);
            let empty = Seq::new(partition_count as nat, |i: int| Seq::<Seq<u8>>::empty());
            contents.insert(name, empty)
        } else {
            law_refusals(broker, request, found_nothing());
            contents
        },
        RequestView::Produce { topic, key, payload } => if broker.topics.contains_key(topic) {
            let t = broker.topics[topic];
            let id = t.select(key) as int;
            law_select_in_range(t, key);
            law_partition_counts(t, id);
            law_topic_has_room(broker.data_dir, t, contents[topic], key, payload);
            law_produce(broker, contents, topic, key, payload);
            law_topic_produce(t, contents[topic], key, payload);
            law_total_grows(t, contents[topic], key, payload);
            law_partition_append(t.partitions[id], contents[topic][id], payload);
            let held = contents[topic];
            let now = contents.insert(topic, held.update(id, held[id].push(payload)));
            let after = broker.handle(request, found_nothing()).0;
            assert(after.topics[topic] == t.produce(key, payload, no_files()).0);
            assert forall|name: Seq<char>| #[trigger] broker.topics.contains_key(name) implies {
                let was = broker.topics[name];
                let is = after.topics[name];
                &&& is.partitions.len() == was.partitions.len()
                &&& forall|i: int|
                    0 <= i < was.partitions.len() ==> (
                    #[trigger] is.partitions[i]).log.oldest() == was.partitions[i].log.oldest()
                        && contents[name][i].is_prefix_of(now[name][i])
            } by {
                if name == topic {
                    assert forall|i: int| 0 <= i < t.partitions.len() implies (
                    #[trigger] after.topics[topic].partitions[i]).log.oldest()
                        == t.partitions[i].log.oldest() && contents[topic][i].is_prefix_of(
                        now[topic][i],
                    ) by {
                        if i != id {
                            assert(after.topics[topic].partitions[i] == t.partitions[i]);
                        }
                    }
                } else {
                    assert(after.topics[name] == broker.topics[name]);
                }
            }
            assert(after.topics.contains_key(topic));
            now
        } else {
            law_refusals(broker, request, found_nothing());
            contents
        },
        RequestView::Fetch { topic, partition_id, offset, max_messages } => {
            if broker.topics.contains_key(topic) {
                law_fetch(broker, contents, topic, partition_id, offset, max_messages);
            }
            contents
        },
    }
}

proof fn lemma_history(data_dir: Seq<char>, requests: Seq<RequestView>, n: int) -> (held: Map<
    Seq<char>,
    Seq<Seq<Seq<u8>>>,
>)
    requires
        0 <= n <= requests.len() < u64::MAX - 1,
        forall|i: int|
            0 <= i < requests.len() ==> (
            #[trigger] requests[i] matches RequestView::Produce { payload, .. } ==> payload.len()
                + 8 <= 0xFFFF_FFFF),
    ensures
        bounded(
            (BrokerView { data_dir, topics: Map::empty() }).after(requests.take(n)),
            held,
            n,
        ),
    decreases n,
{
    let start = BrokerView { data_dir, topics: Map::empty() };
    if n == 0 {
        law_broker_new(data_dir);
        assert(start.after(requests.take(0)) == start);
        Map::empty()
    } else {
        let before = lemma_history(data_dir, requests, n - 1);
        assert(requests.take(n).drop_last() =~= requests.take(n - 1));
        assert(requests.take(n).last() == requests[n - 1]);
        lemma_step(start.after(requests.take(n - 1)), before, requests[n - 1], n - 1)
    }
}

/// Message of request `k` after `n` requests.
proof fn lemma_history_kept(
    data_dir: Seq<char>,
    requests: Seq<RequestView>,
    k: int,
    n: int,
) -> (held: Map<Seq<char>, Seq<Seq<Seq<u8>>>>)
    requires
        0 <= k < n <= requests.len() < u64::MAX - 1,
        forall|i: int|
            0 <= i < requests.len() ==> (
            #[trigger] requests[i] matches RequestView::Produce { payload, .. } ==> payload.len()
                + 8 <= 0xFFFF_FFFF),
        (BrokerView { data_dir, topics: Map::empty() }).answer(requests, k) is Produced,
    ensures
        ({
            let start = BrokerView { data_dir, topics: Map::empty() };
            let broker = start.after(requests.take(n));
            &&& bounded(broker, held, n)
            &&& requests[k] matches RequestView::Produce { topic, payload, .. }
            &&& start.answer(requests, k) matches ResponseView::Produced { partition_id, offset }
            &&& {
                let p = broker.topics[topic].partitions[partition_id as int];
                &&& broker.topics.contains_key(topic)
                &&& partition_id < broker.topics[topic].partitions.len()
                &&& p.log.oldest() <= offset < p.log.oldest()
                    + held[topic][partition_id as int].len()
                &&& held[topic][partition_id as int][offset - p.log.oldest()] == payload
            }
        }),
    decreases n,
{
    let start = BrokerView { data_dir, topics: Map::empty() };
    let before_broker = start.after(requests.take(n - 1));
    assert(requests.take(n).drop_last() =~= requests.take(n - 1));
    assert(requests.take(n).last() == requests[n - 1]);
    if n == k + 1 {
        let before = lemma_history(data_dir, requests, n - 1);
        lemma_step(before_broker, before, requests[n - 1], n - 1)
    } else {
        let before = lemma_history_kept(data_dir, requests, k, n - 1);
        let held = lemma_step(before_broker, before, requests[n - 1], n - 1);
        let topic = requests[k]->Produce_topic;
        let id = start.answer(requests, k)->partition_id as int;
        let broker = start.after(requests.take(n));
        assert(before_broker.topics.contains_key(topic));
        assert(broker.topics[topic].partitions[id].log.oldest()
            == before_broker.topics[topic].partitions[id].log.oldest());
        assert(before[topic][id].is_prefix_of(held[topic][id]));
        held
    }
}

/// A broker that starts with nothing accepts every request, whatever came before it,
/// as long as the payloads are such as a frame can carry and 64 bits can count the
/// requests.
pub proof fn law_always_accepts(data_dir: Seq<char>, requests: Seq<RequestView>, k: int)
    requires
        0 <= k < requests.len() < u64::MAX - 1,
        forall|i: int|
            0 <= i < requests.len() ==> (
            #[trigger] requests[i] matches RequestView::Produce { payload, .. } ==> payload.len()
                + 8 <= 0xFFFF_FFFF),
    ensures
        (BrokerView { data_dir, topics: Map::empty() }).after(requests.take(k)).accepts(
            requests[k],
            found_nothing(),
        ),
{
    let start = BrokerView { data_dir, topics: Map::empty() };
    let held = lemma_history(data_dir, requests, k);
    let _ = lemma_step(start.after(requests.take(k)), held, requests[k], k);
}

/// No message is lost: whatever requests came before a produce and after it, a fetch
/// from the place that the produce was answered with gives back its payload.
pub proof fn law_nothing_lost(
    data_dir: Seq<char>,
    requests: Seq<RequestView>,
    k: int,
    topic: Seq<char>,
    key: Option<Seq<u8>>,
    payload: Seq<u8>,
    partition_id: u32,
    offset: u64,
)
    requires
        0 <= k < requests.len() < u64::MAX - 1,
        forall|i: int|
            0 <= i < requests.len() ==> (
            #[trigger] requests[i] matches RequestView::Produce { payload, .. } ==> payload.len()
                + 8 <= 0xFFFF_FFFF),
        requests[k] == (RequestView::Produce { topic, key, payload }),
        (BrokerView { data_dir, topics: Map::empty() }).answer(requests, k)
            == (ResponseView::Produced { partition_id, offset }),
    ensures
        (BrokerView { data_dir, topics: Map::empty() }).after(requests).handle(
            RequestView::Fetch { topic, partition_id, offset, max_messages: 1 },
            found_nothing(),
        ).1 == (ResponseView::Fetched { messages: seq![MessageView { offset, payload }] }),
{
    let n = requests.len() as int;
    let held = lemma_history_kept(data_dir, requests, k, n);
    assert(requests.take(n) =~= requests);
    let broker = (BrokerView { data_dir, topics: Map::empty() }).after(requests);
    law_fetch(broker, held, topic, partition_id, offset, 1);
    let fetch = RequestView::Fetch { topic, partition_id, offset, max_messages: 1 };
    let messages = broker.handle(fetch, found_nothing()).1->messages;
    assert(messages =~= seq![MessageView { offset, payload }]);
}

/// A produce to a topic that was created, and a create under a free name with at
/// least one partition, always succeed.
pub proof fn law_always_answers(data_dir: Seq<char>, requests: Seq<RequestView>, k: int)
    requires
        0 <= k < requests.len() < u64::MAX - 1,
        forall|i: int|
            0 <= i < requests.len() ==> (
            #[trigger] requests[i] matches RequestView::Produce { payload, .. } ==> payload.len()
                + 8 <= 0xFFFF_FFFF),
    ensures
        ({
            let start = BrokerView { data_dir, topics: Map::empty() };
            let broker = start.after(requests.take(k));
            let response = start.answer(requests, k);
            match requests[k] {
                RequestView::CreateTopic { name, partition_count } => {
                    &&& response == ResponseView::Okay <==> !broker.topics.contains_key(name)
                        && partition_count > 0
                    &&& response == ResponseView::Okay || response is Error
                    &&& response == ResponseView::Okay ==> {
                        let after = start.after(requests.take(k + 1));
                        &&& after.topics.contains_key(name)
                        &&& after.topics[name].partitions.len() == partition_count
                    }
                },
                RequestView::Produce { topic, .. } => {
                    &&& response is Produced <==> broker.topics.contains_key(topic)
                    &&& response is Produced || response is Error
                },
                RequestView::Fetch { topic, partition_id, .. } => {
                    &&& response is Fetched <==> broker.topics.contains_key(topic) && partition_id
                        < broker.topics[topic].partitions.len()
                    &&& response is Fetched || response is Error
                },
            }
        }),
{
    let start = BrokerView { data_dir, topics: Map::empty() };
    let broker = start.after(requests.take(k));
    let held = lemma_history(data_dir, requests, k);
    let _ = lemma_step(broker, held, requests[k], k);
    assert(requests.take(k + 1).drop_last() =~= requests.take(k));
    match requests[k] {
        RequestView::CreateTopic { name, partition_count } => {
            if !broker.topics.contains_key(name) && partition_count > 0 {
                law_create_topic(broker, held, name, partition_count);
            }
        },
        RequestView::Produce { topic, key, payload } => {
            if broker.topics.contains_key(topic) {
                let t = broker.topics[topic];
                law_select_in_range(t, key);
                law_partition_counts(t, t.select(key) as int);
                law_topic_has_room(broker.data_dir, t, held[topic], key, payload);
                law_produce(broker, held, topic, key, payload);
            }
        },
        RequestView::Fetch { topic, partition_id, offset, max_messages } => {
            if broker.topics.contains_key(topic) {
                law_fetch(broker, held, topic, partition_id, offset, max_messages);
            }
        },
    }
}

/// Restart after any history: the broker opened from the files that a broker holds
/// after these requests, its topics listed in any order, is that broker.
pub proof fn law_history_restart(
    data_dir: Seq<char>,
    requests: Seq<RequestView>,
    stored: Seq<StoredTopicView>,
)
    requires
        requests.len() < u64::MAX - 1,
        forall|i: int|
            0 <= i < requests.len() ==> (
            #[trigger] requests[i] matches RequestView::Produce { payload, .. } ==> payload.len()
                + 8 <= 0xFFFF_FFFF),
        ({
            let broker = (BrokerView { data_dir, topics: Map::empty() }).after(requests);
            &&& forall|i: int|
                0 <= i < stored.len() ==> broker.topics.contains_key((#[trigger] stored[i]).name)
                    && stored[i].partitions == broker.topics[stored[i].name].stored()
            &&& forall|name: Seq<char>| #[trigger]
                broker.topics.contains_key(name) ==> exists|i: int|
                    0 <= i < stored.len() && (#[trigger] stored[i]).name == name
        }),
    ensures
        topics_openable(data_dir, stored),
        BrokerView::opened(data_dir, stored) == Ok::<BrokerView, ErrorView>(
            (BrokerView { data_dir, topics: Map::empty() }).after(requests),
        ),
{
    let n = requests.len() as int;
    let start = BrokerView { data_dir, topics: Map::empty() };
    let held = lemma_history(data_dir, requests, n);
    assert(requests.take(n) =~= requests);
    let broker = start.after(requests);
    lemma_data_dir(start, requests);
    law_broker_restart(broker, held, stored);
}

proof fn lemma_data_dir(start: BrokerView, requests: Seq<RequestView>)
    ensures
        start.after(requests).data_dir == start.data_dir,
    decreases requests.len(),
{
    if requests.len() > 0 {
        lemma_data_dir(start, requests.drop_last());
    }
}

/// `stored` lists the topics of the broker, in any order, as the disk holds them.
pub open spec fn lists(stored: Seq<StoredTopicView>, broker: BrokerView) -> bool {
    &&& forall|i: int|
        0 <= i < stored.len() ==> broker.topics.contains_key((#[trigger] stored[i]).name)
            && stored[i].partitions == broker.topics[stored[i].name].stored()
    &&& forall|name: Seq<char>| #[trigger]
        broker.topics.contains_key(name) ==> exists|i: int|
            0 <= i < stored.len() && (#[trigger] stored[i]).name == name
}

/// No two of these topics have one name.
pub open spec fn distinct_names(stored: Seq<StoredTopicView>) -> bool {
    forall|i: int, j: int|
        0 <= i < j < stored.len() ==> (#[trigger] stored[i]).name != (#[trigger] stored[j]).name
}

/// Opening a broker leaves the files as they are, whatever they hold: each topic
/// found with partitions is there under its name with the files it had, and there is
/// no other.
pub proof fn law_broker_open_keeps_files(data_dir: Seq<char>, stored: Seq<StoredTopicView>)
    requires
        distinct_names(stored),
    ensures
        BrokerView::opened(data_dir, stored) matches Ok(broker) ==> {
            &&& forall|i: int|
                0 <= i < stored.len() && (#[trigger] stored[i]).partitions.len() > 0
                    ==> broker.topics.contains_key(stored[i].name)
                    && broker.topics[stored[i].name].stored() == stored[i].partitions
            &&& forall|name: Seq<char>| #[trigger]
                broker.topics.contains_key(name) ==> exists|i: int|
                    0 <= i < stored.len() && (#[trigger] stored[i]).name == name
                        && stored[i].partitions.len() > 0
        },
    decreases stored.len(),
{
    if stored.len() > 0 && BrokerView::opened(data_dir, stored) is Ok {
        let init = stored.drop_last();
        let last = stored.last();
        assert forall|i: int, j: int| 0 <= i < j < init.len() implies (#[trigger] init[i]).name
            != (#[trigger] init[j]).name by {
            assert(stored[i].name != stored[j].name);
        }
        law_broker_open_keeps_files(data_dir, init);
        law_topic_open_keeps_files(data_dir, last.name, last.partitions);
        let before = BrokerView::opened(data_dir, init)->Ok_0;
        let broker = BrokerView::opened(data_dir, stored)->Ok_0;
        let n = stored.len() - 1;
        assert forall|i: int|
            0 <= i < stored.len() && (#[trigger] stored[i]).partitions.len() > 0 implies
            broker.topics.contains_key(stored[i].name) && broker.topics[stored[i].name].stored()
            == stored[i].partitions by {
            if i < n {
                assert(init[i] == stored[i]);
                assert(stored[i].name != stored[n].name);
            }
        }
        assert forall|name: Seq<char>| #[trigger] broker.topics.contains_key(name) implies exists|
            i: int,
        |
            0 <= i < stored.len() && (#[trigger] stored[i]).name == name
                && stored[i].partitions.len() > 0 by {
            if before.topics.contains_key(name) {
                let i = choose|i: int|
                    0 <= i < init.len() && (#[trigger] init[i]).name == name
                        && init[i].partitions.len() > 0;
                assert(stored[i] == init[i]);
            } else {
                assert(stored[n].name == name);
            }
        }
    }
}

/// The broker with no other topics than the first `n` listed.
spec fn listed(stored: Seq<StoredTopicView>, n: int, broker: BrokerView) -> Map<
    Seq<char>,
    TopicView,
> {
    Map::new(
        |name: Seq<char>| exists|i: int| 0 <= i < n && (#[trigger] stored[i]).name == name,
        |name: Seq<char>| broker.topics[name],
    )
}

proof fn lemma_reopen(
    broker: BrokerView,
    contents: Map<Seq<char>, Seq<Seq<Seq<u8>>>>,
    stored: Seq<StoredTopicView>,
    n: int,
)
    requires
        broker.holds(contents),
        lists(stored, broker),
        0 <= n <= stored.len(),
    ensures
        topics_openable(broker.data_dir, stored.take(n)),
        open_topics(broker.data_dir, stored.take(n)) == Ok::<
            Map<Seq<char>, TopicView>,
            ErrorView,
        >(listed(stored, n, broker)),
    decreases n,
{
    if n == 0 {
        assert(listed(stored, 0, broker) =~= Map::empty());
    } else {
        lemma_reopen(broker, contents, stored, n - 1);
        let last = stored[n - 1];
        let topic = broker.topics[last.name];
        law_topic_restart(broker.data_dir, topic, contents[last.name]);
        assert(stored.take(n).drop_last() =~= stored.take(n - 1));
        assert(stored.take(n).last() == last);
        let before = listed(stored, n - 1, broker);
        let after = listed(stored, n, broker);
        assert forall|name: Seq<char>| after.contains_key(name) == #[trigger] before.insert(
            last.name,
            topic,
        ).contains_key(name) by {
            if after.contains_key(name) {
                let i = choose|i: int| 0 <= i < n && (#[trigger] stored[i]).name == name;
                if i < n - 1 {
                    assert(before.contains_key(name));
                }
            }
            if before.contains_key(name) {
                let i = choose|i: int| 0 <= i < n - 1 && (#[trigger] stored[i]).name == name;
                assert(0 <= i < n && stored[i].name == name);
            }
            if name == last.name {
                assert(0 <= n - 1 < n && stored[n - 1].name == name);
            }
        }
        assert(before.insert(last.name, topic) =~= after);
    }
}

/// Restart: the broker that is opened from a broker's files, its topics listed in
/// any order, is that broker.
pub proof fn law_broker_restart(
    broker: BrokerView,
    contents: Map<Seq<char>, Seq<Seq<Seq<u8>>>>,
    stored: Seq<StoredTopicView>,
)
    requires
        broker.holds(contents),
        lists(stored, broker),
    ensures
        topics_openable(broker.data_dir, stored),
        BrokerView::opened(broker.data_dir, stored) == Ok::<BrokerView, ErrorView>(broker),
{
    let n = stored.len() as int;
    lemma_reopen(broker, contents, stored, n);
    assert(stored.take(n) =~= stored);
    assert(listed(stored, n, broker) =~= broker.topics);
}

/// What was found on the disk agrees where the request needs it.
pub open spec fn agree(need: NeedView, a: FoundView, b: FoundView) -> bool {
    match need {
        NeedView::Nothing => true,
        NeedView::Segment { .. } => a.segment == b.segment,
        NeedView::Topic { .. } => a.partitions == b.partitions,
    }
}

/// Nothing on the disk matters to a request but what it needs.
pub proof fn law_needs(broker: BrokerView, request: RequestView, a: FoundView, b: FoundView)
    requires
        broker.accepts(request, a),
        agree(broker.needs(request), a, b),
    ensures
        broker.accepts(request, b),
        broker.handle(request, b) == broker.handle(request, a),
        broker.plan(request, b) == broker.plan(request, a),
{
}

/// The disk follows the broker: a produce that is answered with its place has been
/// planned, and what was planned, added to the end of the files of that segment,
/// gives the files that the broker then holds. A produce that fails changes
/// nothing and plans nothing.
pub proof fn law_plan(
    broker: BrokerView,
    topic: Seq<char>,
    key: Option<Seq<u8>>,
    payload: Seq<u8>,
    found: FoundView,
)
    requires
        broker.topics.contains_key(topic),
        0 < broker.topics[topic].partitions.len() <= u32::MAX,
        broker.topics[topic].partitions[broker.topics[topic].select(key) as int].log.segments.len()
            > 0,
        broker.accepts(RequestView::Produce { topic, key, payload }, found),
    ensures
        ({
            let request = RequestView::Produce { topic, key, payload };
            let (after, response) = broker.handle(request, found);
            let id = broker.topics[topic].select(key) as int;
            let log = broker.topics[topic].partitions[id].log;
            let new_log = after.topics[topic].partitions[id].log;
            let files = if log.active().full() {
                found.segment
            } else {
                log.active().files()
            };
            match broker.plan(request, found) {
                Some((dir, write)) => {
                    &&& response is Produced
                    &&& dir == log.dir
                    &&& broker.needs(request) == (if log.active().full() {
                        NeedView::Segment { dir, base_offset: write.base_offset }
                    } else {
                        NeedView::Nothing
                    })
                    &&& new_log.active().base_offset == write.base_offset
                    &&& new_log.active().log == files.log + write.frame
                    &&& new_log.active().index == files.index + write.entry
                    &&& new_log.segments.drop_last() == (if log.active().full() {
                        log.segments
                    } else {
                        log.segments.drop_last()
                    })
                },
                None => response is Error && after.topics[topic].partitions
                    =~= broker.topics[topic].partitions,
            }
        }),
{
    let t = broker.topics[topic];
    law_select_in_range(t, key);
    law_append_writes_what_was_staged(
        t.partitions[t.select(key) as int].log,
        payload,
        found.segment,
    );
}

/// A produce needs the files of a new segment if, and only if, the segment that would
/// take the message has reached its limit: those in the directory of its log that are
/// named after the next offset.
pub proof fn law_needs_segment(
    broker: BrokerView,
    topic: Seq<char>,
    key: Option<Seq<u8>>,
    payload: Seq<u8>,
)
    requires
        broker.topics.contains_key(topic),
        0 < broker.topics[topic].partitions.len() <= u32::MAX,
        key is None ==> broker.topics[topic].partitions.map_values(
            |p: PartitionView| p.high_water_mark as int,
        ).fold_left(0, |sum: int, mark: int| sum + mark) <= u64::MAX,
    ensures
        ({
            let t = broker.topics[topic];
            let id = (match key {
                Some(k) => DefaultHasher::spec_finish(hash_writes(k)) as int,
                None => t.partitions.map_values(
                    |p: PartitionView| p.high_water_mark as int,
                ).fold_left(0, |sum: int, mark: int| sum + mark),
            }) % t.partitions.len() as int;
            let log = t.partitions[id].log;
            let active = log.segments.last();
            broker.needs(RequestView::Produce { topic, key, payload }) == (if active.size
                >= active.max_bytes {
                NeedView::Segment { dir: log.dir, base_offset: active.next_offset }
            } else {
                NeedView::Nothing
            })
        }),
{
    let t = broker.topics[topic];
    law_total_is_sum(t);
    match key {
        Some(k) => law_keyed_route(t, k, payload, no_files()),
        None => law_keyless_route(t, payload, no_files()),
    }
}

/// A request is turned away only by what the disk held or by counters that run over: a
/// create by partitions that cannot be scanned, a produce by a topic without room, and
/// a fetch by a message that cannot be read.
pub proof fn law_accepts(broker: BrokerView, request: RequestView, found: FoundView)
    ensures
        match request {
            RequestView::CreateTopic { name, partition_count } => broker.accepts(request, found)
                <==> broker.topics.contains_key(name) || partition_count == 0 || (
            found.partitions.len() <= 0xFFFF_FFFF && partitions_openable(
                broker.data_dir,
                name,
                found.partitions,
            )),
            RequestView::Produce { topic, key, payload } => broker.accepts(request, found)
                <==> !broker.topics.contains_key(topic) || broker.topics[topic].has_room(
                key,
                payload.len(),
                found.segment,
            ),
            RequestView::Fetch { topic, partition_id, offset, max_messages } => broker.accepts(
                request,
                found,
            ) <==> !broker.topics.contains_key(topic) || broker.topics[topic].fetchable(
                partition_id,
                offset,
                max_messages as nat,
            ),
        },
{
}

/// What the topic says to a request, the broker answers: a place or a list as it is, and
/// an error with its message. A create or a produce that fails changes nothing.
pub proof fn law_answers(broker: BrokerView, request: RequestView, found: FoundView)
    ensures
        ({
            let (after, response) = broker.handle(request, found);
            &&& after.data_dir == broker.data_dir
            &&& match request {
                RequestView::CreateTopic { name, partition_count } => !broker.topics.contains_key(
                    name,
                ) && partition_count > 0 ==> match TopicView::opened(
                    broker.data_dir,
                    name,
                    files_to_open(partition_count, found.partitions),
                ) {
                    Ok(topic) => response == ResponseView::Okay && after.topics
                        == broker.topics.insert(name, topic),
                    Err(e) => response == (ResponseView::Error { message: e.message }) && after
                        == broker,
                },
                RequestView::Produce { topic, key, payload } => broker.topics.contains_key(topic)
                    && 0 < broker.topics[topic].partitions.len() <= u32::MAX ==> {
                    let (t, r) = broker.topics[topic].produce(key, payload, found.segment);
                    &&& after.topics == broker.topics.insert(topic, t)
                    &&& r matches Ok((partition_id, offset)) ==> response
                        == (ResponseView::Produced { partition_id, offset })
                    &&& r matches Err(e) ==> response == (ResponseView::Error {
                        message: e.message,
                    }) && after == broker
                },
                RequestView::Fetch { topic, partition_id, offset, max_messages } =>
                broker.topics.contains_key(topic) ==> {
                    let r = broker.topics[topic].fetch(partition_id, offset, max_messages as nat);
                    &&& after == broker
                    &&& r matches Ok(messages) ==> response == (ResponseView::Fetched { messages })
                    &&& r matches Err(e) ==> response == (ResponseView::Error {
                        message: e.message,
                    })
                },
            }
        }),
{
    if let RequestView::Produce { topic, key, payload } = request {
        if broker.topics.contains_key(topic) && 0 < broker.topics[topic].partitions.len()
            <= u32::MAX {
            law_produce_effect(broker.topics[topic], key, payload, found.segment);
            let after = broker.handle(request, found).0;
            if broker.topics[topic].produce(key, payload, found.segment).1 is Err {
                assert(after.topics =~= broker.topics);
            }
        }
    }
}

/// Stored topics that can all be opened make a broker of just these: one for each name
/// that comes with partitions, from the last that has the name. Otherwise the first that
/// cannot be opened decides: its error is the answer, or, if it cannot be scanned, there
/// is none.
pub proof fn law_open_topics(data_dir: Seq<char>, stored: Seq<StoredTopicView>, k: int)
    requires
        0 <= k <= stored.len(),
        forall|i: int|
            0 <= i < k ==> (#[trigger] stored[i]).partitions.len() <= 0xFFFF_FFFF
                && partitions_openable(data_dir, stored[i].name, stored[i].partitions)
                && TopicView::opened(data_dir, stored[i].name, stored[i].partitions) is Ok,
    ensures
        k == stored.len() ==> {
            &&& topics_openable(data_dir, stored)
            &&& BrokerView::opened(data_dir, stored) matches Ok(broker)
            &&& broker.data_dir == data_dir
            &&& forall|name: Seq<char>| #[trigger]
                broker.topics.contains_key(name) <==> exists|i: int|
                    0 <= i < k && (#[trigger] stored[i]).name == name && stored[i].partitions.len()
                        > 0
            &&& forall|i: int|
                0 <= i < k && (#[trigger] stored[i]).partitions.len() > 0 && (forall|j: int|
                    i < j < k && (#[trigger] stored[j]).partitions.len() > 0 ==> stored[j].name
                        != stored[i].name) ==> TopicView::opened(
                    data_dir,
                    stored[i].name,
                    stored[i].partitions,
                ) == Ok::<TopicView, ErrorView>(broker.topics[stored[i].name])
        },
        k < stored.len() && (stored[k].partitions.len() > 0xFFFF_FFFF || !partitions_openable(
            data_dir,
            stored[k].name,
            stored[k].partitions,
        )) ==> !topics_openable(data_dir, stored),
        k < stored.len() && stored[k].partitions.len() <= 0xFFFF_FFFF && partitions_openable(
            data_dir,
            stored[k].name,
            stored[k].partitions,
        ) ==> (TopicView::opened(data_dir, stored[k].name, stored[k].partitions) matches Err(e)
            ==> topics_openable(data_dir, stored) && BrokerView::opened(data_dir, stored) == Err::<
            BrokerView,
            ErrorView,
        >(e)),
{
    lemma_all_open(data_dir, stored.take(k));
    assert(stored.take(stored.len() as int) =~= stored);
    if k < stored.len() {
        let head = stored.take(k + 1);
        assert(head.drop_last() =~= stored.take(k));
        assert(head.last() == stored[k]);
        lemma_openable_prefix(data_dir, stored, k + 1);
        if TopicView::opened(data_dir, stored[k].name, stored[k].partitions) is Err {
            lemma_open_error_prefix(data_dir, stored, k + 1);
        }
    }
}

proof fn lemma_all_open(data_dir: Seq<char>, stored: Seq<StoredTopicView>)
    requires
        forall|i: int|
            0 <= i < stored.len() ==> (#[trigger] stored[i]).partitions.len() <= 0xFFFF_FFFF
                && partitions_openable(data_dir, stored[i].name, stored[i].partitions)
                && TopicView::opened(data_dir, stored[i].name, stored[i].partitions) is Ok,
    ensures
        topics_openable(data_dir, stored),
        open_topics(data_dir, stored) matches Ok(topics) && {
            &&& forall|name: Seq<char>| #[trigger]
                topics.contains_key(name) <==> exists|i: int|
                    0 <= i < stored.len() && (#[trigger] stored[i]).name == name
                        && stored[i].partitions.len() > 0
            &&& forall|i: int|
                0 <= i < stored.len() && (#[trigger] stored[i]).partitions.len() > 0 && (forall|
                    j: int,
                |
                    i < j < stored.len() && (#[trigger] stored[j]).partitions.len() > 0
                        ==> stored[j].name != stored[i].name) ==> TopicView::opened(
                    data_dir,
                    stored[i].name,
                    stored[i].partitions,
                ) == Ok::<TopicView, ErrorView>(topics[stored[i].name])
        },
    decreases stored.len(),
{
    if stored.len() > 0 {
        let init = stored.drop_last();
        let n = init.len() as int;
        let last = stored[n];
        assert forall|i: int| 0 <= i < n implies (#[trigger] init[i]).partitions.len()
            <= 0xFFFF_FFFF && partitions_openable(data_dir, init[i].name, init[i].partitions)
            && TopicView::opened(data_dir, init[i].name, init[i].partitions) is Ok by {
            assert(init[i] == stored[i]);
        }
        lemma_all_open(data_dir, init);
        let before = open_topics(data_dir, init)->Ok_0;
        let topics = open_topics(data_dir, stored)->Ok_0;
        assert(last == stored.last());
        assert(last.partitions.len() <= 0xFFFF_FFFF);
        assert forall|name: Seq<char>| #[trigger] topics.contains_key(name) <==> exists|i: int|
            0 <= i < stored.len() && (#[trigger] stored[i]).name == name
                && stored[i].partitions.len() > 0 by {
            if before.contains_key(name) {
                let i = choose|i: int|
                    0 <= i < n && (#[trigger] init[i]).name == name && init[i].partitions.len() > 0;
                assert(stored[i] == init[i]);
            }
            if exists|i: int|
                0 <= i < stored.len() && (#[trigger] stored[i]).name == name
                    && stored[i].partitions.len() > 0 {
                let i = choose|i: int|
                    0 <= i < stored.len() && (#[trigger] stored[i]).name == name
                        && stored[i].partitions.len() > 0;
                if i < n {
                    assert(init[i] == stored[i]);
                }
            }
        }
        assert forall|i: int|
            0 <= i < stored.len() && (#[trigger] stored[i]).partitions.len() > 0 && (forall|j: int|
                i < j < stored.len() && (#[trigger] stored[j]).partitions.len() > 0
                    ==> stored[j].name != stored[i].name) implies TopicView::opened(
            data_dir,
            stored[i].name,
            stored[i].partitions,
        ) == Ok::<TopicView, ErrorView>(topics[stored[i].name]) by {
            if i < n {
                assert(init[i] == stored[i]);
                assert forall|j: int|
                    i < j < n && (#[trigger] init[j]).partitions.len() > 0 implies init[j].name
                    != init[i].name by {
                    assert(stored[j] == init[j]);
                }
                if last.partitions.len() > 0 {
                    assert(stored[n].name != stored[i].name);
                }
            }
        }
    }
}

} // verus!
