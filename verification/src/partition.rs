//! A single partition within a topic.

use crate::error::{seen, Error, ErrorView};
use crate::log::segment::{
    law_segment_new, lemma_log_size, storable, FilesView, SegmentFiles, SegmentView,
};
use crate::log::{
    law_log_append, law_log_new, law_log_open_keeps_files, law_log_read, law_log_restart, no_files,
    open_segments, openable, stored_ascending, stored_views, Log, LogView, StoredSegment, StoredView,
    DEFAULT_MAX_SEGMENT_BYTES,
};
use crate::protocol::MessageView;
use crate::text::{all_digits, decimal, decimal_text, is_digit, law_decimal};
use vstd::prelude::*;
use vstd::string::{StrSliceExecFns, StringExecFns};

verus! {

/// A message returned by `Partition::fetch`.
#[derive(Debug, PartialEq)]
pub struct FetchedMessage {
    pub offset: u64,
    pub payload: Vec<u8>,
}

impl View for FetchedMessage {
    type V = MessageView;

    open spec fn view(&self) -> MessageView {
        MessageView { offset: self.offset, payload: self.payload@ }
    }
}

/// Fetched messages by their contents.
pub open spec fn message_views(messages: Seq<FetchedMessage>) -> Seq<MessageView> {
    messages.map_values(|m: FetchedMessage| m@)
}

/// A fetch result by its contents.
pub open spec fn seen_messages(r: Result<Vec<FetchedMessage>, Error>) -> Result<
    Seq<MessageView>,
    ErrorView,
> {
    match r {
        Ok(messages) => Ok(message_views(messages@)),
        Err(e) => Err(e@),
    }
}

/// A single partition within a topic.
///
/// A partition is the unit of ordering and parallelism. Each partition
/// owns exactly one `Log` on disk. Consumers read from a partition sequentially
/// by offset; multiple partitions in a topic can be read in parallel.
///
/// ```text
/// Topic "orders"
///   ├── Partition 0  →  log at data/orders/0/
///   ├── Partition 1  →  log at data/orders/1/
///   └── Partition 2  →  log at data/orders/2/
/// ```
///
/// The **high-water mark (HWM)** is the offset up to which messages are
/// considered "committed" and safe for consumers to read. For now (single
/// broker, no replication) the HWM advances with every append.
pub struct Partition {
    /// The topic this partition belongs to.
    pub topic: String,
    /// Zero-based partition index within the topic.
    pub id: u32,
    /// The underlying append-only log.
    pub(crate) log: Log,
    /// Highest offset that consumers are allowed to read (exclusive upper bound).
    /// Consumers may read offsets in the range [oldest_offset, high_water_mark).
    pub(crate) high_water_mark: u64,
}

/// What a partition holds.
#[verifier::ext_equal]
pub struct PartitionView {
    pub topic: Seq<char>,
    pub id: u32,
    pub log: LogView,
    pub high_water_mark: u64,
}

impl View for Partition {
    type V = PartitionView;

    open(crate) spec fn view(&self) -> PartitionView {
        PartitionView {
            topic: self.topic@,
            id: self.id,
            log: self.log@,
            high_water_mark: self.high_water_mark,
        }
    }
}

/// A path followed by a part, as Unix writes it. A part that starts with a slash
/// stands alone.
pub open spec fn joined(base: Seq<char>, part: Seq<char>) -> Seq<char> {
    if part.len() > 0 && part[0] == '/' {
        part
    } else if base.len() == 0 || base.last() == '/' {
        base + part
    } else {
        base.push('/') + part
    }
}

/// The directory of a partition's log: `{base_dir}/{topic}/{id}`.
pub open spec fn dir_of(base_dir: Seq<char>, topic: Seq<char>, id: u32) -> Seq<char> {
    joined(joined(base_dir, topic), decimal(id as nat))
}

/// The directory of a topic, which holds those of its partitions.
pub fn topic_dir(base_dir: &str, topic: &str) -> (dir: String)
    ensures
        dir@ == joined(base_dir@, topic@),
{
    join_path(base_dir, topic)
}

/// The directory of a partition within that of its topic.
pub fn partition_within(topic_dir: &str, id: u32) -> (dir: String)
    ensures
        dir@ == joined(topic_dir@, decimal(id as nat)),
{
    join_path(topic_dir, decimal_text(id as u64).as_str())
}

/// A path followed by a part.
fn join_path(base: &str, part: &str) -> (s: String)
    ensures
        s@ == joined(base@, part@),
{
    if part.unicode_len() > 0 && part.get_char(0) == '/' {
        return part.to_owned();
    }
    let mut s: String = base.to_owned();
    let n: usize = base.unicode_len();
    if n > 0 && base.get_char(n - 1) != '/' {
        s.append("/");
        proof {
            reveal_strlit("/");
            assert(s@ =~= base@.push('/'));
        }
    }
    s.append(part);
    s
}

/// Construct the directory path for a partition's log.
pub fn partition_dir(base_dir: &str, topic: &str, id: u32) -> (dir: String)
    ensures
        dir@ == dir_of(base_dir@, topic@, id),
{
    partition_within(topic_dir(base_dir, topic).as_str(), id)
}

impl PartitionView {
    /// The partition that stored segments make.
    pub open spec fn opened(
        base_dir: Seq<char>,
        topic: Seq<char>,
        id: u32,
        stored: Seq<StoredView>,
    ) -> Result<PartitionView, ErrorView> {
        match open_segments(stored, DEFAULT_MAX_SEGMENT_BYTES) {
            Err(e) => Err(e),
            Ok(segments) => Ok(
                PartitionView {
                    topic,
                    id,
                    log: LogView {
                        dir: dir_of(base_dir, topic, id),
                        segments,
                        max_segment_bytes: DEFAULT_MAX_SEGMENT_BYTES,
                    },
                    high_water_mark: segments.last().next_offset,
                },
            ),
        }
    }

    /// Append a message: the partition afterwards, and the message's offset.
    pub open spec fn append(self, payload: Seq<u8>, spare: FilesView) -> (
        PartitionView,
        Result<u64, ErrorView>,
    ) {
        match self.log.append(payload, spare) {
            (log, Err(e)) => (PartitionView { log, ..self }, Err(e)),
            (log, Ok(offset)) => (
                PartitionView { log, high_water_mark: (offset + 1) as u64, ..self },
                Ok(offset),
            ),
        }
    }

    /// The messages from `offset` on, below the high-water mark, at most `max` of
    /// them, up to the first that is not there.
    pub open spec fn fetch(self, offset: u64, max: nat) -> Result<Seq<MessageView>, ErrorView>
        decreases max,
    {
        if max == 0 || offset >= self.high_water_mark {
            Ok(Seq::empty())
        } else {
            match self.log.read(offset) {
                Err(e) => Err(e),
                Ok(None) => Ok(Seq::empty()),
                Ok(Some(payload)) => match self.fetch((offset + 1) as u64, (max - 1) as nat) {
                    Err(e) => Err(e),
                    Ok(rest) => Ok(seq![MessageView { offset, payload }] + rest),
                },
            }
        }
    }

    /// Every read of such a fetch meets a frame that covers its own offset field.
    pub open spec fn fetchable(self, offset: u64, max: nat) -> bool
        decreases max,
    {
        max == 0 || offset >= self.high_water_mark || {
            &&& self.log.readable(offset)
            &&& self.log.read(offset) matches Ok(Some(_)) ==> self.fetchable(
                (offset + 1) as u64,
                (max - 1) as nat,
            )
        }
    }
}

impl Partition {
    pub open(crate) spec fn wf(&self) -> bool {
        self.log.wf()
    }

    /// Open a partition from the segments stored in its directory.
    ///
    /// `base_dir` is the root data directory. The partition's log is
    /// stored at `{base_dir}/{topic}/{id}/`.
    pub fn open(base_dir: &str, topic: &str, id: u32, stored: Vec<StoredSegment>) -> (r: Result<
        Partition,
        Error,
    >)
        requires
            stored@.len() > 0,
            stored_ascending(stored_views(stored@)),
            openable(stored_views(stored@), DEFAULT_MAX_SEGMENT_BYTES),
        ensures
            seen(r) == PartitionView::opened(base_dir@, topic@, id, stored_views(stored@)),
            r matches Ok(partition) ==> partition.wf(),
    {
        let dir: String = partition_dir(base_dir, topic, id);
        match Log::open(dir.as_str(), stored) {
            Err(e) => Err(e),
            Ok(log) => {
                let high_water_mark: u64 = log.next_offset();
                Ok(Partition { topic: topic.to_owned(), id, log, high_water_mark })
            },
        }
    }

    /// Append a message to this partition.
    ///
    /// Advances the high-water mark after a successful write, making the
    /// message immediately visible to consumers.
    ///
    /// Returns the offset assigned to the message.
    pub fn append(&mut self, payload: &[u8], spare: SegmentFiles) -> (r: Result<u64, Error>)
        requires
            old(self).wf(),
            old(self)@.log.has_room(payload@.len(), spare@),
        ensures
            final(self).wf(),
            (final(self)@, seen(r)) == old(self)@.append(payload@, spare@),
    {
        match self.log.append(payload, spare) {
            Err(e) => Err(e),
            Ok(offset) => {
                self.high_water_mark = offset + 1;
                Ok(offset)
            },
        }
    }

    /// Fetch up to `max_messages` messages starting from `offset`.
    ///
    /// Only returns messages with offset < high_water_mark (committed messages).
    /// Returns an empty vec if `offset` is at or beyond the high-water mark.
    pub fn fetch(&self, offset: u64, max_messages: usize) -> (r: Result<
        Vec<FetchedMessage>,
        Error,
    >)
        requires
            self.wf(),
            self@.fetchable(offset, max_messages as nat),
        ensures
            seen_messages(r) == self@.fetch(offset, max_messages as nat),
    {
        let mut results: Vec<FetchedMessage> = Vec::new();
        let mut current: u64 = offset;
        let ghost whole = self@.fetch(offset, max_messages as nat);
        assert(message_views(results@) =~= Seq::empty());
        assert(prefixed(Seq::empty(), whole) == whole) by {
            if let Ok(all) = whole {
                assert(Seq::<MessageView>::empty() + all =~= all);
            }
        }
        while results.len() < max_messages && current < self.high_water_mark
            invariant_except_break
                self.wf(),
                results@.len() <= max_messages,
                self@.fetchable(current, (max_messages - results@.len()) as nat),
                whole == prefixed(
                    message_views(results@),
                    self@.fetch(current, (max_messages - results@.len()) as nat),
                ),
                whole == self@.fetch(offset, max_messages as nat),
            ensures
                whole == Ok::<Seq<MessageView>, ErrorView>(message_views(results@)),
                whole == self@.fetch(offset, max_messages as nat),
            decreases max_messages - results@.len(),
        {
            let ghost before = message_views(results@);
            let ghost left = (max_messages - results@.len()) as nat;
            match self.log.read(current) {
                Err(e) => return Err(e),
                Ok(None) => {
                    assert(before + Seq::empty() =~= before);
                    break;
                },
                Ok(Some(payload)) => {
                    results.push(FetchedMessage { offset: current, payload });
                    proof {
                        let m = MessageView { offset: current, payload: payload@ };
                        assert(message_views(results@) =~= before.push(m));
                        if let Ok(rest) = self@.fetch((current + 1) as u64, (left - 1) as nat) {
                            assert(before + (seq![m] + rest) =~= before.push(m) + rest);
                        }
                    }
                    current = current + 1;
                },
            }
        }
        Ok(results)
    }

    /// Whether such a fetch only meets frames that cover their own offset field.
    pub fn can_fetch(&self, offset: u64, max_messages: usize) -> (b: bool)
        requires
            self.wf(),
        ensures
            b == self@.fetchable(offset, max_messages as nat),
    {
        let mut left: usize = max_messages;
        let mut current: u64 = offset;
        while left > 0 && current < self.high_water_mark
            invariant_except_break
                self.wf(),
                self@.fetchable(offset, max_messages as nat) == self@.fetchable(
                    current,
                    left as nat,
                ),
            ensures
                self@.fetchable(offset, max_messages as nat),
            decreases left,
        {
            if !self.log.can_read(current) {
                return false;
            }
            match self.log.read(current) {
                Ok(Some(_)) => {},
                _ => break,
            }
            current = current + 1;
            left = left - 1;
        }
        true
    }

    /// The segments of this partition as its directory holds them.
    pub fn stored(&self) -> (stored: Vec<StoredSegment>)
        ensures
            stored_views(stored@) == self@.log.stored(),
    {
        self.log.stored()
    }

    /// The offset of the oldest available message.
    pub fn oldest_offset(&self) -> (offset: u64)
        requires
            self.wf(),
        ensures
            offset == self@.log.oldest(),
    {
        self.log.oldest_offset()
    }

    /// The high-water mark: the next offset to be written.
    /// Consumers may read up to (but not including) this offset.
    pub fn high_water_mark(&self) -> (offset: u64)
        ensures
            offset == self@.high_water_mark,
    {
        self.high_water_mark
    }
}

/// Messages already fetched, with the outcome for the rest.
pub open spec fn prefixed(
    before: Seq<MessageView>,
    rest: Result<Seq<MessageView>, ErrorView>,
) -> Result<Seq<MessageView>, ErrorView> {
    match rest {
        Ok(rest) => Ok(before + rest),
        Err(e) => Err(e),
    }
}

// ── Laws ─────────────────────────────────────────────────────────────────────

impl PartitionView {
    /// The partition holds exactly `messages`, all of them committed.
    pub open spec fn holds(self, messages: Seq<Seq<u8>>) -> bool {
        &&& self.log.holds(messages)
        &&& self.high_water_mark == self.log.oldest() + messages.len()
    }

    /// The partition has room for `payload` in a fresh or the active segment.
    pub open spec fn can_take(self, payload: Seq<u8>) -> bool {
        &&& storable(payload)
        &&& self.log.max_segment_bytes > 0
        &&& self.log.has_room(payload.len(), no_files())
        &&& !self.log.active().full() ==> self.log.active().next_offset
            - self.log.active().base_offset < 0x1_0000_0000
    }
}

/// With the default segment size a partition has room for any payload that a
/// frame can carry, as long as there is an offset left to give.
pub proof fn law_partition_has_room(
    partition: PartitionView,
    messages: Seq<Seq<u8>>,
    payload: Seq<u8>,
)
    requires
        partition.holds(messages),
        partition.log.max_segment_bytes == DEFAULT_MAX_SEGMENT_BYTES,
        storable(payload),
        partition.high_water_mark < u64::MAX,
    ensures
        partition.can_take(payload),
{
    let log = partition.log;
    let active = log.active();
    assert(log.stretch_held(log.segments.len() - 1, messages));
    let first = active.base_offset - log.oldest();
    let end = active.next_offset - log.oldest();
    if active.full() {
        law_segment_new(active.next_offset, log.max_segment_bytes);
    } else {
        lemma_log_size(active.base_offset, messages.subrange(first, end));
    }
}

/// The messages with offsets from `offset` up to, not including, `end`, out of
/// `messages` numbered from `oldest`.
pub open spec fn numbered(
    messages: Seq<Seq<u8>>,
    oldest: u64,
    offset: u64,
    end: int,
) -> Seq<MessageView> {
    Seq::new(
        (end - offset) as nat,
        |k: int|
            MessageView { offset: (offset + k) as u64, payload: messages[offset - oldest + k] },
    )
}

/// The offset at which a fetch of `max` messages from `offset` stops.
pub open spec fn fetch_end(high_water_mark: u64, offset: u64, max: nat) -> int {
    if offset + max <= high_water_mark {
        offset + max
    } else {
        high_water_mark as int
    }
}

/// Whatever a partition holds, a fetch returns consecutive offsets from the one
/// asked for, no more than asked for, and none at or past the high-water mark.
pub proof fn law_fetch_order(partition: PartitionView, offset: u64, max: nat)
    ensures
        partition.fetch(offset, max) matches Ok(messages) ==> {
            &&& messages.len() <= max
            &&& forall|k: int|
                0 <= k < messages.len() ==> (#[trigger] messages[k]).offset == offset + k
                    && messages[k].offset < partition.high_water_mark
        },
    decreases max,
{
    if max > 0 && offset < partition.high_water_mark {
        law_fetch_order(partition, (offset + 1) as u64, (max - 1) as nat);
        if let Ok(messages) = partition.fetch(offset, max) {
            if let Ok(rest) = partition.fetch((offset + 1) as u64, (max - 1) as nat) {
                assert forall|k: int| 0 <= k < messages.len() implies (
                #[trigger] messages[k]).offset == offset + k && messages[k].offset
                    < partition.high_water_mark by {
                    if k > 0 {
                        assert(messages[k] == rest[k - 1]);
                    }
                }
            }
        }
    }
}

/// A fetch returns the committed messages from its offset on, each with its
/// payload, up to the number asked for; before the oldest message and past the
/// high-water mark it returns none.
pub proof fn law_partition_fetch(
    partition: PartitionView,
    messages: Seq<Seq<u8>>,
    offset: u64,
    max: nat,
)
    requires
        partition.holds(messages),
    ensures
        partition.fetchable(offset, max),
        partition.fetch(offset, max) == Ok::<Seq<MessageView>, ErrorView>(
            if partition.log.oldest() <= offset < partition.high_water_mark {
                numbered(
                    messages,
                    partition.log.oldest(),
                    offset,
                    fetch_end(partition.high_water_mark, offset, max),
                )
            } else {
                Seq::empty()
            },
        ),
    decreases max,
{
    let oldest = partition.log.oldest();
    let hwm = partition.high_water_mark;
    law_log_read(partition.log, messages, offset);
    if max > 0 && oldest <= offset < hwm {
        law_partition_fetch(partition, messages, (offset + 1) as u64, (max - 1) as nat);
        let m = MessageView { offset, payload: messages[offset - oldest] };
        let end = fetch_end(hwm, offset, max);
        let whole = numbered(messages, oldest, offset, end);
        if offset + 1 < hwm {
            assert(fetch_end(hwm, (offset + 1) as u64, (max - 1) as nat) == end);
            let rest = numbered(messages, oldest, (offset + 1) as u64, end);
            assert(seq![m] + rest =~= whole);
        } else {
            assert(seq![m] + Seq::<MessageView>::empty() =~= whole);
        }
    } else if max == 0 && oldest <= offset < hwm {
        assert(numbered(messages, oldest, offset, fetch_end(hwm, offset, max)) =~= Seq::empty());
    }
}

/// An append commits the message at the old high-water mark, after all earlier
/// ones, and moves the mark past it.
pub proof fn law_partition_append(
    partition: PartitionView,
    messages: Seq<Seq<u8>>,
    payload: Seq<u8>,
)
    requires
        partition.holds(messages),
        partition.can_take(payload),
    ensures
        ({
            let (after, r) = partition.append(payload, no_files());
            &&& r == Ok::<u64, ErrorView>(partition.high_water_mark)
            &&& after.holds(messages.push(payload))
            &&& after.high_water_mark == partition.high_water_mark + 1
            &&& after.log.oldest() == partition.log.oldest()
        }),
{
    law_log_append(partition.log, messages, payload);
}

/// A message is there to be fetched, alone, at the offset that its append
/// returned.
pub proof fn law_fetch_after_append(
    partition: PartitionView,
    messages: Seq<Seq<u8>>,
    payload: Seq<u8>,
)
    requires
        partition.holds(messages),
        partition.can_take(payload),
    ensures
        ({
            let (after, r) = partition.append(payload, no_files());
            &&& r matches Ok(offset) && after.fetch(offset, 1) == Ok::<
                Seq<MessageView>,
                ErrorView,
            >(seq![MessageView { offset, payload }])
        }),
{
    law_partition_append(partition, messages, payload);
    let (after, r) = partition.append(payload, no_files());
    let offset = partition.high_water_mark;
    law_partition_fetch(after, messages.push(payload), offset, 1);
    assert(numbered(
        messages.push(payload),
        after.log.oldest(),
        offset,
        fetch_end(after.high_water_mark, offset, 1),
    ) =~= seq![MessageView { offset, payload }]);
}

/// Paging: a page, and the next page from one past its last offset, make up the
/// longer page from the same start.
pub proof fn law_paging(
    partition: PartitionView,
    messages: Seq<Seq<u8>>,
    offset: u64,
    first: nat,
    second: nat,
)
    requires
        partition.holds(messages),
    ensures
        ({
            let page = partition.fetch(offset, first)->Ok_0;
            &&& partition.fetch(offset, first) is Ok
            &&& page.len() > 0 ==> {
                &&& page.last().offset < u64::MAX
                &&& partition.fetch((page.last().offset + 1) as u64, second) matches Ok(more)
                    && partition.fetch(offset, first + second) == Ok::<
                    Seq<MessageView>,
                    ErrorView,
                >(page + more)
            }
            &&& first > 0 && page.len() == 0 ==> partition.fetch(offset, first + second) == Ok::<
                Seq<MessageView>,
                ErrorView,
            >(Seq::empty())
        }),
{
    law_partition_fetch(partition, messages, offset, first);
    law_partition_fetch(partition, messages, offset, first + second);
    let oldest = partition.log.oldest();
    let hwm = partition.high_water_mark;
    let page = partition.fetch(offset, first)->Ok_0;
    if page.len() > 0 {
        let end = fetch_end(hwm, offset, first);
        assert(page.len() == end - offset);
        assert(page.last().offset == end - 1);
        law_partition_fetch(partition, messages, end as u64, second);
        let more = partition.fetch(end as u64, second)->Ok_0;
        assert(page + more =~= partition.fetch(offset, first + second)->Ok_0);
    }
}

/// Reopening the files of a partition gives the partition that wrote them, with
/// its high-water mark.
pub proof fn law_partition_restart(
    base_dir: Seq<char>,
    partition: PartitionView,
    messages: Seq<Seq<u8>>,
)
    requires
        partition.holds(messages),
        partition.log.max_segment_bytes == DEFAULT_MAX_SEGMENT_BYTES,
        partition.log.dir == dir_of(base_dir, partition.topic, partition.id),
    ensures
        stored_ascending(partition.log.stored()),
        openable(partition.log.stored(), DEFAULT_MAX_SEGMENT_BYTES),
        PartitionView::opened(
            base_dir,
            partition.topic,
            partition.id,
            partition.log.stored(),
        ) == Ok::<PartitionView, ErrorView>(partition),
{
    law_log_restart(partition.log, messages);
}

/// Opening a partition leaves its files as they are.
pub proof fn law_partition_open_keeps_files(
    base_dir: Seq<char>,
    topic: Seq<char>,
    id: u32,
    stored: Seq<StoredView>,
)
    ensures
        PartitionView::opened(base_dir, topic, id, stored) matches Ok(partition)
            ==> partition.log.stored() == stored,
{
    law_log_open_keeps_files(dir_of(base_dir, topic, id), stored, DEFAULT_MAX_SEGMENT_BYTES);
}

/// What an empty partition directory holds.
pub open spec fn new_partition_files() -> Seq<StoredView> {
    seq![StoredView { base_offset: 0, files: no_files() }]
}

/// A partition in an empty directory starts at offset 0 and holds nothing.
pub proof fn law_partition_new(base_dir: Seq<char>, topic: Seq<char>, id: u32)
    ensures
        stored_ascending(new_partition_files()),
        openable(new_partition_files(), DEFAULT_MAX_SEGMENT_BYTES),
        PartitionView::opened(base_dir, topic, id, new_partition_files()) matches Ok(partition)
            && partition.holds(Seq::empty()) && partition.high_water_mark == 0
            && partition.log.oldest() == 0 && partition.log.max_segment_bytes
            == DEFAULT_MAX_SEGMENT_BYTES && partition.topic == topic && partition.id == id
            && partition.log.dir == dir_of(base_dir, topic, id),
{
    law_log_new(dir_of(base_dir, topic, id), DEFAULT_MAX_SEGMENT_BYTES);
}

/// A topic name that a path can end in and go on after.
pub open spec fn plain(topic: Seq<char>) -> bool {
    topic.len() > 0 ==> topic[0] != '/' && topic.last() != '/'
}

/// A path with what separates it from the part that follows.
spec fn opened_path(path: Seq<char>) -> Seq<char> {
    if path.len() == 0 || path.last() == '/' {
        path
    } else {
        path.push('/')
    }
}

/// Under one path, two partitions have different directories.
proof fn lemma_ids_distinct(path: Seq<char>, id: u32, n: u32)
    requires
        joined(path, decimal(id as nat)) == joined(path, decimal(n as nat)),
    ensures
        id == n,
{
    let a = decimal(id as nat);
    let b = decimal(n as nat);
    law_decimal(id as nat);
    law_decimal(n as nat);
    assert(is_digit(a[0]) && is_digit(b[0]));
    let before = opened_path(path);
    assert(joined(path, a) == before + a);
    assert(joined(path, b) == before + b);
    assert((before + a).skip(before.len() as int) =~= a);
    assert((before + b).skip(before.len() as int) =~= b);
}

/// The directory of a partition, taken apart at its last slash.
proof fn lemma_dir_parts(base_dir: Seq<char>, topic: Seq<char>, id: u32) -> (head: Seq<char>)
    requires
        plain(topic),
    ensures
        dir_of(base_dir, topic, id) == head + decimal(id as nat),
        head == (if topic.len() == 0 {
            opened_path(base_dir)
        } else {
            (opened_path(base_dir) + topic).push('/')
        }),
        head.len() == 0 || head.last() == '/',
{
    let start = opened_path(base_dir);
    law_decimal(id as nat);
    assert(is_digit(decimal(id as nat)[0]));
    assert(joined(base_dir, topic) == start + topic);
    if topic.len() == 0 {
        assert(start + topic =~= start);
        start
    } else {
        assert((start + topic).last() == topic.last());
        (start + topic).push('/')
    }
}

/// Text that ends in a slash, followed by digits, can be taken apart in one way only.
proof fn lemma_last_slash(p: Seq<char>, a: Seq<char>, q: Seq<char>, b: Seq<char>)
    requires
        p + a == q + b,
        p.len() == 0 || p.last() == '/',
        q.len() == 0 || q.last() == '/',
        all_digits(a),
        all_digits(b),
    ensures
        p == q,
{
    let x = p + a;
    let y = q + b;
    assert(x.len() == y.len());
    if p.len() < q.len() {
        assert(y[q.len() - 1] == '/');
        assert(x[q.len() - 1] == a[q.len() - 1 - p.len()]);
        assert(is_digit(a[q.len() - 1 - p.len()]));
    } else if q.len() < p.len() {
        assert(x[p.len() - 1] == '/');
        assert(y[p.len() - 1] == b[p.len() - 1 - q.len()]);
        assert(is_digit(b[p.len() - 1 - q.len()]));
    } else {
        assert(x.take(p.len() as int) =~= p);
        assert(y.take(p.len() as int) =~= q);
    }
}

/// Every partition has a directory of its own: two that differ in their number, or
/// in the topic, if its name neither starts nor ends with a slash, are kept apart.
pub proof fn law_dirs_distinct(
    base_dir: Seq<char>,
    topic: Seq<char>,
    id: u32,
    other: Seq<char>,
    n: u32,
)
    requires
        topic != other || id != n,
        topic == other || (plain(topic) && plain(other)),
    ensures
        dir_of(base_dir, topic, id) != dir_of(base_dir, other, n),
{
    if dir_of(base_dir, topic, id) == dir_of(base_dir, other, n) {
        if topic == other {
            lemma_ids_distinct(joined(base_dir, topic), id, n);
        } else {
            let p = lemma_dir_parts(base_dir, topic, id);
            let q = lemma_dir_parts(base_dir, other, n);
            law_decimal(id as nat);
            law_decimal(n as nat);
            lemma_last_slash(p, decimal(id as nat), q, decimal(n as nat));
            let k = opened_path(base_dir).len() as int;
            assert(topic.len() == other.len());
            assert(topic =~= p.subrange(k, k + topic.len()));
            assert(other =~= q.subrange(k, k + other.len()));
        }
    }
}

/// How many messages a fetch returns, and which: as many as were asked for and are
/// there, one after the other, each with its own offset and payload.
pub proof fn law_fetch_messages(
    partition: PartitionView,
    messages: Seq<Seq<u8>>,
    offset: u64,
    max: nat,
)
    requires
        partition.holds(messages),
    ensures
        partition.fetch(offset, max) matches Ok(fetched) && {
            let oldest = partition.log.segments[0].base_offset;
            let left = oldest + messages.len() - offset;
            &&& oldest <= offset && max <= left ==> fetched.len() == max
            &&& oldest <= offset && 0 <= left < max ==> fetched.len() == left
            &&& offset < oldest || left <= 0 ==> fetched.len() == 0
            &&& forall|k: int|
                0 <= k < fetched.len() ==> (#[trigger] fetched[k]).offset == offset + k
                    && fetched[k].payload == messages[offset - oldest + k]
        },
{
    law_partition_fetch(partition, messages, offset, max);
}

/// A fetch from a partition in any state, step by step: a message that is there stands
/// in front of those that a fetch from the next offset returns; none is asked for past
/// the high-water mark; a missing message ends the list, and an error ends the fetch.
pub proof fn law_fetch_step(partition: PartitionView, offset: u64, max: nat)
    ensures
        partition.fetch(offset, 0) == Ok::<Seq<MessageView>, ErrorView>(Seq::empty()),
        offset >= partition.high_water_mark ==> partition.fetch(offset, max) == Ok::<
            Seq<MessageView>,
            ErrorView,
        >(Seq::empty()),
        max > 0 && offset < partition.high_water_mark ==> match partition.log.read(offset) {
            Err(e) => partition.fetch(offset, max) == Err::<Seq<MessageView>, ErrorView>(e),
            Ok(None) => partition.fetch(offset, max) == Ok::<Seq<MessageView>, ErrorView>(
                Seq::empty(),
            ),
            Ok(Some(payload)) => match partition.fetch((offset + 1) as u64, (max - 1) as nat) {
                Err(e) => partition.fetch(offset, max) == Err::<Seq<MessageView>, ErrorView>(e),
                Ok(rest) => partition.fetch(offset, max) matches Ok(all) && all.len() == rest.len()
                    + 1 && all[0].offset == offset && all[0].payload == payload && all.skip(1)
                    == rest,
            },
        },
{
    if max > 0 && offset < partition.high_water_mark {
        if let Ok(Some(payload)) = partition.log.read(offset) {
            if let Ok(rest) = partition.fetch((offset + 1) as u64, (max - 1) as nat) {
                assert((seq![MessageView { offset, payload }] + rest).skip(1) =~= rest);
            }
        }
    }
}

/// A fetch can be made if every message that it reads can be read.
pub proof fn law_fetchable(partition: PartitionView, offset: u64, max: nat)
    requires
        forall|o: u64|
            offset <= o < partition.high_water_mark && o < offset + max
                ==> #[trigger] partition.log.readable(o),
    ensures
        partition.fetchable(offset, max),
    decreases max,
{
    if max > 0 && offset < partition.high_water_mark {
        assert(partition.log.readable(offset));
        law_fetchable(partition, (offset + 1) as u64, (max - 1) as nat);
    }
}

/// An append that succeeds moves the high-water mark to one past the offset it gave,
/// and one that fails leaves the partition as it was.
pub proof fn law_high_water_mark(partition: PartitionView, payload: Seq<u8>, spare: FilesView)
    ensures
        ({
            let (after, r) = partition.append(payload, spare);
            &&& after.topic == partition.topic && after.id == partition.id
            &&& r == partition.log.append(payload, spare).1
            &&& after.log == partition.log.append(payload, spare).0
            &&& r matches Ok(offset) ==> after.high_water_mark == (offset + 1) as u64
            &&& r is Err ==> after == partition
        }),
{
}

/// A partition opened from files commits all that its log holds.
pub proof fn law_partition_opened(
    base_dir: Seq<char>,
    topic: Seq<char>,
    id: u32,
    stored: Seq<StoredView>,
)
    requires
        stored.len() > 0,
    ensures
        PartitionView::opened(base_dir, topic, id, stored) is Ok <==> open_segments(
            stored,
            0x4000_0000,
        ) is Ok,
        PartitionView::opened(base_dir, topic, id, stored) matches Ok(partition) ==> {
            &&& open_segments(stored, 0x4000_0000) == Ok::<Seq<SegmentView>, ErrorView>(
                partition.log.segments,
            )
            &&& partition.log.max_segment_bytes == 0x4000_0000
            &&& partition.high_water_mark == partition.log.segments.last().next_offset
            &&& partition.topic == topic
            &&& partition.id == id
        },
        PartitionView::opened(base_dir, topic, id, stored) matches Err(e) ==> open_segments(
            stored,
            0x4000_0000,
        ) == Err::<Seq<SegmentView>, ErrorView>(e),
{
}

/// The directory of a partition is the base directory, the topic and the number, with
/// a slash between them where there is none. A topic that starts with a slash is a path
/// of its own.
pub proof fn law_dir_text(base_dir: Seq<char>, topic: Seq<char>, id: u32)
    ensures
        base_dir.len() > 0 && base_dir.last() != '/' && topic.len() > 0 && topic[0] != '/'
            && topic.last() != '/' ==> dir_of(base_dir, topic, id) == base_dir + "/"@ + topic
            + "/"@ + decimal(id as nat),
        (base_dir.len() == 0 || base_dir.last() == '/') && topic.len() > 0 && topic[0] != '/'
            && topic.last() != '/' ==> dir_of(base_dir, topic, id) == base_dir + topic + "/"@
            + decimal(id as nat),
        topic.len() > 0 && topic[0] == '/' && topic.last() != '/' ==> dir_of(base_dir, topic, id)
            == topic + "/"@ + decimal(id as nat),
        topic.len() > 0 && topic[0] == '/' && topic.last() == '/' ==> dir_of(base_dir, topic, id)
            == topic + decimal(id as nat),
        base_dir.len() > 0 && base_dir.last() != '/' && topic.len() > 0 && topic[0] != '/'
            && topic.last() == '/' ==> dir_of(base_dir, topic, id) == base_dir + "/"@ + topic
            + decimal(id as nat),
        base_dir.len() > 0 && base_dir.last() != '/' && topic.len() == 0 ==> dir_of(
            base_dir,
            topic,
            id,
        ) == base_dir + "/"@ + decimal(id as nat),
        (base_dir.len() == 0 || base_dir.last() == '/') && topic.len() == 0 ==> dir_of(
            base_dir,
            topic,
            id,
        ) == base_dir + decimal(id as nat),
{
    reveal_strlit("/");
    law_decimal(id as nat);
    let d = decimal(id as nat);
    assert(is_digit(d[0]));
    let start = opened_path(base_dir);
    if base_dir.len() > 0 && base_dir.last() != '/' {
        assert(start =~= base_dir + "/"@);
    }
    if topic.len() == 0 {
        assert(start + topic =~= start);
        assert(dir_of(base_dir, topic, id) =~= start + d);
    } else if topic[0] == '/' {
        if topic.last() != '/' {
            assert(topic.push('/') =~= topic + "/"@);
        }
    } else {
        assert((start + topic).last() == topic.last());
        assert(joined(base_dir, topic) == start + topic);
        if topic.last() != '/' {
            assert((start + topic).push('/') =~= start + topic + "/"@);
        }
    }
}

} // verus!
