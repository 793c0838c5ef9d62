//! A named stream of messages, split across partitions.

use crate::error::{seen, Error, ErrorKind, ErrorView};
use crate::log::segment::{storable, FilesView, SegmentFiles};
use crate::log::{
    no_files, openable, opening, stored_ascending, stored_views, Log, Opening, StoredSegment,
    StoredView, Write, WriteView, DEFAULT_MAX_SEGMENT_BYTES,
};
use crate::partition::{
    dir_of, fetch_end, law_fetch_after_append, law_high_water_mark, law_partition_append,
    law_partition_fetch, law_partition_has_room, law_partition_new, law_partition_open_keeps_files,
    law_partition_restart, new_partition_files, numbered, seen_messages, FetchedMessage, Partition,
    PartitionView,
};
use crate::protocol::MessageView;
use crate::text::{decimal, decimal_text};
use std::collections::hash_map::DefaultHasher;
use std::hash::{Hash, Hasher};
use vstd::arithmetic::div_mod::{
    lemma_fundamental_div_mod, lemma_fundamental_div_mod_converse,
};
use vstd::prelude::*;
use vstd::std_specs::hash::DefaultHasherAdditionalSpecFns;
use vstd::string::StringExecFns;

verus! {

/// A named stream of messages, split across one or more partitions.
///
/// The topic is the primary interface for producers and consumers:
///
/// - **Producers** call `produce(key, payload)`. The key is hashed to pick a
///   partition, so messages with the same key always land on the same partition
///   — guaranteeing per-key ordering.
///
/// - **Consumers** call `fetch(partition_id, offset, max)` to pull messages
///   from a specific partition starting at a known offset.
///
/// ```text
/// topic.produce(Some("user-42"), b"clicked")
///   → hash("user-42") % 3 = 1
///   → partition[1].append(b"clicked")
/// ```
pub struct Topic {
    /// The topic name (also the directory name under the data directory).
    pub name: String,
    /// All partitions for this topic, indexed by partition id.
    pub(crate) partitions: Vec<Partition>,
}

/// What a topic holds.
#[verifier::ext_equal]
pub struct TopicView {
    pub name: Seq<char>,
    pub partitions: Seq<PartitionView>,
}

/// Partitions by their contents.
pub open spec fn partition_views(partitions: Seq<Partition>) -> Seq<PartitionView> {
    partitions.map_values(|p: Partition| p@)
}

impl View for Topic {
    type V = TopicView;

    open(crate) spec fn view(&self) -> TopicView {
        TopicView { name: self.name@, partitions: partition_views(self.partitions@) }
    }
}

/// What std's `Hash` for byte slices writes into a hasher, on the machine that the
/// library is built for.
pub uninterp spec fn hash_writes(key: Seq<u8>) -> Seq<Seq<u8>>;

/// `Hash::hash` of a byte slice: it adds to the hasher's input, and what it adds
/// depends on nothing but the bytes. (Between machines it may differ: std does not
/// promise that the bytes it feeds are portable.)
#[verifier::external_body]
fn hash_into(key: &[u8], state: &mut DefaultHasher)
    ensures
        final(state)@ == old(state)@ + hash_writes(key@),
{
    key.hash(state)
}

/// The hash of a routing key.
pub open spec fn key_hash(key: Seq<u8>) -> u64 {
    DefaultHasher::spec_finish(hash_writes(key))
}

/// Messages ever written to these partitions, as their high-water marks count them.
pub open spec fn total_of(partitions: Seq<PartitionView>) -> nat
    decreases partitions.len(),
{
    if partitions.len() == 0 {
        0
    } else {
        total_of(partitions.drop_last()) + partitions.last().high_water_mark as nat
    }
}

/// The error for a partition that a topic of `n` does not have.
pub open spec fn no_such_partition(id: u32, n: nat) -> ErrorView {
    ErrorView {
        kind: ErrorKind::InvalidInput,
        message: "partition "@ + decimal(id as nat) + " does not exist (topic has "@ + decimal(n)
            + ")"@,
    }
}

/// Stored partitions by their contents.
pub open spec fn topic_files(stored: Seq<Vec<StoredSegment>>) -> Seq<Seq<StoredView>> {
    stored.map_values(|p: Vec<StoredSegment>| stored_views(p@))
}

/// What a partition's directory must offer before it can be opened: at least one
/// segment, in order.
pub open spec fn shaped(stored: Seq<StoredView>) -> bool {
    stored.len() > 0 && stored_ascending(stored)
}

/// The files of `n` partitions that do not exist yet.
pub open spec fn new_topic_files(n: nat) -> Seq<Seq<StoredView>> {
    Seq::new(n, |i: int| new_partition_files())
}

/// The partitions to open: those that a topic has on disk, or new ones, as many as
/// are asked for, if it has none.
pub open spec fn files_to_open(
    partition_count: u32,
    stored: Seq<Seq<StoredView>>,
) -> Seq<Seq<StoredView>> {
    if stored.len() == 0 {
        new_topic_files(partition_count as nat)
    } else {
        stored
    }
}

/// Open partitions one after the other, up to the first that cannot be opened.
pub open spec fn open_partitions(
    base_dir: Seq<char>,
    name: Seq<char>,
    stored: Seq<Seq<StoredView>>,
) -> Result<Seq<PartitionView>, ErrorView>
    decreases stored.len(),
{
    if stored.len() == 0 {
        Ok(Seq::empty())
    } else {
        match open_partitions(base_dir, name, stored.drop_last()) {
            Err(e) => Err(e),
            Ok(partitions) => match PartitionView::opened(
                base_dir,
                name,
                (stored.len() - 1) as u32,
                stored.last(),
            ) {
                Err(e) => Err(e),
                Ok(partition) => Ok(partitions.push(partition)),
            },
        }
    }
}

/// Every partition that opening gets to has segments in order that can be scanned.
pub open spec fn partitions_openable(
    base_dir: Seq<char>,
    name: Seq<char>,
    stored: Seq<Seq<StoredView>>,
) -> bool
    decreases stored.len(),
{
    stored.len() == 0 || {
        &&& partitions_openable(base_dir, name, stored.drop_last())
        &&& open_partitions(base_dir, name, stored.drop_last()) is Ok ==> shaped(stored.last())
            && openable(stored.last(), DEFAULT_MAX_SEGMENT_BYTES)
    }
}

impl TopicView {
    /// The topic that stored partitions make.
    pub open spec fn opened(
        base_dir: Seq<char>,
        name: Seq<char>,
        stored: Seq<Seq<StoredView>>,
    ) -> Result<TopicView, ErrorView> {
        match open_partitions(base_dir, name, stored) {
            Err(e) => Err(e),
            Ok(partitions) => Ok(TopicView { name, partitions }),
        }
    }

    /// Messages ever written to the topic.
    pub open spec fn total(self) -> nat {
        total_of(self.partitions)
    }

    /// A message without a key can be routed: the message count is within 64 bits.
    pub open spec fn routable(self, key: Option<Seq<u8>>) -> bool {
        &&& self.partitions.len() > 0
        &&& key is None ==> self.total() <= u64::MAX
    }

    /// The partition for a message: by the hash of its key, or in turn.
    pub open spec fn select(self, key: Option<Seq<u8>>) -> u32 {
        match key {
            Some(k) => (key_hash(k) as nat % self.partitions.len()) as u32,
            None => (self.total() % self.partitions.len()) as u32,
        }
    }

    /// The message can be routed, numbered and placed.
    pub open spec fn has_room(self, key: Option<Seq<u8>>, n: nat, spare: FilesView) -> bool {
        &&& self.routable(key)
        &&& self.partitions[self.select(key) as int].log.has_room(n, spare)
    }

    /// Route and append a message: the topic afterwards, and where the message is.
    pub open spec fn produce(
        self,
        key: Option<Seq<u8>>,
        payload: Seq<u8>,
        spare: FilesView,
    ) -> (TopicView, Result<(u32, u64), ErrorView>) {
        let id = self.select(key);
        let (partition, r) = self.partitions[id as int].append(payload, spare);
        let after = TopicView { partitions: self.partitions.update(id as int, partition), ..self };
        match r {
            Err(e) => (after, Err(e)),
            Ok(offset) => (after, Ok((id, offset))),
        }
    }

    pub open spec fn fetchable(self, partition_id: u32, offset: u64, max: nat) -> bool {
        partition_id < self.partitions.len() ==> self.partitions[partition_id as int].fetchable(
            offset,
            max,
        )
    }

    /// The messages that a fetch returns.
    pub open spec fn fetch(self, partition_id: u32, offset: u64, max: nat) -> Result<
        Seq<MessageView>,
        ErrorView,
    > {
        if partition_id < self.partitions.len() {
            self.partitions[partition_id as int].fetch(offset, max)
        } else {
            Err(no_such_partition(partition_id, self.partitions.len()))
        }
    }

    /// The topic as the disk holds it.
    pub open spec fn stored(self) -> Seq<Seq<StoredView>> {
        self.partitions.map_values(|p: PartitionView| p.log.stored())
    }
}

/// A reference to a key by its bytes.
pub open spec fn key_bytes(key: Option<&[u8]>) -> Option<Seq<u8>> {
    match key {
        Some(k) => Some(k@),
        None => None,
    }
}

/// The files of `n` partitions that do not exist yet.
fn new_files(n: u32) -> (files: Vec<Vec<StoredSegment>>)
    ensures
        topic_files(files@) == new_topic_files(n as nat),
{
    let mut files: Vec<Vec<StoredSegment>> = Vec::new();
    for i in 0..n
        invariant
            files@.len() == i,
            forall|k: int|
                0 <= k < files@.len() ==> stored_views((#[trigger] files@[k])@)
                    == new_partition_files(),
    {
        let mut first: Vec<StoredSegment> = Vec::new();
        first.push(StoredSegment { base_offset: 0, files: SegmentFiles::empty() });
        assert(stored_views(first@) =~= new_partition_files());
        files.push(first);
    }
    assert(topic_files(files@) =~= new_topic_files(n as nat));
    files
}

/// Hash a routing key.
pub fn hash_key(key: &[u8]) -> (h: u64)
    ensures
        h == key_hash(key@),
{
    let mut hasher: DefaultHasher = DefaultHasher::new();
    hash_into(key, &mut hasher);
    assert(hasher@ =~= hash_writes(key@));
    hasher.finish()
}

/// The partition that a key hash or a message count stands for, out of `n`.
pub fn partition_for(value: u64, n: usize) -> (id: u32)
    requires
        0 < n <= u32::MAX,
    ensures
        id as nat == value as nat % n as nat,
        id < n,
{
    (value % n as u64) as u32
}

/// Whether a partition's directory offers at least one segment, in order.
fn is_shaped(stored: &Vec<StoredSegment>) -> (b: bool)
    ensures
        b == shaped(stored_views(stored@)),
{
    let ghost views = stored_views(stored@);
    if stored.len() == 0 {
        return false;
    }
    let mut i: usize = 1;
    while i < stored.len()
        invariant
            1 <= i <= stored@.len(),
            views == stored_views(stored@),
            forall|a: int, b: int|
                0 <= a < b < i ==> (#[trigger] views[a]).base_offset <= (
                #[trigger] views[b]).base_offset,
        decreases stored@.len() - i,
    {
        assert(views[i - 1].base_offset == stored@[i - 1].base_offset);
        assert(views[i as int].base_offset == stored@[i as int].base_offset);
        if stored[i].base_offset < stored[i - 1].base_offset {
            return false;
        }
        i = i + 1;
    }
    true
}

impl Topic {
    /// The partitions are usable, and a `u32` numbers them.
    pub open(crate) spec fn wf(&self) -> bool {
        &&& self.partitions@.len() <= u32::MAX
        &&& forall|i: int|
            0 <= i < self.partitions@.len() ==> (#[trigger] self.partitions@[i]).wf()
    }

    /// How opening these partitions will end.
    pub fn probe(base_dir: &str, name: &str, stored: &Vec<Vec<StoredSegment>>) -> (r: Opening)
        ensures
            r == opening(
                partitions_openable(base_dir@, name@, topic_files(stored@)),
                open_partitions(base_dir@, name@, topic_files(stored@)) is Ok,
            ),
    {
        let ghost views = topic_files(stored@);
        let mut i: usize = 0;
        assert(views.take(0) =~= Seq::empty());
        while i < stored.len()
            invariant
                i <= stored@.len(),
                views == topic_files(stored@),
                partitions_openable(base_dir@, name@, views.take(i as int)),
                open_partitions(base_dir@, name@, views.take(i as int)) is Ok,
            decreases stored@.len() - i,
        {
            proof {
                let head = views.take(i + 1);
                assert(head.drop_last() =~= views.take(i as int));
                assert(head.last() == stored_views(stored@[i as int]@));
                lemma_openable_prefix(base_dir@, name@, views, i + 1);
            }
            if !is_shaped(&stored[i]) {
                return Opening::Unreadable;
            }
            match Log::probe(&stored[i], DEFAULT_MAX_SEGMENT_BYTES) {
                Opening::Unreadable => return Opening::Unreadable,
                Opening::Fails => {
                    proof {
                        lemma_open_error_prefix(base_dir@, name@, views, i + 1);
                    }
                    return Opening::Fails;
                },
                Opening::Opens => {},
            }
            i = i + 1;
        }
        assert(views.take(i as int) =~= views);
        Opening::Opens
    }

    /// Open or recover a topic with `partition_count` partitions.
    ///
    /// If the topic already exists on disk with a different number of
    /// partitions, the existing partitions are opened as-is.
    ///
    /// Partition logs are stored at `{base_dir}/{name}/{id}/`; `stored` holds what
    /// was found there, one item for each existing partition and none for a new
    /// topic.
    pub fn open(
        base_dir: &str,
        name: &str,
        partition_count: u32,
        stored: Vec<Vec<StoredSegment>>,
    ) -> (r: Result<Topic, Error>)
        requires
            stored@.len() <= u32::MAX,
            partitions_openable(base_dir@, name@, topic_files(stored@)),
        ensures
            seen(r) == TopicView::opened(
                base_dir@,
                name@,
                files_to_open(partition_count, topic_files(stored@)),
            ),
            r matches Ok(topic) ==> topic.wf(),
    {
        proof {
            lemma_new(base_dir@, name@, partition_count as nat);
        }
        if stored.len() == 0 {
            Topic::open_stored(base_dir, name, new_files(partition_count))
        } else {
            Topic::open_stored(base_dir, name, stored)
        }
    }

    /// Open one partition for each item of `stored`.
    fn open_stored(base_dir: &str, name: &str, stored: Vec<Vec<StoredSegment>>) -> (r: Result<
        Topic,
        Error,
    >)
        requires
            stored@.len() <= u32::MAX,
            partitions_openable(base_dir@, name@, topic_files(stored@)),
        ensures
            seen(r) == TopicView::opened(base_dir@, name@, topic_files(stored@)),
            r matches Ok(topic) ==> topic.wf(),
    {
        let ghost views = topic_files(stored@);
        let mut partitions: Vec<Partition> = Vec::new();
        let mut id: u32 = 0;
        assert(views.take(0) =~= Seq::empty());
        assert(partition_views(partitions@) =~= Seq::empty());
        for p in it: stored.into_iter()
            invariant
                it.seq() == stored@,
                views == topic_files(stored@),
                stored@.len() <= u32::MAX,
                partitions_openable(base_dir@, name@, views),
                id == it.index(),
                partitions@.len() == it.index(),
                open_partitions(base_dir@, name@, views.take(it.index())) == Ok::<
                    Seq<PartitionView>,
                    ErrorView,
                >(partition_views(partitions@)),
                forall|i: int| 0 <= i < partitions@.len() ==> (#[trigger] partitions@[i]).wf(),
        {
            proof {
                let head = views.take(it.index() + 1);
                assert(head.drop_last() =~= views.take(it.index()));
                assert(head.last() == stored_views(p@));
                lemma_openable_prefix(base_dir@, name@, views, it.index() + 1);
            }
            match Partition::open(base_dir, name, id, p) {
                Err(e) => {
                    proof {
                        lemma_open_error_prefix(base_dir@, name@, views, it.index() + 1);
                    }
                    return Err(e);
                },
                Ok(partition) => {
                    let ghost before = partition_views(partitions@);
                    partitions.push(partition);
                    assert(partition_views(partitions@) =~= before.push(partition@));
                },
            }
            id = id + 1;
        }
        assert(views.take(views.len() as int) =~= views);
        Ok(Topic { name: name.to_owned(), partitions })
    }
}

impl Topic {
    /// Whether a message can be routed, numbered and placed.
    pub fn can_produce(&self, key: Option<&[u8]>, payload: &[u8], spare: &SegmentFiles) -> (b: bool)
        requires
            self.wf(),
        ensures
            b == self@.has_room(key_bytes(key), payload@.len(), spare@),
    {
        if !self.can_route(key) {
            return false;
        }
        let id: u32 = self.select_partition(key);
        self.partitions[id as usize].log.can_append(payload, spare)
    }

    /// Whether a message can be routed.
    pub fn can_route(&self, key: Option<&[u8]>) -> (b: bool)
        requires
            self.wf(),
        ensures
            b == self@.routable(key_bytes(key)),
            b <==> self@.partitions.len() > 0 && (key is None ==> self@.partitions.map_values(
                |p: PartitionView| p.high_water_mark as int,
            ).fold_left(0, |sum: int, mark: int| sum + mark) <= u64::MAX),
    {
        proof {
            law_total_is_sum(self@);
        }
        if self.partitions.len() == 0 {
            return false;
        }
        match key {
            Some(_) => true,
            None => self.message_count().is_some(),
        }
    }

    /// The directory of the partition for a message, and the base offset of the
    /// segment that has to be opened there first, if its active one is full.
    pub fn roll_for(&self, key: Option<&[u8]>) -> (r: Option<(String, u64)>)
        requires
            self.wf(),
            self@.routable(key_bytes(key)),
        ensures
            ({
                let log = self@.partitions[self@.select(key_bytes(key)) as int].log;
                match r {
                    Some((dir, base)) => log.active().full() && dir@ == log.dir && base
                        == log.active().next_offset,
                    None => !log.active().full(),
                }
            }),
    {
        let id: u32 = self.select_partition(key);
        let log: &Log = &self.partitions[id as usize].log;
        match log.roll_base() {
            Some(base) => Some((log.dir.clone(), base)),
            None => None,
        }
    }

    /// The directory of the partition for a message, and what the message adds to
    /// the files there.
    pub fn stage(&self, key: Option<&[u8]>, payload: &[u8], spare: &SegmentFiles) -> (r: Result<
        (String, Write),
        Error,
    >)
        requires
            self.wf(),
            self@.has_room(key_bytes(key), payload@.len(), spare@),
        ensures
            ({
                let log = self@.partitions[self@.select(key_bytes(key)) as int].log;
                match r {
                    Ok((dir, write)) => dir@ == log.dir && Ok::<WriteView, ErrorView>(write@)
                        == log.stage(payload@, spare@),
                    Err(e) => Err::<WriteView, ErrorView>(e@) == log.stage(payload@, spare@),
                }
            }),
    {
        let id: u32 = self.select_partition(key);
        let log: &Log = &self.partitions[id as usize].log;
        match log.stage(payload, spare) {
            Ok(write) => Ok((log.dir.clone(), write)),
            Err(e) => Err(e),
        }
    }

    /// Produce a message to this topic.
    ///
    /// `key` is used to select the target partition:
    /// - `Some(key)` → hash(key) % partition_count (stable routing per key)
    /// - `None`      → round-robin, by the number of messages in the topic
    ///
    /// `spare` holds the files of the segment that [`Topic::roll_for`] names.
    ///
    /// Returns `(partition_id, offset)`.
    pub fn produce(
        &mut self,
        key: Option<&[u8]>,
        payload: &[u8],
        spare: SegmentFiles,
    ) -> (r: Result<(u32, u64), Error>)
        requires
            old(self).wf(),
            old(self)@.has_room(key_bytes(key), payload@.len(), spare@),
        ensures
            final(self).wf(),
            (final(self)@, seen(r)) == old(self)@.produce(key_bytes(key), payload@, spare@),
            key matches Some(k) ==> (r matches Ok((id, _)) ==> id as nat
                == DefaultHasher::spec_finish(hash_writes(k@)) as nat
                % old(self)@.partitions.len()),
    {
        let partition_id: u32 = self.select_partition(key);
        let i: usize = partition_id as usize;
        let ghost before = *self;
        assert(self@.partitions[i as int] == self.partitions@[i as int]@);
        let r: Result<u64, Error> = self.partitions[i].append(payload, spare);
        proof {
            assert(partition_views(self.partitions@) =~= partition_views(before.partitions@).update(
                i as int,
                self.partitions@[i as int]@,
            ));
            assert forall|k: int| 0 <= k < self.partitions@.len() implies (
            #[trigger] self.partitions@[k]).wf() by {
                assert(before.partitions@[k].wf());
            }
        }
        match r {
            Ok(offset) => Ok((partition_id, offset)),
            Err(e) => Err(e),
        }
    }

    /// Fetch up to `max_messages` from `partition_id` starting at `offset`.
    pub fn fetch(&self, partition_id: u32, offset: u64, max_messages: usize) -> (r: Result<
        Vec<FetchedMessage>,
        Error,
    >)
        requires
            self.wf(),
            self@.fetchable(partition_id, offset, max_messages as nat),
        ensures
            seen_messages(r) == self@.fetch(partition_id, offset, max_messages as nat),
    {
        match self.partition(partition_id) {
            Ok(partition) => partition.fetch(offset, max_messages),
            Err(e) => Err(e),
        }
    }

    /// Whether such a fetch only meets frames that cover their own offset field.
    pub fn can_fetch(&self, partition_id: u32, offset: u64, max_messages: usize) -> (b: bool)
        requires
            self.wf(),
        ensures
            b == self@.fetchable(partition_id, offset, max_messages as nat),
    {
        match self.partition(partition_id) {
            Ok(partition) => partition.can_fetch(offset, max_messages),
            Err(_) => true,
        }
    }

    /// High-water mark for a given partition.
    pub fn high_water_mark(&self, partition_id: u32) -> (r: Result<u64, Error>)
        ensures
            seen(r) == (if partition_id < self@.partitions.len() {
                Ok(self@.partitions[partition_id as int].high_water_mark)
            } else {
                Err(no_such_partition(partition_id, self@.partitions.len()))
            }),
    {
        match self.partition(partition_id) {
            Ok(partition) => Ok(partition.high_water_mark()),
            Err(e) => Err(e),
        }
    }

    /// The partitions of this topic as its directory holds them.
    pub fn stored(&self) -> (stored: Vec<Vec<StoredSegment>>)
        ensures
            topic_files(stored@) == self@.stored(),
    {
        let mut stored: Vec<Vec<StoredSegment>> = Vec::new();
        for i in 0..self.partitions.len()
            invariant
                stored@.len() == i,
                forall|k: int|
                    0 <= k < stored@.len() ==> stored_views((#[trigger] stored@[k])@)
                        == self@.stored()[k],
        {
            stored.push(self.partitions[i].stored());
        }
        assert(topic_files(stored@) =~= self@.stored());
        stored
    }

    /// Number of partitions in this topic.
    pub fn partition_count(&self) -> (n: u32)
        requires
            self.wf(),
        ensures
            n == self@.partitions.len(),
    {
        self.partitions.len() as u32
    }

    // ── internals ────────────────────────────────────────────────────────────

    /// Messages in the topic, if 64 bits can count them.
    fn message_count(&self) -> (r: Option<u64>)
        ensures
            r == (if self@.total() <= u64::MAX {
                Some(self@.total() as u64)
            } else {
                None
            }),
    {
        let mut total: u64 = 0;
        let mut i: usize = 0;
        assert(self@.partitions.take(0) =~= Seq::empty());
        while i < self.partitions.len()
            invariant
                i <= self.partitions@.len(),
                total as nat == total_of(self@.partitions.take(i as int)),
            decreases self.partitions@.len() - i,
        {
            let mark: u64 = self.partitions[i].high_water_mark();
            proof {
                let head = self@.partitions.take(i + 1);
                assert(head.drop_last() =~= self@.partitions.take(i as int));
                assert(head.last() == self.partitions@[i as int]@);
                lemma_total_prefix(self@.partitions, i + 1);
            }
            if mark > u64::MAX - total {
                return None;
            }
            total = total + mark;
            i = i + 1;
        }
        assert(self@.partitions.take(i as int) =~= self@.partitions);
        Some(total)
    }

    /// The partition for a message, in [0, partition_count).
    fn select_partition(&self, key: Option<&[u8]>) -> (id: u32)
        requires
            self.wf(),
            self@.routable(key_bytes(key)),
        ensures
            id == self@.select(key_bytes(key)),
            id < self@.partitions.len(),
    {
        let n: usize = self.partitions.len();
        match key {
            Some(k) => partition_for(hash_key(k), n),
            // Keyless messages rotate across partitions based on total message
            // count.
            None => match self.message_count() {
                Some(total) => partition_for(total, n),
                None => 0,
            },
        }
    }

    fn partition(&self, id: u32) -> (r: Result<&Partition, Error>)
        ensures
            match r {
                Ok(partition) => id < self@.partitions.len() && *partition
                    == self.partitions@[id as int],
                Err(e) => id >= self@.partitions.len() && e@ == no_such_partition(
                    id,
                    self@.partitions.len(),
                ),
            },
    {
        if (id as usize) < self.partitions.len() {
            return Ok(&self.partitions[id as usize]);
        }
        let mut message: String = "partition ".to_owned();
        message.append(decimal_text(id as u64).as_str());
        message.append(" does not exist (topic has ");
        message.append(decimal_text(self.partitions.len() as u64).as_str());
        message.append(")");
        Err(Error { kind: ErrorKind::InvalidInput, message })
    }
}

/// Fewer partitions hold no more messages.
proof fn lemma_total_prefix(partitions: Seq<PartitionView>, n: int)
    requires
        0 <= n <= partitions.len(),
    ensures
        total_of(partitions.take(n)) <= total_of(partitions),
    decreases partitions.len() - n,
{
    if n == partitions.len() {
        assert(partitions.take(n) =~= partitions);
    } else {
        lemma_total_prefix(partitions, n + 1);
        assert(partitions.take(n + 1).drop_last() =~= partitions.take(n));
    }
}

proof fn lemma_openable_prefix(
    base_dir: Seq<char>,
    name: Seq<char>,
    stored: Seq<Seq<StoredView>>,
    n: int,
)
    requires
        0 <= n <= stored.len(),
    ensures
        partitions_openable(base_dir, name, stored) ==> partitions_openable(
            base_dir,
            name,
            stored.take(n),
        ),
    decreases stored.len() - n,
{
    if n == stored.len() {
        assert(stored.take(n) =~= stored);
    } else {
        lemma_openable_prefix(base_dir, name, stored, n + 1);
        assert(stored.take(n + 1).drop_last() =~= stored.take(n));
    }
}

proof fn lemma_open_error_prefix(
    base_dir: Seq<char>,
    name: Seq<char>,
    stored: Seq<Seq<StoredView>>,
    n: int,
)
    requires
        0 <= n <= stored.len(),
        open_partitions(base_dir, name, stored.take(n)) is Err,
    ensures
        open_partitions(base_dir, name, stored) == open_partitions(base_dir, name, stored.take(n)),
        partitions_openable(base_dir, name, stored) == partitions_openable(
            base_dir,
            name,
            stored.take(n),
        ),
    decreases stored.len() - n,
{
    if n == stored.len() {
        assert(stored.take(n) =~= stored);
    } else {
        assert(stored.take(n + 1).drop_last() =~= stored.take(n));
        lemma_open_error_prefix(base_dir, name, stored, n + 1);
    }
}

// ── Laws ─────────────────────────────────────────────────────────────────────

impl TopicView {
    /// Partition `i` holds exactly `messages[i]`.
    pub open spec fn holds(self, messages: Seq<Seq<Seq<u8>>>) -> bool {
        &&& messages.len() == self.partitions.len()
        &&& forall|i: int|
            0 <= i < self.partitions.len() ==> (#[trigger] self.partitions[i]).holds(messages[i])
    }

    /// Partition `i` is the one of this topic with that number, in its directory
    /// under `base_dir`, with the default segment size.
    pub open spec fn placed(self, base_dir: Seq<char>) -> bool {
        &&& self.partitions.len() <= u32::MAX
        &&& forall|i: int|
            0 <= i < self.partitions.len() ==> {
                let p = #[trigger] self.partitions[i];
                &&& p.topic == self.name
                &&& p.id == i
                &&& p.log.dir == dir_of(base_dir, self.name, i as u32)
                &&& p.log.max_segment_bytes == DEFAULT_MAX_SEGMENT_BYTES
            }
    }

    /// The message can be routed, and its partition has room for it.
    pub open spec fn can_take(self, key: Option<Seq<u8>>, payload: Seq<u8>) -> bool {
        &&& self.routable(key)
        &&& self.partitions[self.select(key) as int].can_take(payload)
    }
}

/// Routing stays within the topic.
pub proof fn law_select_in_range(topic: TopicView, key: Option<Seq<u8>>)
    requires
        0 < topic.partitions.len() <= u32::MAX,
    ensures
        topic.select(key) < topic.partitions.len(),
{
}

/// The same key always goes to the same partition: routing a key depends on the
/// number of partitions alone, and no produce changes that number.
pub proof fn law_same_key_same_partition(
    topic: TopicView,
    key: Seq<u8>,
    other_key: Option<Seq<u8>>,
    payload: Seq<u8>,
    spare: FilesView,
)
    requires
        0 < topic.partitions.len() <= u32::MAX,
    ensures
        topic.produce(other_key, payload, spare).0.partitions.len() == topic.partitions.len(),
        topic.produce(other_key, payload, spare).0.select(Some(key)) == topic.select(Some(key)),
        forall|t: TopicView|
            t.partitions.len() == topic.partitions.len() ==> #[trigger] t.select(Some(key))
                == topic.select(Some(key)),
{
    law_select_in_range(topic, other_key);
}

/// A key goes where its hash says: the hash of the whole key, modulo the number of
/// partitions.
pub proof fn law_keyed_route(topic: TopicView, key: Seq<u8>, payload: Seq<u8>, spare: FilesView)
    requires
        0 < topic.partitions.len() <= u32::MAX,
    ensures
        topic.select(Some(key)) as nat == DefaultHasher::spec_finish(hash_writes(key)) as nat
            % topic.partitions.len(),
        topic.produce(Some(key), payload, spare).1 matches Ok((id, _)) ==> id as nat
            == DefaultHasher::spec_finish(hash_writes(key)) as nat % topic.partitions.len(),
{
}

/// The message total is the sum of the high-water marks, each counted once.
pub proof fn law_total_is_sum(topic: TopicView)
    ensures
        topic.total() as int == topic.partitions.map_values(
            |p: PartitionView| p.high_water_mark as int,
        ).fold_left(0, |sum: int, mark: int| sum + mark),
{
    lemma_total_is_sum(topic.partitions);
}

proof fn lemma_total_is_sum(partitions: Seq<PartitionView>)
    ensures
        total_of(partitions) as int == partitions.map_values(
            |p: PartitionView| p.high_water_mark as int,
        ).fold_left(0, |sum: int, mark: int| sum + mark),
    decreases partitions.len(),
{
    let marks = partitions.map_values(|p: PartitionView| p.high_water_mark as int);
    if partitions.len() > 0 {
        lemma_total_is_sum(partitions.drop_last());
        assert(marks.drop_last() =~= partitions.drop_last().map_values(
            |p: PartitionView| p.high_water_mark as int,
        ));
    }
}

/// A message without a key goes to the partition that the sum of the high-water marks
/// gives, modulo the number of partitions.
pub proof fn law_keyless_route(topic: TopicView, payload: Seq<u8>, spare: FilesView)
    requires
        0 < topic.partitions.len() <= u32::MAX,
    ensures
        ({
            let sum = topic.partitions.map_values(
                |p: PartitionView| p.high_water_mark as int,
            ).fold_left(0, |sum: int, mark: int| sum + mark);
            &&& topic.select(None) as int == sum % topic.partitions.len() as int
            &&& topic.produce(None, payload, spare).1 matches Ok((id, _)) ==> id as int == sum
                % topic.partitions.len() as int
        }),
{
    law_total_is_sum(topic);
}

/// A topic with a partition takes every message that a frame can carry, as long as
/// the partition it goes to has an offset left to give, and, for one without a key,
/// the sum of the high-water marks is within 64 bits.
pub proof fn law_topic_takes(
    topic: TopicView,
    messages: Seq<Seq<Seq<u8>>>,
    key: Option<Seq<u8>>,
    payload: Seq<u8>,
)
    requires
        topic.holds(messages),
        0 < topic.partitions.len() <= u32::MAX,
        forall|i: int|
            0 <= i < topic.partitions.len() ==> (
            #[trigger] topic.partitions[i]).log.max_segment_bytes == 0x4000_0000,
        payload.len() + 8 <= 0xFFFF_FFFF,
        ({
            let n = topic.partitions.len() as int;
            let sum = topic.partitions.map_values(
                |p: PartitionView| p.high_water_mark as int,
            ).fold_left(0, |sum: int, mark: int| sum + mark);
            match key {
                Some(k) => {
                    let hash = DefaultHasher::spec_finish(hash_writes(k)) as int;
                    topic.partitions[hash % n].high_water_mark < u64::MAX
                },
                None => sum <= u64::MAX && topic.partitions[sum % n].high_water_mark < u64::MAX,
            }
        }),
    ensures
        topic.routable(key),
        topic.has_room(key, payload.len(), no_files()),
        topic.can_take(key, payload),
        topic.produce(key, payload, no_files()).1 is Ok,
{
    law_total_is_sum(topic);
    match key {
        Some(k) => law_keyed_route(topic, k, payload, no_files()),
        None => law_keyless_route(topic, payload, no_files()),
    }
    law_select_in_range(topic, key);
    let id = topic.select(key) as int;
    law_partition_has_room(topic.partitions[id], messages[id], payload);
    law_topic_produce(topic, messages, key, payload);
}

/// The error for a partition that the topic does not have says which one was asked
/// for and how many there are.
pub proof fn law_no_such_partition(topic: TopicView, partition_id: u32, offset: u64, max: nat)
    requires
        partition_id >= topic.partitions.len(),
    ensures
        topic.fetchable(partition_id, offset, max),
        topic.fetch(partition_id, offset, max) matches Err(e) && e.kind == ErrorKind::InvalidInput
            && e.message == "partition "@ + decimal(partition_id as nat)
            + " does not exist (topic has "@ + decimal(topic.partitions.len()) + ")"@,
{
}

/// A produce adds the message to the partition it is routed to, at that
/// partition's high-water mark, and leaves every other partition as it was.
pub proof fn law_topic_produce(
    topic: TopicView,
    messages: Seq<Seq<Seq<u8>>>,
    key: Option<Seq<u8>>,
    payload: Seq<u8>,
)
    requires
        topic.holds(messages),
        topic.partitions.len() <= u32::MAX,
        topic.can_take(key, payload),
    ensures
        ({
            let id = topic.select(key);
            let (after, r) = topic.produce(key, payload, no_files());
            &&& r == Ok::<(u32, u64), ErrorView>(
                (id, topic.partitions[id as int].high_water_mark),
            )
            &&& after.holds(messages.update(id as int, messages[id as int].push(payload)))
            &&& after.partitions[id as int].high_water_mark
                == topic.partitions[id as int].high_water_mark + 1
            &&& forall|i: int|
                0 <= i < topic.partitions.len() && i != id ==> #[trigger] after.partitions[i]
                    == topic.partitions[i]
            &&& after.name == topic.name
            &&& forall|base_dir: Seq<char>| #[trigger]
                topic.placed(base_dir) ==> after.placed(base_dir)
        }),
{
    let id = topic.select(key) as int;
    law_select_in_range(topic, key);
    law_partition_append(topic.partitions[id], messages[id], payload);
    let after = topic.produce(key, payload, no_files()).0;
    assert forall|base_dir: Seq<char>| #[trigger] topic.placed(base_dir) implies after.placed(
        base_dir,
    ) by {
        assert(after.partitions[id].topic == topic.partitions[id].topic);
        assert forall|i: int| 0 <= i < after.partitions.len() implies ({
            let p = #[trigger] after.partitions[i];
            &&& p.topic == after.name
            &&& p.id == i
            &&& p.log.dir == dir_of(base_dir, after.name, i as u32)
            &&& p.log.max_segment_bytes == DEFAULT_MAX_SEGMENT_BYTES
        }) by {
            assert(topic.partitions[i].topic == topic.name);
        }
    }
}

/// A message is there to be fetched, alone, at the place that its produce
/// returned.
pub proof fn law_fetch_after_produce(
    topic: TopicView,
    messages: Seq<Seq<Seq<u8>>>,
    key: Option<Seq<u8>>,
    payload: Seq<u8>,
)
    requires
        topic.holds(messages),
        topic.partitions.len() <= u32::MAX,
        topic.can_take(key, payload),
    ensures
        ({
            let (after, r) = topic.produce(key, payload, no_files());
            &&& r matches Ok((id, offset)) && after.fetch(id, offset, 1) == Ok::<
                Seq<MessageView>,
                ErrorView,
            >(seq![MessageView { offset, payload }])
        }),
{
    let id = topic.select(key) as int;
    law_select_in_range(topic, key);
    law_topic_produce(topic, messages, key, payload);
    law_fetch_after_append(topic.partitions[id], messages[id], payload);
}

/// A message to be produced: its key and its payload.
pub type Sent = (Option<Seq<u8>>, Seq<u8>);

impl TopicView {
    /// The topic after these messages, produced one after the other.
    pub open spec fn after(self, sent: Seq<Sent>) -> TopicView
        decreases sent.len(),
    {
        if sent.len() == 0 {
            self
        } else {
            let (key, payload) = sent.last();
            self.after(sent.drop_last()).produce(key, payload, no_files()).0
        }
    }

    /// Where message `k` of these goes.
    pub open spec fn outcome(self, sent: Seq<Sent>, k: int) -> Result<(u32, u64), ErrorView> {
        self.after(sent.take(k)).produce(sent[k].0, sent[k].1, no_files()).1
    }

    /// Each message finds room in the topic when its turn comes.
    pub open spec fn can_take_all(self, sent: Seq<Sent>) -> bool {
        forall|k: int|
            0 <= k < sent.len() ==> (#[trigger] self.after(sent.take(k))).can_take(
                sent[k].0,
                sent[k].1,
            )
    }
}

proof fn lemma_after(
    topic: TopicView,
    messages: Seq<Seq<Seq<u8>>>,
    sent: Seq<Sent>,
    n: int,
) -> (held: Seq<Seq<Seq<u8>>>)
    requires
        topic.holds(messages),
        topic.partitions.len() <= u32::MAX,
        topic.can_take_all(sent),
        0 <= n <= sent.len(),
    ensures
        topic.after(sent.take(n)).holds(held),
        topic.after(sent.take(n)).partitions.len() == topic.partitions.len(),
    decreases n,
{
    if n == 0 {
        messages
    } else {
        let before = lemma_after(topic, messages, sent, n - 1);
        let (key, payload) = sent[n - 1];
        let t = topic.after(sent.take(n - 1));
        assert(sent.take(n).drop_last() =~= sent.take(n - 1));
        law_topic_produce(t, before, key, payload);
        let id = t.select(key) as int;
        before.update(id, before[id].push(payload))
    }
}

proof fn lemma_marks_grow(
    topic: TopicView,
    messages: Seq<Seq<Seq<u8>>>,
    sent: Seq<Sent>,
    a: int,
    b: int,
    i: int,
)
    requires
        topic.holds(messages),
        topic.partitions.len() <= u32::MAX,
        topic.can_take_all(sent),
        0 <= a <= b <= sent.len(),
        0 <= i < topic.partitions.len(),
    ensures
        topic.after(sent.take(a)).partitions[i].high_water_mark <= topic.after(
            sent.take(b),
        ).partitions[i].high_water_mark,
    decreases b - a,
{
    if a < b {
        lemma_marks_grow(topic, messages, sent, a, b - 1, i);
        let held = lemma_after(topic, messages, sent, b - 1);
        let (key, payload) = sent[b - 1];
        let t = topic.after(sent.take(b - 1));
        assert(sent.take(b).drop_last() =~= sent.take(b - 1));
        law_topic_produce(t, held, key, payload);
        if i != t.select(key) {
            assert(topic.after(sent.take(b)).partitions[i] == t.partitions[i]);
        }
    }
}

/// Order per key: of all messages produced with one key, whatever is produced
/// between them, each lands in the same partition, and a later one at a higher
/// offset.
pub proof fn law_key_order(
    topic: TopicView,
    messages: Seq<Seq<Seq<u8>>>,
    sent: Seq<Sent>,
    key: Seq<u8>,
    a: int,
    b: int,
)
    requires
        topic.holds(messages),
        topic.partitions.len() <= u32::MAX,
        topic.can_take_all(sent),
        0 <= a < b < sent.len(),
        sent[a].0 == Some(key),
        sent[b].0 == Some(key),
    ensures
        topic.outcome(sent, a) matches Ok((id_a, offset_a)) && topic.outcome(sent, b) matches Ok(
            (id_b, offset_b),
        ) && id_a == id_b && offset_a < offset_b,
{
    let first = topic.after(sent.take(a));
    let second = topic.after(sent.take(b));
    let held_first = lemma_after(topic, messages, sent, a);
    let held_second = lemma_after(topic, messages, sent, b);
    law_topic_produce(first, held_first, Some(key), sent[a].1);
    law_topic_produce(second, held_second, Some(key), sent[b].1);
    law_select_in_range(first, Some(key));
    assert(sent.take(a + 1).drop_last() =~= sent.take(a));
    assert(sent.take(a + 1).last() == sent[a]);
    lemma_marks_grow(topic, messages, sent, a + 1, b, first.select(Some(key)) as int);
}

proof fn lemma_take_all(
    base_dir: Seq<char>,
    topic: TopicView,
    messages: Seq<Seq<Seq<u8>>>,
    sent: Seq<Sent>,
    n: int,
) -> (held: Seq<Seq<Seq<u8>>>)
    requires
        topic.holds(messages),
        topic.placed(base_dir),
        topic.partitions.len() > 0,
        topic.total() + sent.len() < u64::MAX,
        forall|k: int|
            0 <= k < sent.len() ==> (#[trigger] sent[k]).1.len() + 8 <= 0xFFFF_FFFF,
        0 <= n <= sent.len(),
    ensures
        topic.after(sent.take(n)).holds(held),
        topic.after(sent.take(n)).placed(base_dir),
        topic.after(sent.take(n)).partitions.len() == topic.partitions.len(),
        topic.after(sent.take(n)).total() == topic.total() + n,
        n < sent.len() ==> topic.after(sent.take(n)).can_take(sent[n].0, sent[n].1),
    decreases n,
{
    let held = if n == 0 {
        messages
    } else {
        let before = lemma_take_all(base_dir, topic, messages, sent, n - 1);
        let (key, payload) = sent[n - 1];
        let t = topic.after(sent.take(n - 1));
        assert(sent.take(n).drop_last() =~= sent.take(n - 1));
        assert(sent.take(n).last() == sent[n - 1]);
        law_topic_produce(t, before, key, payload);
        law_total_grows(t, before, key, payload);
        let id = t.select(key) as int;
        before.update(id, before[id].push(payload))
    };
    if n < sent.len() {
        let t = topic.after(sent.take(n));
        let (key, payload) = sent[n];
        law_select_in_range(t, key);
        law_partition_counts(t, t.select(key) as int);
        law_topic_has_room(base_dir, t, held, key, payload);
    }
    held
}

/// A topic takes all messages that it is sent, with or without keys, and answers each
/// with its place, for as long as 64 bits can count them. Every one of them can then
/// be fetched, alone, at that place.
pub proof fn law_all_taken(
    base_dir: Seq<char>,
    topic: TopicView,
    messages: Seq<Seq<Seq<u8>>>,
    sent: Seq<Sent>,
    k: int,
)
    requires
        topic.holds(messages),
        topic.placed(base_dir),
        topic.partitions.len() > 0,
        topic.total() + sent.len() < u64::MAX,
        forall|i: int|
            0 <= i < sent.len() ==> (#[trigger] sent[i]).1.len() + 8 <= 0xFFFF_FFFF,
        0 <= k < sent.len(),
    ensures
        topic.after(sent.take(k)).has_room(sent[k].0, sent[k].1.len(), no_files()),
        topic.outcome(sent, k) matches Ok((id, offset)) && topic.after(sent).fetch(id, offset, 1)
            == Ok::<Seq<MessageView>, ErrorView>(
            seq![MessageView { offset, payload: sent[k].1 }],
        ),
        topic.after(sent).total() == topic.total() + sent.len(),
{
    let held = lemma_take_all(base_dir, topic, messages, sent, k);
    let t = topic.after(sent.take(k));
    let (key, payload) = sent[k];
    law_topic_produce(t, held, key, payload);
    law_select_in_range(t, key);
    let id = t.select(key) as int;
    let offset = t.partitions[id].high_water_mark;
    lemma_kept(base_dir, topic, messages, sent, k, sent.len() as int);
    assert(sent.take(sent.len() as int) =~= sent);
    let all = lemma_take_all(base_dir, topic, messages, sent, sent.len() as int);
}

/// Message `k` is where it was put, `n` messages on.
proof fn lemma_kept(
    base_dir: Seq<char>,
    topic: TopicView,
    messages: Seq<Seq<Seq<u8>>>,
    sent: Seq<Sent>,
    k: int,
    n: int,
) -> (held: Seq<Seq<Seq<u8>>>)
    requires
        topic.holds(messages),
        topic.placed(base_dir),
        topic.partitions.len() > 0,
        topic.total() + sent.len() < u64::MAX,
        forall|i: int|
            0 <= i < sent.len() ==> (#[trigger] sent[i]).1.len() + 8 <= 0xFFFF_FFFF,
        0 <= k < n <= sent.len(),
    ensures
        topic.after(sent.take(n)).holds(held),
        topic.outcome(sent, k) matches Ok((id, offset)) && {
            let t = topic.after(sent.take(n));
            let p = t.partitions[id as int];
            &&& id < t.partitions.len()
            &&& p.log.oldest() <= offset < p.high_water_mark
            &&& held[id as int][offset - p.log.oldest()] == sent[k].1
            &&& t.fetch(id, offset, 1) == Ok::<Seq<MessageView>, ErrorView>(
                seq![MessageView { offset, payload: sent[k].1 }],
            )
        },
    decreases n,
{
    let before = lemma_take_all(base_dir, topic, messages, sent, n - 1);
    let t = topic.after(sent.take(n - 1));
    let (key, payload) = sent[n - 1];
    assert(sent.take(n).drop_last() =~= sent.take(n - 1));
    assert(sent.take(n).last() == sent[n - 1]);
    law_topic_produce(t, before, key, payload);
    law_select_in_range(t, key);
    let to = t.select(key) as int;
    let after = topic.after(sent.take(n));
    assert(after == t.produce(key, payload, no_files()).0);
    law_partition_append(t.partitions[to], before[to], payload);
    let held = if n == k + 1 {
        before.update(to, before[to].push(payload))
    } else {
        let earlier = lemma_kept(base_dir, topic, messages, sent, k, n - 1);
        law_topic_produce(t, earlier, key, payload);
        law_partition_append(t.partitions[to], earlier[to], payload);
        earlier.update(to, earlier[to].push(payload))
    };
    let (id, offset) = topic.outcome(sent, k)->Ok_0;
    let p = after.partitions[id as int];
    assert(after.partitions[id as int].holds(held[id as int]));
    law_partition_fetch(p, held[id as int], offset, 1);
    assert(numbered(
        held[id as int],
        p.log.oldest(),
        offset,
        fetch_end(p.high_water_mark, offset, 1),
    ) =~= seq![MessageView { offset, payload: sent[k].1 }]);
    held
}

/// With the default segment size a topic has room for any payload that a frame can
/// carry, as long as its partition has an offset left to give.
pub proof fn law_topic_has_room(
    base_dir: Seq<char>,
    topic: TopicView,
    messages: Seq<Seq<Seq<u8>>>,
    key: Option<Seq<u8>>,
    payload: Seq<u8>,
)
    requires
        topic.holds(messages),
        topic.placed(base_dir),
        topic.routable(key),
        storable(payload),
        topic.partitions[topic.select(key) as int].high_water_mark < u64::MAX,
    ensures
        topic.can_take(key, payload),
{
    let id = topic.select(key) as int;
    law_select_in_range(topic, key);
    law_partition_has_room(topic.partitions[id], messages[id], payload);
}

proof fn lemma_total_update(partitions: Seq<PartitionView>, i: int, p: PartitionView)
    requires
        0 <= i < partitions.len(),
    ensures
        total_of(partitions.update(i, p)) == total_of(partitions)
            - partitions[i].high_water_mark + p.high_water_mark,
    decreases partitions.len(),
{
    let after = partitions.update(i, p);
    if i == partitions.len() - 1 {
        assert(after.drop_last() =~= partitions.drop_last());
    } else {
        lemma_total_update(partitions.drop_last(), i, p);
        assert(after.drop_last() =~= partitions.drop_last().update(i, p));
    }
}

/// No partition counts more messages than the topic.
pub proof fn law_partition_counts(topic: TopicView, i: int)
    requires
        0 <= i < topic.partitions.len(),
    ensures
        topic.partitions[i].high_water_mark <= topic.total(),
{
    lemma_total_prefix(topic.partitions, i + 1);
    assert(topic.partitions.take(i + 1).last() == topic.partitions[i]);
}

/// Every produce counts: the message total grows by one.
pub proof fn law_total_grows(
    topic: TopicView,
    messages: Seq<Seq<Seq<u8>>>,
    key: Option<Seq<u8>>,
    payload: Seq<u8>,
)
    requires
        topic.holds(messages),
        topic.partitions.len() <= u32::MAX,
        topic.can_take(key, payload),
    ensures
        topic.produce(key, payload, no_files()).0.total() == topic.total() + 1,
{
    let id = topic.select(key) as int;
    law_topic_produce(topic, messages, key, payload);
    let after = topic.produce(key, payload, no_files()).0;
    lemma_total_update(topic.partitions, id, after.partitions[id]);
}

/// Keyless messages take the partitions in turn: after one, the next goes to the
/// following partition, and from the last back to the first.
pub proof fn law_keyless_rotates(
    topic: TopicView,
    messages: Seq<Seq<Seq<u8>>>,
    payload: Seq<u8>,
)
    requires
        topic.holds(messages),
        topic.partitions.len() <= u32::MAX,
        topic.can_take(None, payload),
    ensures
        ({
            let n = topic.partitions.len();
            let after = topic.produce(None, payload, no_files()).0;
            after.select(None) == (if topic.select(None) + 1 == n {
                0
            } else {
                topic.select(None) + 1
            })
        }),
{
    let n = topic.partitions.len();
    let t = topic.total();
    law_total_grows(topic, messages, None, payload);
    lemma_next_remainder(t as int, n as int);
}

/// The remainder of the next number.
proof fn lemma_next_remainder(t: int, n: int)
    requires
        0 <= t,
        0 < n,
    ensures
        (t + 1) % n == (if t % n + 1 == n {
            0
        } else {
            t % n + 1
        }),
{
    let q = t / n;
    let r = t % n;
    lemma_fundamental_div_mod(t, n);
    if r + 1 == n {
        assert((q + 1) * n == n * q + n) by (nonlinear_arith);
        lemma_fundamental_div_mod_converse(t + 1, n, q + 1, 0);
    } else {
        assert(q * n == n * q) by (nonlinear_arith);
        lemma_fundamental_div_mod_converse(t + 1, n, q, r + 1);
    }
}

proof fn lemma_reopen(
    base_dir: Seq<char>,
    topic: TopicView,
    messages: Seq<Seq<Seq<u8>>>,
    n: int,
)
    requires
        topic.holds(messages),
        topic.placed(base_dir),
        0 <= n <= topic.partitions.len(),
    ensures
        partitions_openable(base_dir, topic.name, topic.stored().take(n)),
        open_partitions(base_dir, topic.name, topic.stored().take(n)) == Ok::<
            Seq<PartitionView>,
            ErrorView,
        >(topic.partitions.take(n)),
    decreases n,
{
    if n == 0 {
        assert(topic.partitions.take(0) =~= Seq::empty());
    } else {
        lemma_reopen(base_dir, topic, messages, n - 1);
        let p = topic.partitions[n - 1];
        law_partition_restart(base_dir, p, messages[n - 1]);
        assert(topic.stored().take(n).drop_last() =~= topic.stored().take(n - 1));
        assert(topic.stored().take(n).last() == p.log.stored());
        assert(topic.partitions.take(n - 1).push(p) =~= topic.partitions.take(n));
    }
}

/// Reopening the files of a topic gives the topic that wrote them.
pub proof fn law_topic_restart(
    base_dir: Seq<char>,
    topic: TopicView,
    messages: Seq<Seq<Seq<u8>>>,
)
    requires
        topic.holds(messages),
        topic.placed(base_dir),
    ensures
        partitions_openable(base_dir, topic.name, topic.stored()),
        TopicView::opened(base_dir, topic.name, topic.stored()) == Ok::<TopicView, ErrorView>(
            topic,
        ),
{
    let n = topic.partitions.len() as int;
    lemma_reopen(base_dir, topic, messages, n);
    assert(topic.stored().take(n) =~= topic.stored());
    assert(topic.partitions.take(n) =~= topic.partitions);
}

proof fn lemma_new(base_dir: Seq<char>, name: Seq<char>, n: nat)
    requires
        n <= u32::MAX,
    ensures
        partitions_openable(base_dir, name, new_topic_files(n)),
        open_partitions(base_dir, name, new_topic_files(n)) matches Ok(partitions) && {
            let topic = TopicView { name, partitions };
            &&& topic.holds(Seq::new(n, |i: int| Seq::empty()))
            &&& topic.placed(base_dir)
            &&& partitions.len() == n
            &&& forall|i: int|
                0 <= i < n ==> (#[trigger] partitions[i]).high_water_mark == 0
        },
    decreases n,
{
    if n > 0 {
        let m = (n - 1) as nat;
        lemma_new(base_dir, name, m);
        law_partition_new(base_dir, name, m as u32);
        assert(new_topic_files(n).drop_last() =~= new_topic_files(m));
        let before = open_partitions(base_dir, name, new_topic_files(m))->Ok_0;
        let partitions = open_partitions(base_dir, name, new_topic_files(n))->Ok_0;
        let old_topic = TopicView { name, partitions: before };
        assert forall|i: int| 0 <= i < n implies (#[trigger] partitions[i]).high_water_mark == 0
            && partitions[i].holds(Seq::empty()) && partitions[i].topic == name
            && partitions[i].id == i && partitions[i].log.dir == dir_of(base_dir, name, i as u32)
            && partitions[i].log.max_segment_bytes == DEFAULT_MAX_SEGMENT_BYTES by {
            if i < m {
                assert(partitions[i] == before[i]);
                assert(old_topic.partitions[i] == before[i]);
                assert(Seq::new(m, |i: int| Seq::<Seq<u8>>::empty())[i] == Seq::<
                    Seq<u8>,
                >::empty());
            }
        }
    }
}

/// A topic that has nothing on disk gets the partitions asked for, all of them empty.
pub proof fn law_topic_new(base_dir: Seq<char>, name: Seq<char>, partition_count: u32)
    ensures
        partitions_openable(base_dir, name, Seq::empty()),
        TopicView::opened(
            base_dir,
            name,
            files_to_open(partition_count, Seq::empty()),
        ) matches Ok(topic) && topic.holds(
            Seq::new(partition_count as nat, |i: int| Seq::empty()),
        ) && topic.placed(base_dir) && topic.partitions.len() == partition_count
            && topic.total() == 0 && topic.name == name && topic.stored() == new_topic_files(
            partition_count as nat,
        ),
{
    let n = partition_count as nat;
    lemma_new(base_dir, name, n);
    law_topic_open_keeps_files(base_dir, name, new_topic_files(n));
    let topic = TopicView::opened(base_dir, name, new_topic_files(n))->Ok_0;
    lemma_total_zero(topic.partitions);
}

/// Opening a topic leaves its files as they are, whatever they hold.
pub proof fn law_topic_open_keeps_files(
    base_dir: Seq<char>,
    name: Seq<char>,
    stored: Seq<Seq<StoredView>>,
)
    ensures
        TopicView::opened(base_dir, name, stored) matches Ok(topic) ==> topic.stored() == stored
            && topic.name == name,
    decreases stored.len(),
{
    if let Ok(partitions) = open_partitions(base_dir, name, stored) {
        let topic = TopicView { name, partitions };
        if stored.len() > 0 {
            law_topic_open_keeps_files(base_dir, name, stored.drop_last());
            law_partition_open_keeps_files(
                base_dir,
                name,
                (stored.len() - 1) as u32,
                stored.last(),
            );
            let before = TopicView { name, partitions: partitions.drop_last() };
            assert(open_partitions(base_dir, name, stored.drop_last())->Ok_0
                =~= partitions.drop_last());
            assert(topic.stored().drop_last() =~= before.stored());
            assert(topic.stored().last() == stored.last());
            assert(topic.stored() =~= topic.stored().drop_last().push(stored.last()));
            assert(stored =~= stored.drop_last().push(stored.last()));
        } else {
            assert(topic.stored() =~= stored);
        }
    }
}

/// A topic that already exists is opened with the partitions it has on disk, as they
/// are, however many are asked for.
pub proof fn law_topic_resized(
    base_dir: Seq<char>,
    topic: TopicView,
    messages: Seq<Seq<Seq<u8>>>,
    partition_count: u32,
)
    requires
        topic.holds(messages),
        topic.placed(base_dir),
        topic.partitions.len() > 0,
    ensures
        partitions_openable(base_dir, topic.name, topic.stored()),
        TopicView::opened(
            base_dir,
            topic.name,
            files_to_open(partition_count, topic.stored()),
        ) == Ok::<TopicView, ErrorView>(topic),
{
    law_topic_restart(base_dir, topic, messages);
}

proof fn lemma_total_zero(partitions: Seq<PartitionView>)
    requires
        forall|i: int|
            0 <= i < partitions.len() ==> (#[trigger] partitions[i]).high_water_mark == 0,
    ensures
        total_of(partitions) == 0,
    decreases partitions.len(),
{
    if partitions.len() > 0 {
        let init = partitions.drop_last();
        assert forall|i: int| 0 <= i < init.len() implies (#[trigger] init[i]).high_water_mark
            == 0 by {
            assert(init[i] == partitions[i]);
        }
        lemma_total_zero(init);
    }
}

/// A message can be routed if there is a partition and, without a key, the sum of the
/// high-water marks is within 64 bits. There is room for it if it can be routed and the
/// partition that it goes to has room.
pub proof fn law_routable(topic: TopicView, key: Option<Seq<u8>>, n: nat, spare: FilesView)
    requires
        topic.partitions.len() <= u32::MAX,
    ensures
        ({
            let count = topic.partitions.len() as int;
            let sum = topic.partitions.map_values(
                |p: PartitionView| p.high_water_mark as int,
            ).fold_left(0, |sum: int, mark: int| sum + mark);
            let id = match key {
                Some(k) => DefaultHasher::spec_finish(hash_writes(k)) as int % count,
                None => sum % count,
            };
            &&& topic.routable(key) <==> count > 0 && (key is None ==> sum <= u64::MAX)
            &&& topic.has_room(key, n, spare) <==> count > 0 && (key is None ==> sum <= u64::MAX)
                && topic.partitions[id].log.has_room(n, spare)
        }),
{
    law_total_is_sum(topic);
    if topic.partitions.len() > 0 {
        match key {
            Some(k) => law_keyed_route(topic, k, Seq::empty(), spare),
            None => law_keyless_route(topic, Seq::empty(), spare),
        }
    }
}

/// Whatever a topic holds, a produce is an append to the partition that the key's hash
/// or the message total gives, is answered with what the append returned, and leaves
/// the other partitions as they were.
pub proof fn law_produce_effect(
    topic: TopicView,
    key: Option<Seq<u8>>,
    payload: Seq<u8>,
    spare: FilesView,
)
    requires
        0 < topic.partitions.len() <= u32::MAX,
    ensures
        ({
            let count = topic.partitions.len() as int;
            let sum = topic.partitions.map_values(
                |p: PartitionView| p.high_water_mark as int,
            ).fold_left(0, |sum: int, mark: int| sum + mark);
            let id = match key {
                Some(k) => DefaultHasher::spec_finish(hash_writes(k)) as int % count,
                None => sum % count,
            };
            let (after, r) = topic.produce(key, payload, spare);
            let (appended, offset) = topic.partitions[id].append(payload, spare);
            &&& after.name == topic.name
            &&& after.partitions.len() == count
            &&& after.partitions[id] == appended
            &&& forall|i: int|
                0 <= i < count && i != id ==> #[trigger] after.partitions[i] == topic.partitions[i]
            &&& offset matches Ok(offset) ==> r == Ok::<(u32, u64), ErrorView>((id as u32, offset))
            &&& offset matches Err(e) ==> r == Err::<(u32, u64), ErrorView>(e) && after == topic
        }),
{
    match key {
        Some(k) => law_keyed_route(topic, k, payload, spare),
        None => law_keyless_route(topic, payload, spare),
    }
    let id = topic.select(key) as int;
    let (after, r) = topic.produce(key, payload, spare);
    law_high_water_mark(topic.partitions[id], payload, spare);
    if r is Err {
        assert(after.partitions =~= topic.partitions);
    }
}

/// A fetch from a topic is the fetch from that partition.
pub proof fn law_topic_fetch(topic: TopicView, partition_id: u32, offset: u64, max: nat)
    requires
        partition_id < topic.partitions.len(),
    ensures
        topic.fetch(partition_id, offset, max) == topic.partitions[partition_id as int].fetch(
            offset,
            max,
        ),
        topic.fetchable(partition_id, offset, max)
            <==> topic.partitions[partition_id as int].fetchable(offset, max),
{
}

/// Stored partitions that can all be opened make a topic of just these, numbered in
/// their order. Otherwise the first that cannot be opened decides: its error is the
/// answer, or, if it has no segments in order that can be scanned, there is none.
pub proof fn law_open_partitions(
    base_dir: Seq<char>,
    name: Seq<char>,
    stored: Seq<Seq<StoredView>>,
    k: int,
)
    requires
        0 <= k <= stored.len() <= u32::MAX,
        forall|i: int|
            0 <= i < k ==> (#[trigger] stored[i]).len() > 0 && stored_ascending(stored[i])
                && openable(stored[i], 0x4000_0000) && PartitionView::opened(
                base_dir,
                name,
                i as u32,
                stored[i],
            ) is Ok,
    ensures
        k == stored.len() ==> {
            &&& partitions_openable(base_dir, name, stored)
            &&& TopicView::opened(base_dir, name, stored) matches Ok(topic) && topic.name == name
                && topic.partitions.len() == k && forall|i: int|
                0 <= i < k ==> PartitionView::opened(base_dir, name, i as u32, stored[i]) == Ok::<
                    PartitionView,
                    ErrorView,
                >(#[trigger] topic.partitions[i])
        },
        k < stored.len() && (stored[k].len() == 0 || !stored_ascending(stored[k]) || !openable(
            stored[k],
            0x4000_0000,
        )) ==> !partitions_openable(base_dir, name, stored),
        k < stored.len() && stored[k].len() > 0 && stored_ascending(stored[k]) && openable(
            stored[k],
            0x4000_0000,
        ) ==> (PartitionView::opened(base_dir, name, k as u32, stored[k]) matches Err(e)
            ==> partitions_openable(base_dir, name, stored) && TopicView::opened(
            base_dir,
            name,
            stored,
        ) == Err::<TopicView, ErrorView>(e)),
{
    lemma_all_open(base_dir, name, stored.take(k));
    assert(stored.take(stored.len() as int) =~= stored);
    if k < stored.len() {
        let head = stored.take(k + 1);
        assert(head.drop_last() =~= stored.take(k));
        assert(head.last() == stored[k]);
        lemma_openable_prefix(base_dir, name, stored, k + 1);
        if PartitionView::opened(base_dir, name, k as u32, stored[k]) is Err {
            lemma_open_error_prefix(base_dir, name, stored, k + 1);
        }
    }
}

proof fn lemma_all_open(base_dir: Seq<char>, name: Seq<char>, stored: Seq<Seq<StoredView>>)
    requires
        stored.len() <= u32::MAX,
        forall|i: int|
            0 <= i < stored.len() ==> (#[trigger] stored[i]).len() > 0 && stored_ascending(
                stored[i],
            ) && openable(stored[i], 0x4000_0000) && PartitionView::opened(
                base_dir,
                name,
                i as u32,
                stored[i],
            ) is Ok,
    ensures
        partitions_openable(base_dir, name, stored),
        open_partitions(base_dir, name, stored) matches Ok(partitions) && partitions.len()
            == stored.len() && forall|i: int|
            0 <= i < stored.len() ==> PartitionView::opened(base_dir, name, i as u32, stored[i])
                == Ok::<PartitionView, ErrorView>(#[trigger] partitions[i]),
    decreases stored.len(),
{
    if stored.len() > 0 {
        let init = stored.drop_last();
        assert forall|i: int| 0 <= i < init.len() implies (#[trigger] init[i]).len() > 0
            && stored_ascending(init[i]) && openable(init[i], 0x4000_0000)
            && PartitionView::opened(base_dir, name, i as u32, init[i]) is Ok by {
            assert(init[i] == stored[i]);
        }
        lemma_all_open(base_dir, name, init);
        let before = open_partitions(base_dir, name, init)->Ok_0;
        let partitions = open_partitions(base_dir, name, stored)->Ok_0;
        assert(stored[stored.len() - 1].len() > 0);
        assert forall|i: int| 0 <= i < stored.len() implies PartitionView::opened(
            base_dir,
            name,
            i as u32,
            stored[i],
        ) == Ok::<PartitionView, ErrorView>(#[trigger] partitions[i]) by {
            if i < init.len() {
                assert(partitions[i] == before[i]);
                assert(init[i] == stored[i]);
            }
        }
    }
}

} // verus!
