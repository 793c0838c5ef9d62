//! The append-only, segmented log of one partition.

pub mod index;
pub mod listing;
pub mod names;
pub mod segment;

use crate::error::{seen, seen_option, Error, ErrorView};
use crate::log::index::{encode_entry, entry_bytes};
use crate::log::names::{base_of_name, base_offset_of};
use crate::log::segment::{
    encode_frame, frame_length, law_segment_append, law_segment_new, law_segment_read,
    law_segment_resized, law_segment_restart, lemma_log_size, length_field, message_frame,
    scannable, storable, FilesView, Segment, SegmentFiles, SegmentView,
};
use vstd::prelude::*;

verus! {

/// Default maximum size of a single segment file (1 GiB).
pub const DEFAULT_MAX_SEGMENT_BYTES: u64 = 1024 * 1024 * 1024;

/// A segment as it was found in a log directory.
pub struct StoredSegment {
    pub base_offset: u64,
    pub files: SegmentFiles,
}

/// A segment as it was found in a log directory.
#[verifier::ext_equal]
pub struct StoredView {
    pub base_offset: u64,
    pub files: FilesView,
}

impl View for StoredSegment {
    type V = StoredView;

    open spec fn view(&self) -> StoredView {
        StoredView { base_offset: self.base_offset, files: self.files@ }
    }
}

/// Stored segments by their contents.
pub open spec fn stored_views(stored: Seq<StoredSegment>) -> Seq<StoredView> {
    stored.map_values(|s: StoredSegment| s@)
}

/// Bytes that an append adds to the two files of one segment.
pub struct Write {
    /// The segment's base offset, which names its files.
    pub base_offset: u64,
    /// Bytes for the end of the `.log` file.
    pub frame: Vec<u8>,
    /// Bytes for the end of the `.index` file.
    pub entry: Vec<u8>,
}

/// Bytes that an append adds to the two files of one segment.
#[verifier::ext_equal]
pub struct WriteView {
    pub base_offset: u64,
    pub frame: Seq<u8>,
    pub entry: Seq<u8>,
}

impl View for Write {
    type V = WriteView;

    open spec fn view(&self) -> WriteView {
        WriteView { base_offset: self.base_offset, frame: self.frame@, entry: self.entry@ }
    }
}

/// An append-only, segmented log for one partition.
///
/// Reads are routed to the correct segment via binary search on base offsets.
/// Writes always go to the last (active) segment.
pub struct Log {
    /// Directory that holds all segment and index files.
    pub(crate) dir: String,
    /// All segments, ordered by base_offset ascending.
    /// The last element is the active (writable) segment.
    pub(crate) segments: Vec<Segment>,
    /// Whether `segments` is known to be in order. It stays so unless a full segment
    /// whose stored offsets lie below its name makes a roll go back.
    pub(crate) in_order: bool,
    /// Maximum bytes per segment before a new one is created.
    pub(crate) max_segment_bytes: u64,
}

/// What a log holds.
#[verifier::ext_equal]
pub struct LogView {
    pub dir: Seq<char>,
    pub segments: Seq<SegmentView>,
    pub max_segment_bytes: u64,
}

/// Segments by their contents.
pub open spec fn segment_views(segments: Seq<Segment>) -> Seq<SegmentView> {
    segments.map_values(|s: Segment| s@)
}

impl View for Log {
    type V = LogView;

    open(crate) spec fn view(&self) -> LogView {
        LogView {
            dir: self.dir@,
            segments: segment_views(self.segments@),
            max_segment_bytes: self.max_segment_bytes,
        }
    }
}

/// The base offsets that the names in a directory give, in the order of the names.
pub open spec fn named_bases(names: Seq<Seq<char>>) -> Seq<u64>
    decreases names.len(),
{
    if names.len() == 0 {
        Seq::empty()
    } else {
        match base_of_name(names.last()) {
            Some(base) => named_bases(names.drop_last()).push(base),
            None => named_bases(names.drop_last()),
        }
    }
}

/// The base offsets of the segments to open: those of the directory, or a first
/// segment at 0 if the directory has none.
pub open spec fn bases_to_open(names: Seq<Seq<char>>) -> Seq<u64> {
    if named_bases(names).len() == 0 {
        seq![0u64]
    } else {
        named_bases(names)
    }
}

/// Numbers in ascending order, equal ones allowed.
pub open spec fn ascending(s: Seq<u64>) -> bool {
    forall|i: int, j: int| 0 <= i < j < s.len() ==> #[trigger] s[i] <= #[trigger] s[j]
}

/// Stored segments in ascending order of base offset.
pub open spec fn stored_ascending(stored: Seq<StoredView>) -> bool {
    forall|i: int, j: int|
        0 <= i < j < stored.len() ==> (#[trigger] stored[i]).base_offset <= (
        #[trigger] stored[j]).base_offset
}

/// Open segments one after the other, up to the first that cannot be opened.
pub open spec fn open_segments(stored: Seq<StoredView>, max_bytes: u64) -> Result<
    Seq<SegmentView>,
    ErrorView,
>
    decreases stored.len(),
{
    if stored.len() == 0 {
        Ok(Seq::empty())
    } else {
        match open_segments(stored.drop_last(), max_bytes) {
            Err(e) => Err(e),
            Ok(segments) => match SegmentView::opened(
                stored.last().files,
                stored.last().base_offset,
                max_bytes,
            ) {
                Err(e) => Err(e),
                Ok(segment) => Ok(segments.push(segment)),
            },
        }
    }
}

/// Every segment that opening gets to can be scanned.
pub open spec fn openable(stored: Seq<StoredView>, max_bytes: u64) -> bool
    decreases stored.len(),
{
    stored.len() == 0 || {
        &&& openable(stored.drop_last(), max_bytes)
        &&& open_segments(stored.drop_last(), max_bytes) is Ok ==> scannable(
            stored.last().files.log,
        )
    }
}

/// How an attempt to open stored data ends.
#[derive(PartialEq, Eq, Structural)]
pub enum Opening {
    /// It succeeds.
    Opens,
    /// It returns an error.
    Fails,
    /// It meets a file that cannot be scanned.
    Unreadable,
}

pub open spec fn opening(openable: bool, opens: bool) -> Opening {
    if !openable {
        Opening::Unreadable
    } else if opens {
        Opening::Opens
    } else {
        Opening::Fails
    }
}

impl LogView {
    /// The last segment, which takes the writes.
    pub open spec fn active(self) -> SegmentView {
        self.segments.last()
    }

    /// The segments stand in ascending order of base offset.
    pub open spec fn ordered(self) -> bool {
        forall|i: int, j: int|
            0 <= i < j < self.segments.len() ==> (#[trigger] self.segments[i]).base_offset <= (
            #[trigger] self.segments[j]).base_offset
    }

    /// The last of the first `n` segments that starts at or before `offset`, or
    /// the first segment if none does.
    pub open spec fn owner_among(self, n: int, offset: u64) -> int
        decreases n,
    {
        if n <= 1 {
            0
        } else if self.segments[n - 1].base_offset <= offset {
            n - 1
        } else {
            self.owner_among(n - 1, offset)
        }
    }

    /// The segment that owns `offset`.
    pub open spec fn owner(self, offset: u64) -> int {
        self.owner_among(self.segments.len() as int, offset)
    }

    /// The segment that a roll opens from the files named after the next offset.
    pub open spec fn rolled(self, spare: FilesView) -> Result<SegmentView, ErrorView> {
        SegmentView::opened(spare, self.active().next_offset, self.max_segment_bytes)
    }

    /// One more message of `n` bytes can be numbered and placed: the segment that
    /// takes it has an offset left to give, none below its base, and its size stays
    /// within 64 bits. A segment opened for it has no frame shorter than its own
    /// offset field.
    pub open spec fn has_room(self, n: nat, spare: FilesView) -> bool {
        if self.active().full() {
            &&& scannable(spare.log)
            &&& self.rolled(spare) matches Ok(segment) ==> segment.has_room(n)
        } else {
            self.active().has_room(n)
        }
    }

    /// Append a message, to a new segment if the active one is full: the log
    /// afterwards, and the offset that the message got.
    pub open spec fn append(self, payload: Seq<u8>, spare: FilesView) -> (
        LogView,
        Result<u64, ErrorView>,
    ) {
        if self.active().full() {
            match self.rolled(spare) {
                Err(e) => (self, Err(e)),
                Ok(segment) => (
                    LogView { segments: self.segments.push(segment.append(payload)), ..self },
                    Ok(segment.next_offset),
                ),
            }
        } else {
            (
                LogView {
                    segments: self.segments.update(
                        self.segments.len() - 1,
                        self.active().append(payload),
                    ),
                    ..self
                },
                Ok(self.active().next_offset),
            )
        }
    }

    /// What an append adds to the files of which segment.
    pub open spec fn stage(self, payload: Seq<u8>, spare: FilesView) -> Result<
        WriteView,
        ErrorView,
    > {
        if self.active().full() {
            match self.rolled(spare) {
                Err(e) => Err(e),
                Ok(segment) => Ok(write_to_segment(segment, payload)),
            }
        } else {
            Ok(write_to_segment(self.active(), payload))
        }
    }

    pub open spec fn readable(self, offset: u64) -> bool {
        self.segments[self.owner(offset)].readable(offset)
    }

    /// The payload at `offset`.
    pub open spec fn read(self, offset: u64) -> Result<Option<Seq<u8>>, ErrorView> {
        self.segments[self.owner(offset)].read(offset)
    }

    /// The segments as a directory holds them.
    pub open spec fn stored(self) -> Seq<StoredView> {
        self.segments.map_values(
            |s: SegmentView| StoredView { base_offset: s.base_offset, files: s.files() },
        )
    }
}

/// What a message adds to the files of `segment`.
pub open spec fn write_to_segment(segment: SegmentView, payload: Seq<u8>) -> WriteView {
    WriteView {
        base_offset: segment.base_offset,
        frame: message_frame(segment.next_offset, payload),
        entry: entry_bytes((segment.next_offset - segment.base_offset) as nat, segment.size),
    }
}

/// Put a number into its place in an ascending list.
fn insert_ascending(v: &mut Vec<u64>, x: u64)
    requires
        ascending(old(v)@),
    ensures
        ascending(final(v)@),
        final(v)@.to_multiset() == old(v)@.to_multiset().insert(x),
{
    let mut i: usize = v.len();
    while i > 0 && v[i - 1] > x
        invariant
            i <= v@.len(),
            ascending(v@),
            forall|k: int| i <= k < v@.len() ==> x < #[trigger] v@[k],
        ensures
            i <= v@.len(),
            i > 0 ==> v@[i - 1] <= x,
            forall|k: int| i <= k < v@.len() ==> x < #[trigger] v@[k],
        decreases i,
    {
        i = i - 1;
    }
    let ghost before = v@;
    v.insert(i, x);
    proof {
        before.insert_ensures(i as int, x);
        broadcast use vstd::seq_lib::group_to_multiset_ensures;

        assert(v@.remove(i as int) =~= before);
        assert(v@[i as int] == x);
        assert(v@.contains(x));
        assert(v@.to_multiset() =~= before.to_multiset().insert(x));
    }
}

/// Names by their characters.
pub open spec fn name_views(names: Seq<String>) -> Seq<Seq<char>> {
    names.map_values(|s: String| s@)
}

impl Log {
    /// There is an active segment, and the segments are in order where the log says
    /// so.
    pub open(crate) spec fn wf(&self) -> bool {
        &&& self.segments@.len() > 0
        &&& forall|i: int| 0 <= i < self.segments@.len() ==> (#[trigger] self.segments@[i]).wf()
        &&& self.in_order ==> self@.ordered()
    }

    /// The base offsets of the segments to open, ascending, given the names in the
    /// log's directory.
    ///
    /// Names that are not those of `.log` files are skipped. A directory without
    /// segments starts with one at offset 0.
    pub fn base_offsets(names: &Vec<String>) -> (bases: Vec<u64>)
        ensures
            ascending(bases@),
            bases@.to_multiset() == bases_to_open(name_views(names@)).to_multiset(),
            bases@.len() == bases_to_open(name_views(names@)).len(),
    {
        let mut bases: Vec<u64> = Vec::new();
        let ghost views = name_views(names@);
        let mut i: usize = 0;
        proof {
            assert(views.take(0) =~= Seq::empty());
        }
        while i < names.len()
            invariant
                i <= names@.len(),
                views == name_views(names@),
                ascending(bases@),
                bases@.to_multiset() == named_bases(views.take(i as int)).to_multiset(),
            decreases names@.len() - i,
        {
            proof {
                let head = views.take(i + 1);
                assert(head.drop_last() =~= views.take(i as int));
                assert(head.last() == names@[i as int]@);
                broadcast use vstd::seq_lib::group_to_multiset_ensures;

            }
            match base_offset_of(names[i].as_str()) {
                Some(base) => {
                    insert_ascending(&mut bases, base);
                },
                None => {},
            }
            i = i + 1;
        }
        proof {
            assert(views.take(i as int) =~= views);
            bases@.to_multiset_ensures();
            named_bases(views).to_multiset_ensures();
        }
        if bases.len() == 0 {
            bases.push(0u64);
            assert(bases@ =~= seq![0u64]);
        }
        bases
    }

    /// How opening these segments will end.
    pub fn probe(stored: &Vec<StoredSegment>, max_segment_bytes: u64) -> (r: Opening)
        ensures
            r == opening(
                openable(stored_views(stored@), max_segment_bytes),
                open_segments(stored_views(stored@), max_segment_bytes) is Ok,
            ),
            r is Unreadable <==> !openable(stored_views(stored@), max_segment_bytes),
            r is Opens <==> openable(stored_views(stored@), max_segment_bytes) && open_segments(
                stored_views(stored@),
                max_segment_bytes,
            ) is Ok,
    {
        let ghost views = stored_views(stored@);
        let mut i: usize = 0;
        assert(views.take(0) =~= Seq::empty());
        while i < stored.len()
            invariant
                i <= stored@.len(),
                views == stored_views(stored@),
                openable(views.take(i as int), max_segment_bytes),
                open_segments(views.take(i as int), max_segment_bytes) is Ok,
            decreases stored@.len() - i,
        {
            proof {
                let head = views.take(i + 1);
                assert(head.drop_last() =~= views.take(i as int));
                assert(head.last() == stored@[i as int]@);
                lemma_openable_prefix(views, i + 1, max_segment_bytes);
            }
            if !Segment::is_scannable(&stored[i].files.log) {
                return Opening::Unreadable;
            }
            if Segment::recover_next_offset(&stored[i].files.log, stored[i].base_offset).is_err() {
                proof {
                    lemma_open_error_prefix(views, i + 1, max_segment_bytes);
                }
                return Opening::Fails;
            }
            i = i + 1;
        }
        assert(views.take(i as int) =~= views);
        Opening::Opens
    }

    /// Open a log from the segments stored in `dir`, with the default segment size.
    pub fn open(dir: &str, stored: Vec<StoredSegment>) -> (r: Result<Log, Error>)
        requires
            stored@.len() > 0,
            stored_ascending(stored_views(stored@)),
            openable(stored_views(stored@), DEFAULT_MAX_SEGMENT_BYTES),
        ensures
            seen(r) == (match open_segments(stored_views(stored@), DEFAULT_MAX_SEGMENT_BYTES) {
                Err(e) => Err(e),
                Ok(segments) => Ok(
                    LogView {
                        dir: dir@,
                        segments,
                        max_segment_bytes: DEFAULT_MAX_SEGMENT_BYTES,
                    },
                ),
            }),
            r matches Ok(log) ==> log.wf(),
    {
        Log::open_with_max_bytes(dir, stored, DEFAULT_MAX_SEGMENT_BYTES)
    }

    /// Open a log from the segments stored in `dir`.
    pub fn open_with_max_bytes(
        dir: &str,
        stored: Vec<StoredSegment>,
        max_segment_bytes: u64,
    ) -> (r: Result<Log, Error>)
        requires
            stored@.len() > 0,
            stored_ascending(stored_views(stored@)),
            openable(stored_views(stored@), max_segment_bytes),
        ensures
            seen(r) == (match open_segments(stored_views(stored@), max_segment_bytes) {
                Err(e) => Err(e),
                Ok(segments) => Ok(LogView { dir: dir@, segments, max_segment_bytes }),
            }),
            r matches Ok(log) ==> log.wf(),
    {
        let ghost views = stored_views(stored@);
        let mut segments: Vec<Segment> = Vec::new();
        assert(views.take(0) =~= Seq::empty());
        assert(segment_views(segments@) =~= Seq::empty());
        for s in it: stored.into_iter()
            invariant
                it.seq() == stored@,
                views == stored_views(stored@),
                stored_ascending(views),
                openable(views, max_segment_bytes),
                segments@.len() == it.index(),
                open_segments(views.take(it.index()), max_segment_bytes) == Ok::<
                    Seq<SegmentView>,
                    ErrorView,
                >(segment_views(segments@)),
                forall|i: int| 0 <= i < segments@.len() ==> (#[trigger] segments@[i]).wf(),
                forall|i: int|
                    0 <= i < segments@.len() ==> (#[trigger] segments@[i]).base_offset
                        == views[i].base_offset,
        {
            proof {
                let head = views.take(it.index() + 1);
                assert(head.drop_last() =~= views.take(it.index()));
                assert(head.last() == s@);
                lemma_openable_prefix(views, it.index() + 1, max_segment_bytes);
            }
            match Segment::open(s.files, s.base_offset, max_segment_bytes) {
                Err(e) => {
                    proof {
                        lemma_open_error_prefix(views, it.index() + 1, max_segment_bytes);
                    }
                    return Err(e);
                },
                Ok(segment) => {
                    let ghost before = segment_views(segments@);
                    segments.push(segment);
                    assert(segment_views(segments@) =~= before.push(segment@));
                },
            }
        }
        assert(views.take(views.len() as int) =~= views);
        let log: Log = Log { dir: dir.to_owned(), segments, in_order: true, max_segment_bytes };
        proof {
            assert forall|i: int, j: int| 0 <= i < j < log@.segments.len() implies (
            #[trigger] log@.segments[i]).base_offset <= (
            #[trigger] log@.segments[j]).base_offset by {
                assert(log.segments@[i].base_offset == views[i].base_offset);
                assert(log.segments@[j].base_offset == views[j].base_offset);
            }
        }
        Ok(log)
    }
}

impl Log {
    /// Whether one more message can be numbered and placed.
    ///
    /// It cannot where the segment that takes it has no offset left to give, would
    /// give one below its own base (its stored offsets are damaged), or would grow
    /// past 64 bits, nor where the files in `spare` hold a frame shorter than its own
    /// offset field.
    pub fn can_append(&self, payload: &[u8], spare: &SegmentFiles) -> (b: bool)
        requires
            self.wf(),
        ensures
            b == self@.has_room(payload@.len(), spare@),
    {
        let active: &Segment = self.active_segment();
        if !active.is_full() {
            return active.can_append(payload);
        }
        if !Segment::is_scannable(&spare.log) {
            return false;
        }
        match Segment::recover_next_offset(&spare.log, active.next_offset) {
            Err(_) => true,
            Ok(next_offset) => can_place(
                active.next_offset,
                next_offset,
                spare.log.len() as u64,
                payload,
            ),
        }
    }

    /// What an append of `payload` adds to the files of which segment.
    ///
    /// `spare` holds the files that a roll would open: the ones named after the
    /// next offset.
    pub fn stage(&self, payload: &[u8], spare: &SegmentFiles) -> (r: Result<Write, Error>)
        requires
            self.wf(),
            self@.has_room(payload@.len(), spare@),
        ensures
            seen(r) == self@.stage(payload@, spare@),
    {
        let active: &Segment = self.active_segment();
        if active.is_full() {
            let base_offset: u64 = active.next_offset;
            match Segment::recover_next_offset(&spare.log, base_offset) {
                Err(e) => Err(e),
                Ok(next_offset) => Ok(
                    Write {
                        base_offset,
                        frame: encode_frame(next_offset, payload),
                        entry: encode_entry(next_offset - base_offset, spare.log.len() as u64),
                    },
                ),
            }
        } else {
            Ok(
                Write {
                    base_offset: active.base_offset,
                    frame: encode_frame(active.next_offset, payload),
                    entry: encode_entry(active.next_offset - active.base_offset, active.size),
                },
            )
        }
    }

    /// Append a message to the log.
    ///
    /// If the active segment is full, a new segment is opened first, from the
    /// files in `spare`. Returns the absolute offset assigned to this message.
    pub fn append(&mut self, payload: &[u8], spare: SegmentFiles) -> (r: Result<u64, Error>)
        requires
            old(self).wf(),
            old(self)@.has_room(payload@.len(), spare@),
        ensures
            final(self).wf(),
            (final(self)@, seen(r)) == old(self)@.append(payload@, spare@),
    {
        if self.active_segment().is_full() {
            match self.roll(spare) {
                Ok(()) => {},
                Err(e) => return Err(e),
            }
        }
        let ghost before = *self;
        let last: usize = self.segments.len() - 1;
        assert(self@.active() == self.segments@[last as int]@);
        let offset: u64 = self.segments[last].append(payload);
        proof {
            assert(segment_views(self.segments@) =~= segment_views(before.segments@).update(
                last as int,
                segment_views(before.segments@)[last as int].append(payload@),
            ));
            assert forall|i: int| 0 <= i < self.segments@.len() implies (
            #[trigger] self.segments@[i]).wf() by {
                assert(before.segments@[i].wf());
            }
            assert forall|i: int, j: int|
                self.in_order && 0 <= i < j < self@.segments.len() implies (
            #[trigger] self@.segments[i]).base_offset <= (
            #[trigger] self@.segments[j]).base_offset by {
                assert(before@.segments[i].base_offset <= before@.segments[j].base_offset);
            }
            assert(self@ == old(self)@.append(payload@, spare@).0);
        }
        Ok(offset)
    }

    /// Whether a read of `offset` meets a frame that covers its own offset field.
    pub fn can_read(&self, offset: u64) -> (b: bool)
        requires
            self.wf(),
        ensures
            b == self@.readable(offset),
    {
        let i: usize = self.find_segment(offset);
        self.segments[i].can_read(offset)
    }

    /// Read the message at `offset`.
    ///
    /// Finds the correct segment via binary search, then delegates to it.
    /// Returns `None` if the offset doesn't exist in any segment.
    pub fn read(&self, offset: u64) -> (r: Result<Option<Vec<u8>>, Error>)
        requires
            self.wf(),
            self@.readable(offset),
        ensures
            seen_option(r) == self@.read(offset),
    {
        let i: usize = self.find_segment(offset);
        self.segments[i].read_at(offset)
    }

    /// The offset of the first message ever written (always the base of segment 0).
    pub fn oldest_offset(&self) -> (offset: u64)
        requires
            self.wf(),
        ensures
            offset == self@.segments[0].base_offset,
    {
        self.segments[0].base_offset
    }

    /// The offset that the next `append` call will assign.
    pub fn next_offset(&self) -> (offset: u64)
        requires
            self.wf(),
        ensures
            offset == self@.active().next_offset,
    {
        self.active_segment().next_offset
    }

    /// The segments as the log's directory holds them.
    pub fn stored(&self) -> (stored: Vec<StoredSegment>)
        ensures
            stored_views(stored@) == self@.stored(),
    {
        let mut stored: Vec<StoredSegment> = Vec::new();
        for i in 0..self.segments.len()
            invariant
                stored@.len() == i,
                forall|k: int|
                    0 <= k < stored@.len() ==> (#[trigger] stored@[k])@ == self@.stored()[k],
        {
            let segment: &Segment = &self.segments[i];
            stored.push(StoredSegment { base_offset: segment.base_offset, files: segment.files() });
        }
        assert(stored_views(stored@) =~= self@.stored());
        stored
    }

    /// Total number of segments (active + sealed).
    pub fn segment_count(&self) -> (n: usize)
        ensures
            n == self@.segments.len(),
    {
        self.segments.len()
    }

    /// The base offset of the segment that the next append has to open first, if
    /// the active one is full.
    pub fn roll_base(&self) -> (r: Option<u64>)
        requires
            self.wf(),
        ensures
            r == (if self@.active().full() {
                Some(self@.active().next_offset)
            } else {
                None
            }),
            r is Some <==> self@.active().size >= self@.active().max_bytes,
    {
        let active: &Segment = self.active_segment();
        if active.is_full() {
            Some(active.next_offset)
        } else {
            None
        }
    }

    // ── internals ────────────────────────────────────────────────────────────

    fn active_segment(&self) -> (segment: &Segment)
        requires
            self.wf(),
        ensures
            segment@ == self@.active(),
            *segment == self.segments@.last(),
    {
        &self.segments[self.segments.len() - 1]
    }

    /// Open a new segment whose base_offset is the current next_offset.
    fn roll(&mut self, spare: SegmentFiles) -> (r: Result<(), Error>)
        requires
            old(self).wf(),
            scannable(spare.log@),
        ensures
            final(self).wf(),
            match old(self)@.rolled(spare@) {
                Err(e) => r matches Err(x) && x@ == e && *final(self) == *old(self),
                Ok(segment) => r is Ok && final(self)@ == (LogView {
                    segments: old(self)@.segments.push(segment),
                    ..old(self)@
                }),
            },
    {
        let active: &Segment = self.active_segment();
        let new_base: u64 = active.next_offset;
        let ahead: bool = active.base_offset <= new_base;
        match Segment::open(spare, new_base, self.max_segment_bytes) {
            Err(e) => Err(e),
            Ok(segment) => {
                let ghost before = *self;
                self.segments.push(segment);
                self.in_order = self.in_order && ahead;
                proof {
                    assert(segment_views(self.segments@) =~= segment_views(before.segments@).push(
                        segment@,
                    ));
                    assert forall|i: int, j: int|
                        self.in_order && 0 <= i < j < self@.segments.len() implies (
                    #[trigger] self@.segments[i]).base_offset <= (
                    #[trigger] self@.segments[j]).base_offset by {
                        let n = before@.segments.len();
                        assert(before@.segments[i] == self@.segments[i]);
                        assert(before@.segments[i].base_offset <= before@.active().base_offset);
                    }
                }
                Ok(())
            },
        }
    }

    /// The segment that owns `offset`.
    ///
    /// Returns the index into `self.segments`. A segment owns offset `o` when:
    ///   segment.base_offset <= o < next_segment.base_offset
    ///
    /// The active segment catches everything >= its base_offset.
    fn find_segment(&self, offset: u64) -> (i: usize)
        requires
            self.wf(),
        ensures
            i == self@.owner(offset),
            i < self.segments@.len(),
    {
        if self.in_order {
            self.search_segment(offset)
        } else {
            self.scan_segments(offset)
        }
    }

    /// Walk back from the active segment to the one that owns `offset`.
    fn scan_segments(&self, offset: u64) -> (i: usize)
        requires
            self.wf(),
        ensures
            i == self@.owner(offset),
            i < self.segments@.len(),
    {
        let mut i: usize = self.segments.len() - 1;
        while i > 0 && self.segments[i].base_offset > offset
            invariant
                self.wf(),
                i < self.segments@.len(),
                self@.owner_among(i + 1, offset) == self@.owner(offset),
            ensures
                i < self.segments@.len(),
                self@.owner_among(i + 1, offset) == self@.owner(offset),
                i == 0 || self@.segments[i as int].base_offset <= offset,
            decreases i,
        {
            i = i - 1;
        }
        i
    }

    /// Binary search for the segment that owns `offset`.
    fn search_segment(&self, offset: u64) -> (i: usize)
        requires
            self.wf(),
            self.in_order,
        ensures
            i == self@.owner(offset),
            i < self.segments@.len(),
    {
        let mut lo: usize = 0;
        let mut hi: usize = self.segments.len();
        while lo < hi
            invariant
                self.wf(),
                self.in_order,
                lo <= hi <= self.segments@.len(),
                forall|k: int| 0 <= k < lo ==> (#[trigger] self@.segments[k]).base_offset <= offset,
                forall|k: int|
                    hi <= k < self.segments@.len() ==> (#[trigger] self@.segments[k]).base_offset
                        > offset,
            decreases hi - lo,
        {
            let mid: usize = lo + (hi - lo) / 2;
            assert(self@.segments[mid as int] == self.segments@[mid as int]@);
            if self.segments[mid].base_offset <= offset {
                lo = mid + 1;
            } else {
                hi = mid;
            }
        }
        let i: usize = if lo == 0 {
            0
        } else {
            lo - 1
        };
        proof {
            lemma_owner(self@, self.segments@.len() as int, i as int, offset);
        }
        i
    }
}

/// Whether a message fits a segment with these counters.
fn can_place(base_offset: u64, next_offset: u64, size: u64, payload: &[u8]) -> (b: bool)
    ensures
        b == (base_offset <= next_offset < u64::MAX && size + 4 + frame_length(payload@.len())
            <= u64::MAX),
{
    base_offset <= next_offset && next_offset < u64::MAX && size <= u64::MAX - (4 + length_field(
        payload,
    ))
}

/// The owner is the last segment that starts at or before the offset.
proof fn lemma_owner(log: LogView, n: int, i: int, offset: u64)
    requires
        0 <= i < n <= log.segments.len(),
        forall|k: int| i < k < n ==> (#[trigger] log.segments[k]).base_offset > offset,
        i > 0 ==> log.segments[i].base_offset <= offset,
    ensures
        log.owner_among(n, offset) == i,
    decreases n,
{
    if n > i + 1 {
        lemma_owner(log, n - 1, i, offset);
    }
}

/// Nothing that opening meets early is skipped later.
proof fn lemma_openable_prefix(stored: Seq<StoredView>, n: int, max_bytes: u64)
    requires
        0 <= n <= stored.len(),
    ensures
        openable(stored, max_bytes) ==> openable(stored.take(n), max_bytes),
    decreases stored.len() - n,
{
    if n == stored.len() {
        assert(stored.take(n) =~= stored);
    } else {
        lemma_openable_prefix(stored, n + 1, max_bytes);
        assert(stored.take(n + 1).drop_last() =~= stored.take(n));
    }
}

/// The first segment that cannot be opened decides.
proof fn lemma_open_error_prefix(stored: Seq<StoredView>, n: int, max_bytes: u64)
    requires
        0 <= n <= stored.len(),
        open_segments(stored.take(n), max_bytes) is Err,
    ensures
        open_segments(stored, max_bytes) == open_segments(stored.take(n), max_bytes),
        openable(stored, max_bytes) == openable(stored.take(n), max_bytes),
    decreases stored.len() - n,
{
    if n == stored.len() {
        assert(stored.take(n) =~= stored);
    } else {
        assert(stored.take(n + 1).drop_last() =~= stored.take(n));
        lemma_open_error_prefix(stored, n + 1, max_bytes);
    }
}

// ── Laws ─────────────────────────────────────────────────────────────────────

impl LogView {
    /// The offset of the first message.
    pub open spec fn oldest(self) -> u64 {
        self.segments[0].base_offset
    }

    /// Segment `i` holds its stretch of `messages`.
    pub open spec fn stretch_held(self, i: int, messages: Seq<Seq<u8>>) -> bool {
        let first = self.segments[i].base_offset - self.oldest();
        let end = self.segments[i].next_offset - self.oldest();
        &&& 0 <= first <= end <= messages.len()
        &&& self.segments[i].holds(messages.subrange(first, end))
        &&& self.segments[i].max_bytes == self.max_segment_bytes
    }

    /// The log holds exactly `messages`, numbered from its oldest offset: the
    /// segments follow each other without gap or overlap, and only the active one
    /// may be empty.
    pub open spec fn holds(self, messages: Seq<Seq<u8>>) -> bool {
        &&& self.segments.len() > 0
        &&& forall|i: int|
            0 <= i < self.segments.len() ==> #[trigger] self.stretch_held(i, messages)
        &&& forall|i: int, j: int|
            0 <= i < j < self.segments.len() ==> (#[trigger] self.segments[i]).base_offset
                < self.segments[i].next_offset <= (#[trigger] self.segments[j]).base_offset
        &&& forall|i: int, j: int|
            0 <= i && j == i + 1 && j < self.segments.len() ==> (
            #[trigger] self.segments[i]).next_offset == (#[trigger] self.segments[j]).base_offset
        &&& self.active().next_offset == self.oldest() + messages.len()
    }
}

/// The owner of an offset starts at or before it, and no later segment does. Only
/// the first segment may be sent an offset before its start.
pub proof fn law_owner(log: LogView, offset: u64)
    requires
        log.segments.len() > 0,
    ensures
        0 <= log.owner(offset) < log.segments.len(),
        log.owner(offset) > 0 ==> log.segments[log.owner(offset)].base_offset <= offset,
        forall|k: int|
            log.owner(offset) < k < log.segments.len() ==> (#[trigger] log.segments[k]).base_offset
                > offset,
{
    lemma_owner_among(log, log.segments.len() as int, offset);
}

proof fn lemma_owner_among(log: LogView, n: int, offset: u64)
    requires
        0 < n <= log.segments.len(),
    ensures
        0 <= log.owner_among(n, offset) < n,
        log.owner_among(n, offset) > 0 ==> log.segments[log.owner_among(n, offset)].base_offset
            <= offset,
        forall|k: int|
            log.owner_among(n, offset) < k < n ==> (#[trigger] log.segments[k]).base_offset
                > offset,
    decreases n,
{
    if n > 1 {
        lemma_owner_among(log, n - 1, offset);
    }
}

/// A read gives back exactly what was appended at that offset, whichever segment
/// it is in, and nothing for an offset that no message has.
pub proof fn law_log_read(log: LogView, messages: Seq<Seq<u8>>, offset: u64)
    requires
        log.holds(messages),
    ensures
        log.readable(offset),
        log.read(offset) == (if log.oldest() <= offset < log.oldest() + messages.len() {
            Ok::<Option<Seq<u8>>, ErrorView>(Some(messages[offset - log.oldest()]))
        } else {
            Ok::<Option<Seq<u8>>, ErrorView>(None)
        }),
{
    law_owner(log, offset);
    let n = log.segments.len() as int;
    let o = log.owner(offset);
    let segment = log.segments[o];
    assert(log.stretch_held(o, messages));
    let first = segment.base_offset - log.oldest();
    let end = segment.next_offset - log.oldest();
    law_segment_read(segment, messages.subrange(first, end), offset);
    if o + 1 < n {
        assert(log.segments[o + 1].base_offset == segment.next_offset);
    } else {
        assert(segment == log.active());
    }
}

/// An append gives the new message the next offset, and the log then holds it
/// after all the earlier ones, in the same segment or in a new one.
pub proof fn law_log_append(log: LogView, messages: Seq<Seq<u8>>, payload: Seq<u8>)
    requires
        log.holds(messages),
        storable(payload),
        log.max_segment_bytes > 0,
        log.has_room(payload.len(), no_files()),
        !log.active().full() ==> log.active().next_offset - log.active().base_offset
            < 0x1_0000_0000,
    ensures
        log.append(payload, no_files()).1 == Ok::<u64, ErrorView>(
            (log.oldest() + messages.len()) as u64,
        ),
        log.append(payload, no_files()).0.holds(messages.push(payload)),
        log.append(payload, no_files()).0.oldest() == log.oldest(),
        log.append(payload, no_files()).0.max_segment_bytes == log.max_segment_bytes,
{
    let next = log.append(payload, no_files()).0;
    let more = messages.push(payload);
    let n = log.segments.len() as int;
    let active = log.active();
    assert(log.stretch_held(n - 1, messages));
    let first = active.base_offset - log.oldest();
    let end = active.next_offset - log.oldest();
    let held = messages.subrange(first, end);
    if active.full() {
        law_segment_new(active.next_offset, log.max_segment_bytes);
        let fresh = log.rolled(no_files())->Ok_0;
        law_segment_append(fresh, Seq::empty(), payload);
        assert(Seq::<Seq<u8>>::empty().push(payload) =~= more.subrange(end, end + 1));
        if held.len() == 0 {
            assert(active.log.len() == 0);
        }
        assert forall|i: int| 0 <= i < next.segments.len() implies #[trigger] next.stretch_held(
            i,
            more,
        ) by {
            if i < n {
                assert(log.stretch_held(i, messages));
                assert(next.segments[i] == log.segments[i]);
                let a = log.segments[i].base_offset - log.oldest();
                let b = log.segments[i].next_offset - log.oldest();
                assert(more.subrange(a, b) =~= messages.subrange(a, b));
            }
        }
        assert forall|i: int, j: int| 0 <= i < j < next.segments.len() implies (
        #[trigger] next.segments[i]).base_offset < next.segments[i].next_offset <= (
        #[trigger] next.segments[j]).base_offset by {
            assert(next.segments[i] == log.segments[i]);
            if j < n {
                assert(next.segments[j] == log.segments[j]);
            } else if i < n - 1 {
                assert(log.segments[i].next_offset <= log.segments[n - 1].base_offset);
            }
        }
    } else {
        law_segment_append(active, held, payload);
        assert(held.push(payload) =~= more.subrange(first, end + 1));
        assert forall|i: int| 0 <= i < next.segments.len() implies #[trigger] next.stretch_held(
            i,
            more,
        ) by {
            assert(log.stretch_held(i, messages));
            if i < n - 1 {
                assert(next.segments[i] == log.segments[i]);
                let a = log.segments[i].base_offset - log.oldest();
                let b = log.segments[i].next_offset - log.oldest();
                assert(more.subrange(a, b) =~= messages.subrange(a, b));
            }
        }
        assert forall|i: int, j: int| 0 <= i < j < next.segments.len() implies (
        #[trigger] next.segments[i]).base_offset < next.segments[i].next_offset <= (
        #[trigger] next.segments[j]).base_offset by {
            assert(next.segments[i] == log.segments[i]);
            assert(log.segments[i].next_offset <= log.segments[j].base_offset);
        }
    }
}

/// What an append adds to the files is what was staged for it: the frame and the
/// entry go to the end of one segment's files, and nothing else changes.
pub proof fn law_append_writes_what_was_staged(log: LogView, payload: Seq<u8>, spare: FilesView)
    requires
        log.segments.len() > 0,
        log.has_room(payload.len(), spare),
    ensures
        log.append(payload, spare).1 is Ok <==> log.stage(payload, spare) is Ok,
        log.append(payload, spare).1 is Err ==> log.append(payload, spare).0 == log,
        log.stage(payload, spare) matches Ok(write) ==> {
            let after = log.append(payload, spare).0;
            let before = if log.active().full() {
                spare
            } else {
                log.active().files()
            };
            &&& after.active().base_offset == write.base_offset
            &&& after.active().log == before.log + write.frame
            &&& after.active().index == before.index + write.entry
            &&& after.segments.drop_last() == (if log.active().full() {
                log.segments
            } else {
                log.segments.drop_last()
            })
        },
{
    if log.stage(payload, spare) is Ok {
        let after = log.append(payload, spare).0;
        if log.active().full() {
            assert(after.segments.drop_last() =~= log.segments);
        } else {
            assert(after.segments.drop_last() =~= log.segments.drop_last());
        }
    }
}

proof fn lemma_reopen(log: LogView, messages: Seq<Seq<u8>>, n: int)
    requires
        log.holds(messages),
        0 <= n <= log.segments.len(),
    ensures
        openable(log.stored().take(n), log.max_segment_bytes),
        open_segments(log.stored().take(n), log.max_segment_bytes) == Ok::<
            Seq<SegmentView>,
            ErrorView,
        >(log.segments.take(n)),
    decreases n,
{
    if n == 0 {
        assert(log.segments.take(0) =~= Seq::empty());
    } else {
        lemma_reopen(log, messages, n - 1);
        let segment = log.segments[n - 1];
        assert(log.stretch_held(n - 1, messages));
        law_segment_restart(
            segment,
            messages.subrange(
                segment.base_offset - log.oldest(),
                segment.next_offset - log.oldest(),
            ),
        );
        assert(log.stored().take(n).drop_last() =~= log.stored().take(n - 1));
        assert(log.segments.take(n - 1).push(segment) =~= log.segments.take(n));
    }
}

/// Reopening the files of a log gives the log that wrote them.
pub proof fn law_log_restart(log: LogView, messages: Seq<Seq<u8>>)
    requires
        log.holds(messages),
    ensures
        stored_ascending(log.stored()),
        openable(log.stored(), log.max_segment_bytes),
        open_segments(log.stored(), log.max_segment_bytes) == Ok::<Seq<SegmentView>, ErrorView>(
            log.segments,
        ),
{
    let n = log.segments.len() as int;
    lemma_reopen(log, messages, n);
    assert(log.stored().take(n) =~= log.stored());
    assert(log.segments.take(n) =~= log.segments);
    assert forall|i: int, j: int| 0 <= i < j < log.stored().len() implies (
    #[trigger] log.stored()[i]).base_offset <= (#[trigger] log.stored()[j]).base_offset by {
        assert(log.segments[i].base_offset < log.segments[j].base_offset);
    }
}

/// Opening a log leaves its files as they are, whatever they hold.
pub proof fn law_log_open_keeps_files(
    dir: Seq<char>,
    stored: Seq<StoredView>,
    max_segment_bytes: u64,
)
    ensures
        open_segments(stored, max_segment_bytes) matches Ok(segments) ==> (LogView {
            dir,
            segments,
            max_segment_bytes,
        }).stored() == stored,
    decreases stored.len(),
{
    if let Ok(segments) = open_segments(stored, max_segment_bytes) {
        let log = LogView { dir, segments, max_segment_bytes };
        if stored.len() > 0 {
            law_log_open_keeps_files(dir, stored.drop_last(), max_segment_bytes);
            let before = LogView { dir, segments: segments.drop_last(), max_segment_bytes };
            assert(open_segments(stored.drop_last(), max_segment_bytes)->Ok_0
                =~= segments.drop_last());
            assert(log.stored().drop_last() =~= before.stored());
            assert(log.stored().last() == stored.last());
            assert(log.stored() =~= log.stored().drop_last().push(stored.last()));
            assert(stored =~= stored.drop_last().push(stored.last()));
        } else {
            assert(log.stored() =~= stored);
        }
    }
}

/// Restart with another segment size: every segment has the same files, base offset
/// and next offset as before and only the limit is new, and every read gives what it
/// gave.
pub proof fn law_log_resized(log: LogView, messages: Seq<Seq<u8>>, max_segment_bytes: u64)
    requires
        log.holds(messages),
    ensures
        openable(log.stored(), max_segment_bytes),
        open_segments(log.stored(), max_segment_bytes) matches Ok(segments) && {
            let resized = LogView { dir: log.dir, segments, max_segment_bytes };
            &&& segments.len() == log.segments.len()
            &&& forall|i: int|
                0 <= i < segments.len() ==> #[trigger] segments[i] == (SegmentView {
                    max_bytes: max_segment_bytes,
                    ..log.segments[i]
                })
            &&& resized.holds(messages)
            &&& resized.stored() == log.stored()
            &&& forall|offset: u64| #[trigger] resized.read(offset) == log.read(offset)
        },
{
    let n = log.segments.len() as int;
    lemma_resize(log, messages, max_segment_bytes, n);
    assert(log.stored().take(n) =~= log.stored());
    let segments = open_segments(log.stored(), max_segment_bytes)->Ok_0;
    let resized = LogView { dir: log.dir, segments, max_segment_bytes };
    assert forall|i: int| 0 <= i < n implies #[trigger] resized.stretch_held(i, messages) by {
        assert(log.stretch_held(i, messages));
        let first = log.segments[i].base_offset - log.oldest();
        let end = log.segments[i].next_offset - log.oldest();
        law_segment_resized(log.segments[i], messages.subrange(first, end), max_segment_bytes);
    }
    assert forall|i: int, j: int| 0 <= i < j < n implies (
    #[trigger] segments[i]).base_offset < segments[i].next_offset <= (
    #[trigger] segments[j]).base_offset by {
        assert(log.segments[i].next_offset <= log.segments[j].base_offset);
    }
    assert forall|i: int, j: int| 0 <= i && j == i + 1 && j < n implies (
    #[trigger] segments[i]).next_offset == (#[trigger] segments[j]).base_offset by {
        assert(log.segments[i].next_offset == log.segments[j].base_offset);
    }
    assert(resized.active() == segments[n - 1]);
    assert(resized.holds(messages));
    assert(resized.stored() =~= log.stored());
    assert forall|offset: u64| #[trigger] resized.read(offset) == log.read(offset) by {
        law_log_read(log, messages, offset);
        law_log_read(resized, messages, offset);
    }
}

proof fn lemma_resize(log: LogView, messages: Seq<Seq<u8>>, max_bytes: u64, n: int)
    requires
        log.holds(messages),
        0 <= n <= log.segments.len(),
    ensures
        openable(log.stored().take(n), max_bytes),
        open_segments(log.stored().take(n), max_bytes) matches Ok(segments) && segments.len() == n
            && forall|i: int|
            0 <= i < n ==> #[trigger] segments[i] == (SegmentView {
                max_bytes,
                ..log.segments[i]
            }),
    decreases n,
{
    if n > 0 {
        lemma_resize(log, messages, max_bytes, n - 1);
        let segment = log.segments[n - 1];
        assert(log.stretch_held(n - 1, messages));
        let first = segment.base_offset - log.oldest();
        let end = segment.next_offset - log.oldest();
        law_segment_restart(segment, messages.subrange(first, end));
        law_segment_resized(segment, messages.subrange(first, end), max_bytes);
        assert(log.stored().take(n).drop_last() =~= log.stored().take(n - 1));
        assert(log.stored().take(n).last() == log.stored()[n - 1]);
    }
}

/// The files of a segment that does not exist yet.
pub open spec fn no_files() -> FilesView {
    FilesView { log: Seq::empty(), index: Seq::empty() }
}

/// A log in an empty directory starts at offset 0 and holds nothing.
pub proof fn law_log_new(dir: Seq<char>, max_segment_bytes: u64)
    ensures
        ({
            let stored = seq![StoredView { base_offset: 0, files: no_files() }];
            &&& bases_to_open(Seq::empty()) == seq![0u64]
            &&& stored_ascending(stored)
            &&& openable(stored, max_segment_bytes)
            &&& open_segments(stored, max_segment_bytes) matches Ok(segments) && {
                let log = LogView { dir, segments, max_segment_bytes };
                log.holds(Seq::empty()) && log.oldest() == 0
            }
        }),
{
    let stored = seq![StoredView { base_offset: 0, files: no_files() }];
    law_segment_new(0, max_segment_bytes);
    assert(stored.drop_last() =~= Seq::empty());
    let segment = SegmentView::opened(no_files(), 0, max_segment_bytes)->Ok_0;
    assert(openable(stored.drop_last(), max_segment_bytes));
    assert(open_segments(stored.drop_last(), max_segment_bytes) == Ok::<
        Seq<SegmentView>,
        ErrorView,
    >(Seq::empty()));
    let segments = Seq::<SegmentView>::empty().push(segment);
    let log = LogView { dir, segments, max_segment_bytes };
    assert(Seq::<Seq<u8>>::empty().subrange(0, 0) =~= Seq::empty());
    assert(log.stretch_held(0, Seq::empty()));
}

/// The base offsets found in two listings one after the other are those of the first
/// and then those of the second, and a listing of one name gives that of the name, if
/// it has one.
pub proof fn law_named_bases(names: Seq<Seq<char>>, more: Seq<Seq<char>>, name: Seq<char>)
    ensures
        named_bases(names + more) == named_bases(names) + named_bases(more),
        named_bases(seq![name]) == (match base_of_name(name) {
            Some(base) => seq![base],
            None => Seq::<u64>::empty(),
        }),
        bases_to_open(names) == (if named_bases(names).len() == 0 {
            seq![0u64]
        } else {
            named_bases(names)
        }),
    decreases more.len(),
{
    assert(seq![name].drop_last() =~= Seq::empty());
    assert(named_bases(seq![name].drop_last()) == Seq::<u64>::empty());
    if more.len() == 0 {
        assert(names + more =~= names);
        assert(named_bases(names) + named_bases(more) =~= named_bases(names));
    } else {
        law_named_bases(names, more.drop_last(), name);
        assert((names + more).drop_last() =~= names + more.drop_last());
        assert(named_bases(names + more) =~= named_bases(names) + named_bases(more));
    }
}

/// Stored segments that can all be opened make a log of just these, in their order.
/// Otherwise the first that cannot be opened decides: its error is the answer, or, if
/// it cannot be scanned, there is none.
pub proof fn law_open_segments(stored: Seq<StoredView>, max_bytes: u64, k: int)
    requires
        0 <= k <= stored.len(),
        forall|i: int|
            0 <= i < k ==> scannable((#[trigger] stored[i]).files.log) && SegmentView::opened(
                stored[i].files,
                stored[i].base_offset,
                max_bytes,
            ) is Ok,
    ensures
        k == stored.len() ==> {
            &&& openable(stored, max_bytes)
            &&& open_segments(stored, max_bytes) matches Ok(segments) && segments.len() == k
                && forall|i: int|
                0 <= i < k ==> SegmentView::opened(
                    stored[i].files,
                    stored[i].base_offset,
                    max_bytes,
                ) == Ok::<SegmentView, ErrorView>(#[trigger] segments[i])
        },
        k < stored.len() && !scannable(stored[k].files.log) ==> !openable(stored, max_bytes),
        k < stored.len() && scannable(stored[k].files.log) ==> (SegmentView::opened(
            stored[k].files,
            stored[k].base_offset,
            max_bytes,
        ) matches Err(e) ==> openable(stored, max_bytes) && open_segments(stored, max_bytes)
            == Err::<Seq<SegmentView>, ErrorView>(e)),
{
    lemma_all_open(stored.take(k), max_bytes);
    assert(stored.take(stored.len() as int) =~= stored);
    if k < stored.len() {
        let head = stored.take(k + 1);
        assert(head.drop_last() =~= stored.take(k));
        assert(head.last() == stored[k]);
        lemma_openable_prefix(stored, k + 1, max_bytes);
        if SegmentView::opened(stored[k].files, stored[k].base_offset, max_bytes) is Err {
            lemma_open_error_prefix(stored, k + 1, max_bytes);
        }
    }
}

proof fn lemma_all_open(stored: Seq<StoredView>, max_bytes: u64)
    requires
        forall|i: int|
            0 <= i < stored.len() ==> scannable((#[trigger] stored[i]).files.log)
                && SegmentView::opened(stored[i].files, stored[i].base_offset, max_bytes) is Ok,
    ensures
        openable(stored, max_bytes),
        open_segments(stored, max_bytes) matches Ok(segments) && segments.len() == stored.len()
            && forall|i: int|
            0 <= i < stored.len() ==> SegmentView::opened(
                stored[i].files,
                stored[i].base_offset,
                max_bytes,
            ) == Ok::<SegmentView, ErrorView>(#[trigger] segments[i]),
    decreases stored.len(),
{
    if stored.len() > 0 {
        let init = stored.drop_last();
        assert forall|i: int| 0 <= i < init.len() implies scannable(
            (#[trigger] init[i]).files.log,
        ) && SegmentView::opened(init[i].files, init[i].base_offset, max_bytes) is Ok by {
            assert(init[i] == stored[i]);
        }
        lemma_all_open(init, max_bytes);
        let before = open_segments(init, max_bytes)->Ok_0;
        let segments = open_segments(stored, max_bytes)->Ok_0;
        assert(scannable(stored[stored.len() - 1].files.log));
        assert forall|i: int| 0 <= i < stored.len() implies SegmentView::opened(
            stored[i].files,
            stored[i].base_offset,
            max_bytes,
        ) == Ok::<SegmentView, ErrorView>(#[trigger] segments[i]) by {
            if i < init.len() {
                assert(segments[i] == before[i]);
                assert(init[i] == stored[i]);
            }
        }
    }
}

/// When a log rolls: while the active segment is below the limit, it takes the message
/// and no other segment changes; once it has reached the limit, the segment in the
/// files named after the next offset takes the message, after all the others. If that
/// one cannot be opened, its error is the answer and nothing changes.
pub proof fn law_roll(log: LogView, payload: Seq<u8>, spare: FilesView)
    requires
        log.segments.len() > 0,
    ensures
        ({
            let active = log.segments.last();
            let (after, r) = log.append(payload, spare);
            &&& after.dir == log.dir && after.max_segment_bytes == log.max_segment_bytes
            &&& active.size < active.max_bytes ==> {
                &&& r == Ok::<u64, ErrorView>(active.next_offset)
                &&& after.segments.drop_last() == log.segments.drop_last()
                &&& after.segments.last() == active.append(payload)
                &&& after.segments.len() == log.segments.len()
            }
            &&& active.size >= active.max_bytes ==> match SegmentView::opened(
                spare,
                active.next_offset,
                log.max_segment_bytes,
            ) {
                Err(e) => r == Err::<u64, ErrorView>(e) && after == log,
                Ok(segment) => r == Ok::<u64, ErrorView>(segment.next_offset) && after.segments
                    == log.segments.push(segment.append(payload)),
            }
        }),
{
    let after = log.append(payload, spare).0;
    if log.active().size < log.active().max_bytes {
        assert(after.segments.drop_last() =~= log.segments.drop_last());
    }
}

/// There is room in a log while the segment that takes the message has an offset left,
/// at or above its base, and a size that stays within 64 bits.
pub proof fn law_log_room(log: LogView, n: nat, spare: FilesView)
    requires
        log.segments.len() > 0,
    ensures
        ({
            let active = log.segments.last();
            let grows = 4 + (n + 8) % 0x1_0000_0000;
            &&& active.size < active.max_bytes ==> (log.has_room(n, spare) <==> active.base_offset
                <= active.next_offset < u64::MAX && active.size + grows <= u64::MAX)
            &&& active.size >= active.max_bytes && !scannable(spare.log) ==> !log.has_room(n, spare)
            &&& active.size >= active.max_bytes && scannable(spare.log)
                ==> match SegmentView::opened(spare, active.next_offset, log.max_segment_bytes) {
                Err(_) => log.has_room(n, spare),
                Ok(segment) => log.has_room(n, spare) <==> segment.base_offset
                    <= segment.next_offset < u64::MAX && segment.size + grows <= u64::MAX,
            }
        }),
{
}

impl LogView {
    /// The log after appends of `payloads`, each with no file in the way.
    pub open spec fn after(self, payloads: Seq<Seq<u8>>) -> LogView
        decreases payloads.len(),
    {
        if payloads.len() == 0 {
            self
        } else {
            self.after(payloads.drop_last()).append(payloads.last(), no_files()).0
        }
    }
}

/// A log that holds messages takes one more, whatever segment size it has, up to the
/// one at which a segment could run out of offsets.
proof fn lemma_takes(log: LogView, messages: Seq<Seq<u8>>, payload: Seq<u8>)
    requires
        log.holds(messages),
        0 < log.max_segment_bytes <= 0xB_FFFF_FFF4,
        payload.len() <= 0xFFFF_FFF7,
        log.oldest() + messages.len() < u64::MAX,
    ensures
        log.has_room(payload.len(), no_files()),
        log.append(payload, no_files()).1 == Ok::<u64, ErrorView>(
            (log.oldest() + messages.len()) as u64,
        ),
        log.append(payload, no_files()).0.holds(messages.push(payload)),
        log.append(payload, no_files()).0.oldest() == log.oldest(),
        log.append(payload, no_files()).0.max_segment_bytes == log.max_segment_bytes,
{
    let active = log.active();
    assert(log.stretch_held(log.segments.len() - 1, messages));
    let first = active.base_offset - log.oldest();
    let end = active.next_offset - log.oldest();
    law_segment_new(active.next_offset, log.max_segment_bytes);
    lemma_log_size(active.base_offset, messages.subrange(first, end));
    law_log_append(log, messages, payload);
}

proof fn lemma_log_history(log: LogView, payloads: Seq<Seq<u8>>)
    requires
        log.holds(Seq::empty()),
        log.oldest() == 0,
        0 < log.max_segment_bytes <= 0xB_FFFF_FFF4,
        payloads.len() <= u64::MAX,
        forall|i: int| 0 <= i < payloads.len() ==> (#[trigger] payloads[i]).len() <= 0xFFFF_FFF7,
    ensures
        log.after(payloads).holds(payloads),
        log.after(payloads).oldest() == 0,
        log.after(payloads).max_segment_bytes == log.max_segment_bytes,
    decreases payloads.len(),
{
    if payloads.len() == 0 {
        assert(payloads =~= Seq::empty());
    } else {
        let init = payloads.drop_last();
        assert forall|i: int| 0 <= i < init.len() implies (#[trigger] init[i]).len()
            <= 0xFFFF_FFF7 by {
            assert(init[i] == payloads[i]);
        }
        lemma_log_history(log, init);
        assert(payloads[payloads.len() - 1].len() <= 0xFFFF_FFF7);
        lemma_takes(log.after(init), init, payloads.last());
        assert(init.push(payloads.last()) =~= payloads);
    }
}

/// All that a log in an empty directory does, from its first message on: whatever was
/// appended, there is room for one more message, it gets the number of messages before
/// it as its offset, every message is read back at its own offset, no other offset has
/// one, and reopening the files changes nothing of that.
pub proof fn law_log_history(
    dir: Seq<char>,
    max_segment_bytes: u64,
    payloads: Seq<Seq<u8>>,
    payload: Seq<u8>,
    offset: u64,
)
    requires
        0 < max_segment_bytes <= 0xB_FFFF_FFF4,
        payloads.len() < u64::MAX,
        payload.len() <= 0xFFFF_FFF7,
        forall|i: int| 0 <= i < payloads.len() ==> (#[trigger] payloads[i]).len() <= 0xFFFF_FFF7,
    ensures
        open_segments(
            seq![StoredView { base_offset: 0, files: no_files() }],
            max_segment_bytes,
        ) matches Ok(segments) && {
            let log = (LogView { dir, segments, max_segment_bytes }).after(payloads);
            &&& log.segments.len() > 0
            &&& log.segments[0].base_offset == 0
            &&& log.segments.last().next_offset == payloads.len()
            &&& log.has_room(payload.len(), no_files())
            &&& log.append(payload, no_files()).1 == Ok::<u64, ErrorView>(payloads.len() as u64)
            &&& log.readable(offset)
            &&& log.read(offset) == Ok::<Option<Seq<u8>>, ErrorView>(
                if offset < payloads.len() {
                    Some(payloads[offset as int])
                } else {
                    None
                },
            )
            &&& openable(log.stored(), max_segment_bytes)
            &&& open_segments(log.stored(), max_segment_bytes) == Ok::<
                Seq<SegmentView>,
                ErrorView,
            >(log.segments)
        },
{
    law_log_new(dir, max_segment_bytes);
    let stored = seq![StoredView { base_offset: 0, files: no_files() }];
    let segments = open_segments(stored, max_segment_bytes)->Ok_0;
    let new = LogView { dir, segments, max_segment_bytes };
    lemma_log_history(new, payloads);
    let log = new.after(payloads);
    lemma_takes(log, payloads, payload);
    law_log_read(log, payloads, offset);
    law_log_restart(log, payloads);
}

/// How such a log splits into segments: a message opens a new one if, and only if, the
/// file of the last one has reached the limit.
pub proof fn law_segment_sizes(
    dir: Seq<char>,
    max_segment_bytes: u64,
    payloads: Seq<Seq<u8>>,
    payload: Seq<u8>,
)
    requires
        0 < max_segment_bytes <= 0xB_FFFF_FFF4,
        payloads.len() < u64::MAX,
        forall|i: int| 0 <= i < payloads.len() ==> (#[trigger] payloads[i]).len() <= 0xFFFF_FFF7,
    ensures
        open_segments(
            seq![StoredView { base_offset: 0, files: no_files() }],
            max_segment_bytes,
        ) matches Ok(segments) && {
            let log = (LogView { dir, segments, max_segment_bytes }).after(payloads);
            let after = log.append(payload, no_files()).0;
            after.segments.len() == log.segments.len() + (if log.segments.last().log.len()
                >= max_segment_bytes {
                1int
            } else {
                0
            })
        },
{
    law_log_new(dir, max_segment_bytes);
    let stored = seq![StoredView { base_offset: 0, files: no_files() }];
    let segments = open_segments(stored, max_segment_bytes)->Ok_0;
    let new = LogView { dir, segments, max_segment_bytes };
    lemma_log_history(new, payloads);
    let log = new.after(payloads);
    assert(log.stretch_held(log.segments.len() - 1, payloads));
    law_segment_new(log.active().next_offset, max_segment_bytes);
}

} // verus!
