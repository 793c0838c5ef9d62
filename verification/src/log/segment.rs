//! A segment: one `.log` file with its index.

use crate::bigendian::{
    be_bytes, be_value, law_be_decode_encode, lemma_be_bytes_len, lemma_pow256_widths, push_be,
    value_be,
};
use crate::error::{seen, seen_option, Error, ErrorKind, ErrorView};
use crate::log::index::{entry_bytes, law_append_entry, law_lookup, Index, IndexView};
use crate::protocol::write_slice;
use vstd::prelude::*;
use vstd::slice::{slice_subrange, slice_to_vec};

verus! {

/// The contents of the two files of a segment, both empty when they are new.
pub struct SegmentFiles {
    pub log: Vec<u8>,
    pub index: Vec<u8>,
}

/// The contents of the two files of a segment.
#[verifier::ext_equal]
pub struct FilesView {
    pub log: Seq<u8>,
    pub index: Seq<u8>,
}

impl View for SegmentFiles {
    type V = FilesView;

    open spec fn view(&self) -> FilesView {
        FilesView { log: self.log@, index: self.index@ }
    }
}

impl SegmentFiles {
    /// The files of a segment that does not exist yet.
    pub fn empty() -> (files: SegmentFiles)
        ensures
            files@ == (FilesView { log: Seq::empty(), index: Seq::empty() }),
    {
        SegmentFiles { log: Vec::new(), index: Vec::new() }
    }
}

/// A single segment file in the log.
///
/// A segment is an append-only file on disk. It stores messages sequentially
/// in the format:
///
///   [length: u32][offset: u64][payload: bytes...]
///
/// Each segment has a paired `.index` file for offset lookups.
/// When a segment reaches `max_bytes`, a new segment is created.
pub struct Segment {
    /// The bytes of the `.log` file.
    pub(crate) log: Vec<u8>,
    /// The offset → byte-position index for this segment.
    pub(crate) index: Index,
    /// The offset of the first message in this segment.
    pub base_offset: u64,
    /// The offset that the *next* written message will receive.
    pub next_offset: u64,
    /// Current size of the file in bytes.
    pub size: u64,
    /// Maximum allowed size before this segment is considered full.
    pub max_bytes: u64,
}

/// What a segment holds.
#[verifier::ext_equal]
pub struct SegmentView {
    pub log: Seq<u8>,
    pub index: Seq<u8>,
    pub base_offset: u64,
    pub next_offset: u64,
    pub size: u64,
    pub max_bytes: u64,
}

/// The error for a file that ends inside a value.
pub open spec fn short_read<T>() -> Result<T, ErrorView> {
    Err(
        ErrorView {
            kind: ErrorKind::UnexpectedEof,
            message: "failed to fill whole buffer"@,
        },
    )
}

/// The highest position that a file can be sought to.
pub const MAX_POSITION: u64 = 0x7FFF_FFFF_FFFF_FFFF;

/// The error for a position that no file has.
pub open spec fn bad_seek<T>() -> Result<T, ErrorView> {
    Err(
        ErrorView {
            kind: ErrorKind::InvalidInput,
            message: "Invalid argument (os error 22)"@,
        },
    )
}

/// The length field of the frame of a payload of `n` bytes: payload and offset
/// field, cut to 32 bits.
pub open spec fn frame_length(n: nat) -> nat {
    (n + 8) % 0x1_0000_0000
}

/// A message as it stands in the file: `[length: u32][offset: u64][payload]`.
pub open spec fn message_frame(offset: u64, payload: Seq<u8>) -> Seq<u8> {
    be_bytes(frame_length(payload.len()), 4) + be_bytes(offset as nat, 8) + payload
}

/// How a scan over a file of frames ended.
#[derive(PartialEq, Eq, Structural)]
pub enum ScanEnd {
    /// No further length field.
    Clean,
    /// The file ends after a length field and before the end of an offset field.
    TornHeader,
    /// A frame claims to be shorter than its own offset field.
    BadLength,
}

/// Walk the frames of `log` from `pos` on: the last offset seen, and the end.
pub open spec fn scan(log: Seq<u8>, pos: int, last: Option<u64>) -> (Option<u64>, ScanEnd)
    decreases
        if pos <= log.len() {
            log.len() - pos
        } else {
            0
        },
{
    if pos < 0 || log.len() - pos < 4 {
        (last, ScanEnd::Clean)
    } else if log.len() - pos < 12 {
        (last, ScanEnd::TornHeader)
    } else {
        let length = be_value(log.subrange(pos, pos + 4));
        let offset = be_value(log.subrange(pos + 4, pos + 12)) as u64;
        if length < 8 {
            (Some(offset), ScanEnd::BadLength)
        } else {
            scan(log, pos + 4 + length, Some(offset))
        }
    }
}

/// A scan of `log` meets no impossible length, and leaves room for a next offset.
pub open spec fn scannable(log: Seq<u8>) -> bool {
    match scan(log, 0, None) {
        (_, ScanEnd::BadLength) => false,
        (Some(offset), ScanEnd::Clean) => offset < u64::MAX,
        _ => true,
    }
}

/// The offset after the last message in `log`, or `base_offset` if there is none.
pub open spec fn recovered(log: Seq<u8>, base_offset: u64) -> Result<u64, ErrorView> {
    match scan(log, 0, None) {
        (_, ScanEnd::TornHeader) => short_read(),
        (Some(offset), _) => Ok((offset + 1) as u64),
        (None, _) => Ok(base_offset),
    }
}

impl SegmentView {
    /// The index as the lookups see it.
    pub open spec fn idx(self) -> IndexView {
        IndexView { file: self.index, base_offset: self.base_offset }
    }

    /// The two files.
    pub open spec fn files(self) -> FilesView {
        FilesView { log: self.log, index: self.index }
    }

    /// The segment that a pair of files makes.
    pub open spec fn opened(files: FilesView, base_offset: u64, max_bytes: u64) -> Result<
        SegmentView,
        ErrorView,
    > {
        match recovered(files.log, base_offset) {
            Err(e) => Err(e),
            Ok(next_offset) => Ok(
                SegmentView {
                    log: files.log,
                    index: files.index,
                    base_offset,
                    next_offset,
                    size: files.log.len() as u64,
                    max_bytes,
                },
            ),
        }
    }

    /// The segment can number and place one more message of `n` bytes.
    pub open spec fn has_room(self, n: nat) -> bool {
        &&& self.base_offset <= self.next_offset < u64::MAX
        &&& self.size + 4 + frame_length(n) <= u64::MAX
    }

    /// The segment with one more message.
    pub open spec fn append(self, payload: Seq<u8>) -> SegmentView {
        SegmentView {
            log: self.log + message_frame(self.next_offset, payload),
            index: self.idx().append(self.next_offset, self.size).file,
            next_offset: (self.next_offset + 1) as u64,
            size: (self.size + 4 + frame_length(payload.len())) as u64,
            ..self
        }
    }

    /// The length field at `position` of the file.
    pub open spec fn length_at(self, position: int) -> nat {
        be_value(self.log.subrange(position, position + 4))
    }

    /// Where the index sends a read of `offset`, there is no length field or one
    /// that covers the offset field.
    pub open spec fn readable(self, offset: u64) -> bool {
        match self.idx().lookup(offset) {
            None => true,
            Some(position) => position + 4 <= self.log.len() ==> self.length_at(position as int)
                >= 8,
        }
    }

    /// The payload at `offset`. An index entry that points past the end of the file
    /// leads to nothing, and one that points where no file reaches is an error.
    pub open spec fn read(self, offset: u64) -> Result<Option<Seq<u8>>, ErrorView> {
        match self.idx().lookup(offset) {
            None => Ok(None),
            Some(position) => if position + 4 > self.log.len() {
                if position > MAX_POSITION {
                    bad_seek()
                } else {
                    Ok(None)
                }
            } else {
                let length = self.length_at(position as int);
                if length == 8 {
                    Ok(Some(Seq::empty()))
                } else if position + 4 + length > self.log.len() {
                    short_read()
                } else {
                    Ok(Some(self.log.subrange(position + 12, position + 4 + length)))
                }
            },
        }
    }

    pub open spec fn full(self) -> bool {
        self.size >= self.max_bytes
    }
}

impl View for Segment {
    type V = SegmentView;

    open(crate) spec fn view(&self) -> SegmentView {
        SegmentView {
            log: self.log@,
            index: self.index.file@,
            base_offset: self.base_offset,
            next_offset: self.next_offset,
            size: self.size,
            max_bytes: self.max_bytes,
        }
    }
}

/// Walk the frames of a file: the last offset seen, and how the file ends.
fn scan_frames(log: &Vec<u8>) -> (r: (Option<u64>, ScanEnd))
    ensures
        r == scan(log@, 0, None),
{
    let bytes: &[u8] = log.as_slice();
    let len: usize = bytes.len();
    let mut pos: usize = 0;
    let mut last: Option<u64> = None;
    while len - pos >= 4
        invariant
            bytes@ == log@,
            pos <= len == bytes@.len(),
            scan(log@, 0, None) == scan(log@, pos as int, last),
        decreases len - pos,
    {
        if len - pos < 12 {
            return (last, ScanEnd::TornHeader);
        }
        let length: u64 = value_be(slice_subrange(bytes, pos, pos + 4));
        let offset: u64 = value_be(slice_subrange(bytes, pos + 4, pos + 12));
        last = Some(offset);
        if length < 8 {
            return (last, ScanEnd::BadLength);
        }
        if length > (len - pos - 4) as u64 {
            assert(scan(log@, pos + 4 + length, last) == (last, ScanEnd::Clean));
            return (last, ScanEnd::Clean);
        }
        pos = pos + 4 + length as usize;
    }
    (last, ScanEnd::Clean)
}

/// The length field of a payload's frame.
pub fn length_field(payload: &[u8]) -> (n: u64)
    ensures
        n as nat == frame_length(payload@.len()),
{
    (payload.len() as u64 % 0x1_0000_0000 + 8) % 0x1_0000_0000
}

/// The bytes that the message at `offset` takes in the `.log` file.
pub fn encode_frame(offset: u64, payload: &[u8]) -> (bytes: Vec<u8>)
    ensures
        bytes@ == message_frame(offset, payload@),
{
    let mut bytes: Vec<u8> = Vec::new();
    push_be(&mut bytes, length_field(payload), 4);
    push_be(&mut bytes, offset, 8);
    write_slice(&mut bytes, payload);
    assert(bytes@ =~= message_frame(offset, payload@));
    bytes
}

impl Segment {
    /// The index belongs to this segment.
    pub open(crate) spec fn wf(&self) -> bool {
        &&& self.index.wf()
        &&& self.index.base_offset == self.base_offset
    }

    /// Whether a `.log` file can be opened: no frame is shorter than its own
    /// offset field, and the last offset has a successor.
    pub fn is_scannable(log: &Vec<u8>) -> (b: bool)
        ensures
            b == scannable(log@),
    {
        match scan_frames(log) {
            (_, ScanEnd::BadLength) => false,
            (Some(offset), ScanEnd::Clean) => offset < u64::MAX,
            _ => true,
        }
    }

    /// Open a segment with the given `base_offset` from the contents of its files.
    ///
    /// A file that ends inside a frame header cannot be opened.
    pub fn open(files: SegmentFiles, base_offset: u64, max_bytes: u64) -> (r: Result<
        Segment,
        Error,
    >)
        requires
            scannable(files.log@),
        ensures
            seen(r) == SegmentView::opened(files@, base_offset, max_bytes),
            r matches Ok(segment) ==> segment.wf(),
    {
        let next_offset: u64 = match Segment::recover_next_offset(&files.log, base_offset) {
            Ok(next_offset) => next_offset,
            Err(e) => return Err(e),
        };
        let size: u64 = files.log.len() as u64;
        let index: Index = Index::open(files.index, base_offset);
        Ok(Segment { log: files.log, index, base_offset, next_offset, size, max_bytes })
    }

    /// Whether one more message can be numbered and placed.
    pub fn can_append(&self, payload: &[u8]) -> (b: bool)
        ensures
            b == self@.has_room(payload@.len()),
    {
        self.base_offset <= self.next_offset && self.next_offset < u64::MAX && self.size
            <= u64::MAX - (4 + length_field(payload))
    }

    /// Append a message payload to this segment.
    ///
    /// Returns the offset assigned to this message.
    pub fn append(&mut self, payload: &[u8]) -> (offset: u64)
        requires
            old(self).wf(),
            old(self)@.has_room(payload@.len()),
        ensures
            final(self).wf(),
            final(self)@ == old(self)@.append(payload@),
            offset == old(self)@.next_offset,
    {
        let offset: u64 = self.next_offset;
        let position: u64 = self.size;
        let mut frame: Vec<u8> = encode_frame(offset, payload);
        self.log.append(&mut frame);
        self.index.append(offset, position);
        self.size = self.size + 4 + length_field(payload);
        self.next_offset = self.next_offset + 1;
        offset
    }

    /// Whether a read of `offset` meets a frame that covers its own offset field.
    pub fn can_read(&self, offset: u64) -> (b: bool)
        requires
            self.wf(),
        ensures
            b == self@.readable(offset),
    {
        match self.index.lookup(offset) {
            None => true,
            Some(position) => {
                let bytes: &[u8] = self.log.as_slice();
                let len: usize = bytes.len();
                if len < 4 || position > (len - 4) as u64 {
                    return true;
                }
                let start: usize = position as usize;
                value_be(slice_subrange(bytes, start, start + 4)) >= 8
            },
        }
    }

    /// Read a message at the given absolute `offset`.
    ///
    /// Uses the index to go directly to the message's byte position.
    pub fn read_at(&self, offset: u64) -> (r: Result<Option<Vec<u8>>, Error>)
        requires
            self.wf(),
            self@.readable(offset),
        ensures
            seen_option(r) == self@.read(offset),
    {
        let position: u64 = match self.index.lookup(offset) {
            Some(position) => position,
            None => return Ok(None),
        };
        let bytes: &[u8] = self.log.as_slice();
        let len: usize = bytes.len();
        if len < 4 || position > (len - 4) as u64 {
            if position > MAX_POSITION {
                return Err(
                    Error::new(ErrorKind::InvalidInput, "Invalid argument (os error 22)"),
                );
            }
            return Ok(None);
        }
        let start: usize = position as usize;
        let length: u64 = value_be(slice_subrange(bytes, start, start + 4));
        if length == 8 {
            return Ok(Some(Vec::new()));
        }
        if length > (len - start - 4) as u64 {
            return Err(Error::new(ErrorKind::UnexpectedEof, "failed to fill whole buffer"));
        }
        let end: usize = start + 4 + length as usize;
        Ok(Some(slice_to_vec(slice_subrange(bytes, start + 12, end))))
    }

    /// The contents of the segment's two files.
    pub fn files(&self) -> (files: SegmentFiles)
        ensures
            files@ == self@.files(),
    {
        SegmentFiles {
            log: slice_to_vec(self.log.as_slice()),
            index: slice_to_vec(self.index.bytes()),
        }
    }

    /// Returns true when the segment has reached its size limit.
    pub fn is_full(&self) -> (b: bool)
        ensures
            b == self@.full(),
            b == (self@.size >= self@.max_bytes),
    {
        self.size >= self.max_bytes
    }

    /// Scan the file to determine the next available offset after a restart.
    pub fn recover_next_offset(log: &Vec<u8>, base_offset: u64) -> (r: Result<u64, Error>)
        requires
            scannable(log@),
        ensures
            seen(r) == recovered(log@, base_offset),
    {
        match scan_frames(log) {
            (_, ScanEnd::TornHeader) => Err(
                Error::new(ErrorKind::UnexpectedEof, "failed to fill whole buffer"),
            ),
            (Some(offset), _) => Ok(offset + 1),
            (None, _) => Ok(base_offset),
        }
    }
}

// ── Laws ─────────────────────────────────────────────────────────────────────

/// The file of a segment that starts at `base` and holds `messages`.
pub open spec fn log_bytes(base: u64, messages: Seq<Seq<u8>>) -> Seq<u8>
    decreases messages.len(),
{
    if messages.len() == 0 {
        Seq::empty()
    } else {
        let init = messages.drop_last();
        log_bytes(base, init) + message_frame((base + init.len()) as u64, messages.last())
    }
}

/// The index file of a segment that starts at `base` and holds `messages`.
pub open spec fn index_bytes(base: u64, messages: Seq<Seq<u8>>) -> Seq<u8>
    decreases messages.len(),
{
    if messages.len() == 0 {
        Seq::empty()
    } else {
        let init = messages.drop_last();
        index_bytes(base, init) + entry_bytes(init.len(), log_bytes(base, init).len() as u64)
    }
}

/// A payload that a frame can carry.
pub open spec fn storable(payload: Seq<u8>) -> bool {
    payload.len() + 8 <= u32::MAX
}

impl SegmentView {
    /// The segment holds exactly `messages`, numbered from its base offset, with
    /// the index in step.
    pub open spec fn holds(self, messages: Seq<Seq<u8>>) -> bool {
        &&& self.log == log_bytes(self.base_offset, messages)
        &&& self.index == index_bytes(self.base_offset, messages)
        &&& self.next_offset == self.base_offset + messages.len()
        &&& self.size == self.log.len()
        &&& messages.len() <= 0x1_0000_0000
        &&& forall|i: int| 0 <= i < messages.len() ==> storable(#[trigger] messages[i])
    }
}

/// Every message takes up at least its length and offset fields.
pub proof fn lemma_log_size(base: u64, messages: Seq<Seq<u8>>)
    ensures
        log_bytes(base, messages).len() >= 12 * messages.len(),
    decreases messages.len(),
{
    if messages.len() > 0 {
        let init = messages.drop_last();
        lemma_log_size(base, init);
        lemma_be_bytes_len(frame_length(messages.last().len()), 4);
        lemma_be_bytes_len((base + init.len()) as u64 as nat, 8);
    }
}

/// Where message `i` starts in the file.
pub open spec fn start_of(base: u64, messages: Seq<Seq<u8>>, i: int) -> nat {
    log_bytes(base, messages.take(i)).len()
}

/// The files of the first messages are the beginnings of the files of all.
proof fn lemma_prefix(base: u64, messages: Seq<Seq<u8>>, i: int)
    requires
        0 <= i <= messages.len(),
    ensures
        start_of(base, messages, i) <= log_bytes(base, messages).len(),
        log_bytes(base, messages).take(start_of(base, messages, i) as int) == log_bytes(
            base,
            messages.take(i),
        ),
    decreases messages.len(),
{
    if i == messages.len() {
        assert(messages.take(i) =~= messages);
        assert(log_bytes(base, messages).take(start_of(base, messages, i) as int) =~= log_bytes(
            base,
            messages,
        ));
    } else {
        let init = messages.drop_last();
        lemma_prefix(base, init, i);
        assert(init.take(i) =~= messages.take(i));
        let n = start_of(base, messages, i) as int;
        assert(log_bytes(base, messages).take(n) =~= log_bytes(base, init).take(n));
    }
}

/// Message `i` stands in the file between its start and the start of the next.
proof fn lemma_frame_at(base: u64, messages: Seq<Seq<u8>>, i: int)
    requires
        0 <= i < messages.len(),
    ensures
        start_of(base, messages, i + 1) == start_of(base, messages, i) + message_frame(
            (base + i) as u64,
            messages[i],
        ).len(),
        start_of(base, messages, i + 1) <= log_bytes(base, messages).len(),
        log_bytes(base, messages).subrange(
            start_of(base, messages, i) as int,
            start_of(base, messages, i + 1) as int,
        ) == message_frame((base + i) as u64, messages[i]),
{
    let upto = messages.take(i + 1);
    let a = start_of(base, messages, i) as int;
    let b = start_of(base, messages, i + 1) as int;
    lemma_prefix(base, messages, i + 1);
    assert(upto.drop_last() =~= messages.take(i));
    assert(upto.last() == messages[i]);
    assert(log_bytes(base, messages).subrange(a, b) =~= log_bytes(base, messages).take(
        b,
    ).subrange(a, b));
    assert(log_bytes(base, upto).subrange(a, b) =~= message_frame((base + i) as u64, messages[i]));
}

/// What the fields of message `i` say.
proof fn lemma_fields_at(base: u64, messages: Seq<Seq<u8>>, i: int)
    requires
        0 <= i < messages.len(),
        storable(messages[i]),
        base + i <= u64::MAX,
    ensures
        ({
            let log = log_bytes(base, messages);
            let p = start_of(base, messages, i) as int;
            let n = messages[i].len();
            &&& start_of(base, messages, i + 1) == p + 12 + n
            &&& p + 12 + n <= log.len()
            &&& be_value(log.subrange(p, p + 4)) == n + 8
            &&& be_value(log.subrange(p + 4, p + 12)) == base + i
            &&& log.subrange(p + 12, p + 12 + n) == messages[i]
        }),
{
    let log = log_bytes(base, messages);
    let p = start_of(base, messages, i) as int;
    let n = messages[i].len();
    let offset = (base + i) as u64;
    let frame = message_frame(offset, messages[i]);
    lemma_frame_at(base, messages, i);
    lemma_be_bytes_len(n + 8, 4);
    lemma_be_bytes_len(offset as nat, 8);
    lemma_pow256_widths();
    law_be_decode_encode(n + 8, 4);
    law_be_decode_encode(offset as nat, 8);
    assert(frame.len() == 12 + n);
    assert(log.subrange(p, p + 4) =~= log.subrange(p, p + 12 + n).subrange(0, 4));
    assert(frame.subrange(0, 4) =~= be_bytes(n + 8, 4));
    assert(log.subrange(p + 4, p + 12) =~= log.subrange(p, p + 12 + n).subrange(4, 12));
    assert(frame.subrange(4, 12) =~= be_bytes(offset as nat, 8));
    assert(log.subrange(p + 12, p + 12 + n) =~= log.subrange(p, p + 12 + n).subrange(
        12,
        12 + n as int,
    ));
    assert(frame.subrange(12, 12 + n as int) =~= messages[i]);
}

/// Entry `i` of the index numbers message `i` and points at its start.
proof fn lemma_entries(base: u64, messages: Seq<Seq<u8>>)
    requires
        messages.len() <= 0x1_0000_0000,
        base + messages.len() <= u64::MAX,
        log_bytes(base, messages).len() <= u64::MAX,
    ensures
        ({
            let index = IndexView { file: index_bytes(base, messages), base_offset: base };
            &&& index.file.len() == 12 * messages.len()
            &&& forall|k: int| 0 <= k < messages.len() ==> #[trigger] index.relative(k) == k
            &&& forall|k: int|
                0 <= k < messages.len() ==> #[trigger] index.position(k) == start_of(
                    base,
                    messages,
                    k,
                )
        }),
    decreases messages.len(),
{
    let index = IndexView { file: index_bytes(base, messages), base_offset: base };
    if messages.len() > 0 {
        let init = messages.drop_last();
        let m = init.len();
        lemma_prefix(base, messages, m as int);
        assert(messages.take(m as int) =~= init);
        lemma_entries(base, init);
        let before = IndexView { file: index_bytes(base, init), base_offset: base };
        let position = log_bytes(base, init).len() as u64;
        law_append_entry(before, (base + m) as u64, position);
        assert(index.file == before.append((base + m) as u64, position).file);
        assert forall|k: int| 0 <= k < messages.len() implies #[trigger] index.position(k)
            == start_of(base, messages, k) by {
            if k < m {
                assert(init.take(k) =~= messages.take(k));
                assert(before.position(k) == start_of(base, init, k));
            }
        }
        assert forall|k: int| 0 <= k < messages.len() implies #[trigger] index.relative(k) == k by {
            if k < m {
                assert(before.relative(k) == k);
            }
        }
    }
}

/// A segment that holds messages holds one more after an append, and the new one
/// gets the next offset.
pub proof fn law_segment_append(segment: SegmentView, messages: Seq<Seq<u8>>, payload: Seq<u8>)
    requires
        segment.holds(messages),
        storable(payload),
        messages.len() < 0x1_0000_0000,
        segment.has_room(payload.len()),
    ensures
        segment.append(payload).holds(messages.push(payload)),
{
    let next = messages.push(payload);
    assert(next.drop_last() =~= messages);
    lemma_be_bytes_len(payload.len() + 8, 4);
    lemma_be_bytes_len(segment.next_offset as nat, 8);
}

/// A read gives back exactly what was appended at that offset, and nothing for
/// an offset that no message has.
pub proof fn law_segment_read(segment: SegmentView, messages: Seq<Seq<u8>>, offset: u64)
    requires
        segment.holds(messages),
    ensures
        segment.readable(offset),
        segment.read(offset) == (if segment.base_offset <= offset < segment.next_offset {
            Ok::<Option<Seq<u8>>, ErrorView>(Some(messages[offset - segment.base_offset]))
        } else {
            Ok::<Option<Seq<u8>>, ErrorView>(None)
        }),
{
    let base = segment.base_offset;
    lemma_entries(base, messages);
    let index = segment.idx();
    assert(index.ascending());
    law_lookup(index, offset);
    if base <= offset < segment.next_offset {
        let i = offset - base;
        lemma_fields_at(base, messages, i);
        assert(index.relative(i) == i);
        assert(index.lookup(offset) == Some(index.position(i)));
        assert(index.position(i) == start_of(base, messages, i));
        if messages[i].len() == 0 {
            assert(messages[i] =~= Seq::empty());
        }
    } else {
        assert forall|k: int| 0 <= k < index.count() implies base + #[trigger] index.relative(k)
            != offset by {
            assert(index.relative(k) == k);
        }
    }
}

/// A scan that has reached message `i` goes on to the end of the file.
proof fn lemma_scan_from(base: u64, messages: Seq<Seq<u8>>, i: int)
    requires
        0 <= i <= messages.len(),
        base + messages.len() <= u64::MAX,
        forall|k: int| 0 <= k < messages.len() ==> storable(#[trigger] messages[k]),
    ensures
        scan(
            log_bytes(base, messages),
            start_of(base, messages, i) as int,
            if i == 0 {
                None
            } else {
                Some((base + i - 1) as u64)
            },
        ) == (
            if messages.len() == 0 {
                None::<u64>
            } else {
                Some((base + messages.len() - 1) as u64)
            },
            ScanEnd::Clean,
        ),
    decreases messages.len() - i,
{
    if i == messages.len() {
        assert(messages.take(i) =~= messages);
    } else {
        lemma_fields_at(base, messages, i);
        lemma_scan_from(base, messages, i + 1);
    }
}

/// Reopening the files of a segment gives the segment that wrote them.
pub proof fn law_segment_restart(segment: SegmentView, messages: Seq<Seq<u8>>)
    requires
        segment.holds(messages),
    ensures
        scannable(segment.log),
        SegmentView::opened(segment.files(), segment.base_offset, segment.max_bytes) == Ok::<
            SegmentView,
            ErrorView,
        >(segment),
{
    lemma_scan_from(segment.base_offset, messages, 0);
    assert(messages.take(0) =~= Seq::empty());
}

/// Reopening the files of a segment with another size limit changes the limit and
/// nothing else.
pub proof fn law_segment_resized(segment: SegmentView, messages: Seq<Seq<u8>>, max_bytes: u64)
    requires
        segment.holds(messages),
    ensures
        SegmentView::opened(segment.files(), segment.base_offset, max_bytes) == Ok::<
            SegmentView,
            ErrorView,
        >(SegmentView { max_bytes, ..segment }),
        (SegmentView { max_bytes, ..segment }).holds(messages),
{
    law_segment_restart(segment, messages);
}

/// A new segment holds no messages.
pub proof fn law_segment_new(base_offset: u64, max_bytes: u64)
    ensures
        ({
            let files = FilesView { log: Seq::empty(), index: Seq::empty() };
            &&& scannable(files.log)
            &&& SegmentView::opened(files, base_offset, max_bytes) matches Ok(segment)
                && segment.holds(Seq::empty()) && segment.base_offset == base_offset
                && segment.max_bytes == max_bytes
        }),
{
}

/// A frame is the length field, which counts the offset field and the payload and is
/// cut to 32 bits, then the offset, then the payload.
pub proof fn law_frame_layout(offset: u64, payload: Seq<u8>)
    ensures
        message_frame(offset, payload).len() == 12 + payload.len(),
        be_value(message_frame(offset, payload).take(4)) == (payload.len() + 8) % 0x1_0000_0000,
        be_value(message_frame(offset, payload).subrange(4, 12)) == offset,
        message_frame(offset, payload).skip(12) == payload,
{
    let n = (payload.len() + 8) % 0x1_0000_0000;
    let frame = message_frame(offset, payload);
    lemma_pow256_widths();
    lemma_be_bytes_len(n, 4);
    lemma_be_bytes_len(offset as nat, 8);
    law_be_decode_encode(n, 4);
    law_be_decode_encode(offset as nat, 8);
    assert(frame.take(4) =~= be_bytes(n, 4));
    assert(frame.subrange(4, 12) =~= be_bytes(offset as nat, 8));
    assert(frame.skip(12) =~= payload);
}

/// A segment opened from files has these very files, the base offset and the limit
/// that it was given, and the size of the `.log` file.
pub proof fn law_segment_opened(files: FilesView, base_offset: u64, max_bytes: u64)
    ensures
        SegmentView::opened(files, base_offset, max_bytes) matches Ok(segment) ==> {
            &&& segment.log == files.log
            &&& segment.index == files.index
            &&& segment.base_offset == base_offset
            &&& segment.max_bytes == max_bytes
            &&& segment.size == files.log.len() as u64
            &&& recovered(files.log, base_offset) == Ok::<u64, ErrorView>(segment.next_offset)
        },
        SegmentView::opened(files, base_offset, max_bytes) matches Err(e) ==> recovered(
            files.log,
            base_offset,
        ) == Err::<u64, ErrorView>(e),
{
}

/// An append adds the frame of the payload, under the next offset, to the `.log` file,
/// and an entry that says where it starts to the index. The offset it gave is used up,
/// and the size grows by what the length field says and the field itself.
pub proof fn law_segment_grows(segment: SegmentView, payload: Seq<u8>)
    requires
        segment.base_offset <= segment.next_offset < u64::MAX,
        segment.size + 4 + (payload.len() + 8) % 0x1_0000_0000 <= u64::MAX,
    ensures
        segment.has_room(payload.len()),
        segment.append(payload).log == segment.log + message_frame(segment.next_offset, payload),
        segment.append(payload).index == segment.index + entry_bytes(
            (segment.next_offset - segment.base_offset) as nat,
            segment.size,
        ),
        segment.append(payload).next_offset == segment.next_offset + 1,
        segment.append(payload).size == segment.size + 4 + (payload.len() + 8) % 0x1_0000_0000,
        segment.append(payload).base_offset == segment.base_offset,
        segment.append(payload).max_bytes == segment.max_bytes,
{
}

/// A scan passes over the messages of a segment to whatever follows them.
proof fn lemma_scan_tail(base: u64, messages: Seq<Seq<u8>>, tail: Seq<u8>, i: int)
    requires
        0 <= i <= messages.len(),
        base + messages.len() <= u64::MAX,
        forall|k: int| 0 <= k < messages.len() ==> storable(#[trigger] messages[k]),
    ensures
        scan(
            log_bytes(base, messages) + tail,
            start_of(base, messages, i) as int,
            if i == 0 {
                None
            } else {
                Some((base + i - 1) as u64)
            },
        ) == scan(
            log_bytes(base, messages) + tail,
            log_bytes(base, messages).len() as int,
            if messages.len() == 0 {
                None
            } else {
                Some((base + messages.len() - 1) as u64)
            },
        ),
    decreases messages.len() - i,
{
    if i == messages.len() {
        assert(messages.take(i) =~= messages);
    } else {
        lemma_fields_at(base, messages, i);
        lemma_scan_tail(base, messages, tail, i + 1);
        let log = log_bytes(base, messages);
        let p = start_of(base, messages, i) as int;
        assert((log + tail).subrange(p, p + 4) =~= log.subrange(p, p + 4));
        assert((log + tail).subrange(p + 4, p + 12) =~= log.subrange(p + 4, p + 12));
    }
}

/// Bytes after the last message: too few for a length field, they are passed over;
/// enough for one and too few for the offset field, they are an error.
pub proof fn law_torn_header(segment: SegmentView, messages: Seq<Seq<u8>>, tail: Seq<u8>)
    requires
        segment.holds(messages),
        tail.len() < 12,
    ensures
        scannable(segment.log + tail),
        tail.len() < 4 ==> recovered(segment.log + tail, segment.base_offset) == Ok::<
            u64,
            ErrorView,
        >(segment.next_offset),
        tail.len() >= 4 ==> recovered(segment.log + tail, segment.base_offset) == Err::<
            u64,
            ErrorView,
        >(
            ErrorView {
                kind: ErrorKind::UnexpectedEof,
                message: "failed to fill whole buffer"@,
            },
        ),
{
    lemma_scan_tail(segment.base_offset, messages, tail, 0);
    assert(messages.take(0) =~= Seq::empty());
}

/// A last frame counts with the offset that it names, whole or cut off inside its
/// payload, and can be followed only if that is not the highest offset there is.
pub proof fn law_torn_payload(
    segment: SegmentView,
    messages: Seq<Seq<u8>>,
    offset: u64,
    payload: Seq<u8>,
    k: int,
)
    requires
        segment.holds(messages),
        payload.len() <= 0xFFFF_FFF7,
        12 <= k <= 12 + payload.len(),
    ensures
        ({
            let log = segment.log + message_frame(offset, payload).take(k);
            &&& scannable(log) <==> offset < u64::MAX
            &&& offset < u64::MAX ==> recovered(log, segment.base_offset) == Ok::<u64, ErrorView>(
                (offset + 1) as u64,
            )
        }),
{
    let frame = message_frame(offset, payload);
    let tail = frame.take(k);
    let log = segment.log + tail;
    let p = segment.log.len() as int;
    lemma_scan_tail(segment.base_offset, messages, tail, 0);
    assert(messages.take(0) =~= Seq::empty());
    law_frame_layout(offset, payload);
    assert(log.subrange(p, p + 4) =~= frame.take(4));
    assert(log.subrange(p + 4, p + 12) =~= frame.subrange(4, 12));
    let end = p + 12 + payload.len();
    assert(scan(log, end, Some(offset)) == (Some(offset), ScanEnd::Clean));
    assert(scan(log, p, None) == (Some(offset), ScanEnd::Clean));
}

/// A frame that claims to be shorter than its own offset field makes the file one that
/// cannot be scanned.
pub proof fn law_bad_length(segment: SegmentView, messages: Seq<Seq<u8>>, n: nat, rest: Seq<u8>)
    requires
        segment.holds(messages),
        n < 8,
        rest.len() >= 8,
    ensures
        !scannable(segment.log + (be_bytes(n, 4) + rest)),
{
    let tail = be_bytes(n, 4) + rest;
    let log = segment.log + tail;
    let p = segment.log.len() as int;
    lemma_scan_tail(segment.base_offset, messages, tail, 0);
    assert(messages.take(0) =~= Seq::empty());
    lemma_pow256_widths();
    lemma_be_bytes_len(n, 4);
    law_be_decode_encode(n, 4);
    assert(log.subrange(p, p + 4) =~= be_bytes(n, 4));
}

/// Wherever the index sends a read, the payload of the frame there is what it gives,
/// whatever stands before and after, and whatever offset the frame names.
pub proof fn law_read_frame(
    segment: SegmentView,
    offset: u64,
    head: Seq<u8>,
    named: u64,
    payload: Seq<u8>,
    tail: Seq<u8>,
)
    requires
        segment.log == head + message_frame(named, payload) + tail,
        segment.idx().lookup(offset) == Some(head.len() as u64),
        head.len() <= u64::MAX,
        payload.len() <= 0xFFFF_FFF7,
    ensures
        segment.readable(offset),
        segment.read(offset) == Ok::<Option<Seq<u8>>, ErrorView>(Some(payload)),
{
    let frame = message_frame(named, payload);
    let p = head.len() as int;
    let n = payload.len() as int;
    law_frame_layout(named, payload);
    assert(segment.log.subrange(p, p + 4) =~= frame.take(4));
    assert(segment.log.subrange(p + 12, p + 12 + n) =~= frame.skip(12));
    if n == 0 {
        assert(payload =~= Seq::empty());
    }
}

/// What a read gives where there is no whole frame: nothing past the end of the file,
/// an error where no file reaches or the frame is cut off, and an empty payload where
/// the length field leaves room for no more. A length below that of the offset field
/// cannot be read.
pub proof fn law_read_damaged(
    segment: SegmentView,
    offset: u64,
    position: u64,
    n: nat,
    rest: Seq<u8>,
)
    requires
        segment.idx().lookup(offset) == Some(position),
    ensures
        position + 4 > segment.log.len() && position <= 0x7FFF_FFFF_FFFF_FFFF ==> segment.readable(
            offset,
        ) && segment.read(offset) == Ok::<Option<Seq<u8>>, ErrorView>(None),
        position + 4 > segment.log.len() && position > 0x7FFF_FFFF_FFFF_FFFF ==> segment.readable(
            offset,
        ) && segment.read(offset) == Err::<Option<Seq<u8>>, ErrorView>(
            ErrorView {
                kind: ErrorKind::InvalidInput,
                message: "Invalid argument (os error 22)"@,
            },
        ),
        position <= segment.log.len() && segment.log.skip(position as int) == be_bytes(n, 4) + rest
            && n <= 0xFFFF_FFFF ==> {
            &&& segment.readable(offset) <==> n >= 8
            &&& n == 8 ==> segment.read(offset) == Ok::<Option<Seq<u8>>, ErrorView>(
                Some(Seq::empty()),
            )
            &&& n > 8 && n > rest.len() ==> segment.read(offset) == Err::<
                Option<Seq<u8>>,
                ErrorView,
            >(
                ErrorView {
                    kind: ErrorKind::UnexpectedEof,
                    message: "failed to fill whole buffer"@,
                },
            )
        },
{
    let p = position as int;
    if position <= segment.log.len() && segment.log.skip(p) == be_bytes(n, 4) + rest && n
        <= 0xFFFF_FFFF {
        lemma_pow256_widths();
        lemma_be_bytes_len(n, 4);
        law_be_decode_encode(n, 4);
        assert(segment.log.skip(p).len() == segment.log.len() - p);
        assert((be_bytes(n, 4) + rest).len() == 4 + rest.len());
        assert(segment.log.subrange(p, p + 4) =~= segment.log.skip(p).take(4));
        assert(segment.log.skip(p).take(4) =~= be_bytes(n, 4));
    }
}

/// Where the index has no entry, there is nothing to read.
pub proof fn law_read_unindexed(segment: SegmentView, offset: u64)
    requires
        segment.idx().lookup(offset) == None::<u64>,
    ensures
        segment.readable(offset),
        segment.read(offset) == Ok::<Option<Seq<u8>>, ErrorView>(None),
{
}

} // verus!
