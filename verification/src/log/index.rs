//! The index of a segment: where in the `.log` file each offset starts.

use crate::bigendian::{
    be_bytes, be_value, law_be_decode_encode, lemma_be_bytes_len, lemma_pow256_widths, push_be,
    value_be,
};
use vstd::prelude::*;
use vstd::slice::slice_subrange;

verus! {

/// The number of bytes per index entry: a relative offset of four, a position of
/// eight.
pub const ENTRY_SIZE: u64 = 12;

/// An append-only index file that maps message offsets to byte positions
/// in the corresponding `.log` segment file.
///
/// Each entry is 12 bytes:
///
///   [relative_offset: u32][position: u64]
///
/// `relative_offset` is stored relative to `base_offset` so we can use u32
/// (max ~4 billion messages per segment) instead of u64, keeping entries small.
///
/// Because entries are fixed-size, lookup is O(log n) via binary search
/// rather than a linear scan.
pub struct Index {
    /// The bytes of the index file.
    pub(crate) file: Vec<u8>,
    /// The base offset of the owning segment (used to convert relative ↔ absolute).
    pub(crate) base_offset: u64,
    /// Number of entries currently in the index.
    pub entries: u64,
}

/// An index file and the base offset it counts from.
#[verifier::ext_equal]
pub struct IndexView {
    pub file: Seq<u8>,
    pub base_offset: u64,
}

/// The bytes of one entry. A relative offset beyond 32 bits is cut to its low 32.
pub open spec fn entry_bytes(relative: nat, position: u64) -> Seq<u8> {
    be_bytes(relative % 0x1_0000_0000, 4) + be_bytes(position as nat, 8)
}

impl IndexView {
    /// How many whole entries the file holds.
    pub open spec fn count(self) -> nat {
        self.file.len() / 12
    }

    /// The relative offset of entry `n`.
    pub open spec fn relative(self, n: int) -> u32 {
        be_value(self.file.subrange(12 * n, 12 * n + 4)) as u32
    }

    /// The position of entry `n`.
    pub open spec fn position(self, n: int) -> u64 {
        be_value(self.file.subrange(12 * n + 4, 12 * n + 12)) as u64
    }

    /// The file with an entry for `offset` at its end.
    pub open spec fn append(self, offset: u64, position: u64) -> IndexView {
        IndexView {
            file: self.file + entry_bytes((offset - self.base_offset) as nat, position),
            ..self
        }
    }

    /// Halving search for `target` among the entries from `lo` to `hi`, both
    /// included.
    pub open spec fn search(self, target: u32, lo: int, hi: int) -> Option<u64>
        decreases hi - lo + 1,
    {
        if lo > hi {
            None
        } else {
            let mid = lo + (hi - lo) / 2;
            if self.relative(mid) == target {
                Some(self.position(mid))
            } else if self.relative(mid) < target {
                self.search(target, mid + 1, hi)
            } else {
                self.search(target, lo, mid - 1)
            }
        }
    }

    /// Where the index says that the message at `offset` starts.
    pub open spec fn lookup(self, offset: u64) -> Option<u64> {
        if offset < self.base_offset || offset - self.base_offset > u32::MAX {
            None
        } else {
            self.search((offset - self.base_offset) as u32, 0, self.count() - 1)
        }
    }

    /// A right answer to a lookup of `offset`: the position of an entry for that
    /// offset, or nothing. In an ascending index nothing is the answer only if there
    /// is no such entry.
    pub open spec fn answers(self, offset: u64, r: Option<u64>) -> bool {
        match r {
            Some(position) => exists|k: int|
                0 <= k < self.count() && self.base_offset + #[trigger] self.relative(k) == offset
                    && self.position(k) == position,
            None => self.ascending() ==> forall|k: int|
                0 <= k < self.count() ==> self.base_offset + #[trigger] self.relative(k) != offset,
        }
    }

    /// The entries ascend by relative offset.
    pub open spec fn ascending(self) -> bool {
        forall|i: int, j: int|
            0 <= i < j < self.count() ==> #[trigger] self.relative(i) < #[trigger] self.relative(j)
    }
}

impl View for Index {
    type V = IndexView;

    open(crate) spec fn view(&self) -> IndexView {
        IndexView { file: self.file@, base_offset: self.base_offset }
    }
}

/// The bytes of an entry for the message `relative` places after the base offset,
/// at `position` of the `.log` file.
pub fn encode_entry(relative: u64, position: u64) -> (bytes: Vec<u8>)
    ensures
        bytes@ == entry_bytes(relative as nat, position),
{
    let mut bytes: Vec<u8> = Vec::new();
    push_be(&mut bytes, relative % 0x1_0000_0000, 4);
    push_be(&mut bytes, position, 8);
    assert(bytes@ =~= entry_bytes(relative as nat, position));
    bytes
}

impl Index {
    /// The entry count is that of the file.
    pub open(crate) spec fn wf(&self) -> bool {
        self.entries == self@.count()
    }

    /// Open an index file, empty when it is new.
    pub fn open(file: Vec<u8>, base_offset: u64) -> (index: Index)
        ensures
            index.wf(),
            index@ == (IndexView { file: file@, base_offset }),
    {
        let entries: u64 = file.len() as u64 / ENTRY_SIZE;
        Index { file, base_offset, entries }
    }

    /// Append an entry mapping `absolute_offset` → `position`.
    ///
    /// `position` is the byte offset in the `.log` file where this message starts.
    pub fn append(&mut self, absolute_offset: u64, position: u64)
        requires
            old(self).wf(),
            absolute_offset >= old(self)@.base_offset,
        ensures
            final(self).wf(),
            final(self)@ == old(self)@.append(absolute_offset, position),
    {
        let mut bytes: Vec<u8> = encode_entry(absolute_offset - self.base_offset, position);
        proof {
            lemma_be_bytes_len(
                ((absolute_offset - self@.base_offset) % 0x1_0000_0000) as nat,
                4,
            );
            lemma_be_bytes_len(position as nat, 8);
        }
        self.file.append(&mut bytes);
        self.entries = self.file.len() as u64 / ENTRY_SIZE;
    }

    /// Look up the byte position of `absolute_offset` using binary search.
    ///
    /// Returns `None` if the offset is not in this index.
    pub fn lookup(&self, absolute_offset: u64) -> (r: Option<u64>)
        requires
            self.wf(),
        ensures
            r == self@.lookup(absolute_offset),
            self@.answers(absolute_offset, r),
    {
        proof {
            law_lookup(self@, absolute_offset);
        }
        if absolute_offset < self.base_offset || absolute_offset - self.base_offset
            > 0xFFFF_FFFF {
            return None;
        }
        let target: u32 = (absolute_offset - self.base_offset) as u32;
        if self.entries == 0 {
            return None;
        }
        let mut lo: u64 = 0;
        let mut hi: u64 = self.entries - 1;
        while lo <= hi
            invariant_except_break
                self.wf(),
                self@.answers(absolute_offset, self@.lookup(absolute_offset)),
                hi < self.entries,
                lo <= self.entries,
                self@.lookup(absolute_offset) == self@.search(target, 0, self@.count() - 1),
                self@.search(target, 0, self@.count() - 1) == self@.search(
                    target,
                    lo as int,
                    hi as int,
                ),
            ensures
                self@.lookup(absolute_offset) == None::<u64>,
            decreases self.entries - lo, hi,
        {
            let mid: u64 = lo + (hi - lo) / 2;
            let (rel, pos): (u32, u64) = self.read_entry(mid);
            if rel == target {
                return Some(pos);
            } else if rel < target {
                lo = mid + 1;
            } else {
                if mid == 0 {
                    assert(self@.search(target, 0, -1) == None::<u64>);
                    break;
                }
                hi = mid - 1;
            }
        }
        None
    }

    /// The bytes of the index file.
    pub fn bytes(&self) -> (bytes: &[u8])
        ensures
            bytes@ == self@.file,
    {
        self.file.as_slice()
    }

    /// Read the entry at index position `n` (zero-based).
    fn read_entry(&self, n: u64) -> (r: (u32, u64))
        requires
            self.wf(),
            n < self.entries,
        ensures
            r.0 == self@.relative(n as int),
            r.1 == self@.position(n as int),
    {
        proof {
            lemma_pow256_widths();
        }
        let file: &[u8] = self.file.as_slice();
        assert(12 * n + 12 <= file.len());
        let start: usize = n as usize * 12;
        let relative: u32 = value_be(slice_subrange(file, start, start + 4)) as u32;
        let position: u64 = value_be(slice_subrange(file, start + 4, start + 12));
        (relative, position)
    }
}

/// In an ascending index the halving search finds every entry of the range it is
/// given, and finds nothing that is not there.
proof fn lemma_search(index: IndexView, target: u32, lo: int, hi: int)
    requires
        index.ascending(),
        0 <= lo,
        hi < index.count(),
    ensures
        forall|k: int|
            lo <= k <= hi && #[trigger] index.relative(k) == target ==> index.search(
                target,
                lo,
                hi,
            ) == Some(index.position(k)),
        (forall|k: int| lo <= k <= hi ==> #[trigger] index.relative(k) != target)
            ==> index.search(target, lo, hi) == None::<u64>,
    decreases hi - lo + 1,
{
    if lo <= hi {
        let mid = lo + (hi - lo) / 2;
        if index.relative(mid) < target {
            lemma_search(index, target, mid + 1, hi);
        } else if index.relative(mid) > target {
            lemma_search(index, target, lo, mid - 1);
        }
    }
}

/// Whatever an index holds, a lookup only ever answers with the position of an
/// entry for the offset asked for. An ascending index answers with that of the one
/// entry there is, and with nothing only if there is none.
pub proof fn law_lookup(index: IndexView, offset: u64)
    ensures
        index.answers(offset, index.lookup(offset)),
        index.ascending() ==> forall|k: int|
            0 <= k < index.count() && index.base_offset + #[trigger] index.relative(k) == offset
                ==> index.lookup(offset) == Some(index.position(k)),
{
    if index.base_offset <= offset <= index.base_offset + u32::MAX {
        let target = (offset - index.base_offset) as u32;
        lemma_search_sound(index, target, 0, index.count() - 1);
        if index.ascending() {
            lemma_search(index, target, 0, index.count() - 1);
        }
    }
}

proof fn lemma_search_sound(index: IndexView, target: u32, lo: int, hi: int)
    ensures
        index.search(target, lo, hi) matches Some(position) ==> exists|k: int|
            lo <= k <= hi && #[trigger] index.relative(k) == target && index.position(k)
                == position,
    decreases hi - lo + 1,
{
    if lo <= hi {
        let mid = lo + (hi - lo) / 2;
        if index.relative(mid) < target {
            lemma_search_sound(index, target, mid + 1, hi);
        } else if index.relative(mid) > target {
            lemma_search_sound(index, target, lo, mid - 1);
        }
    }
}

/// An appended entry is the last one, and the entries before it are unchanged.
pub proof fn law_append_entry(index: IndexView, offset: u64, position: u64)
    requires
        index.file.len() % 12 == 0,
        index.base_offset <= offset <= index.base_offset + u32::MAX,
    ensures
        index.append(offset, position).file.len() == index.file.len() + 12,
        index.append(offset, position).count() == index.count() + 1,
        index.append(offset, position).relative(index.count() as int) == offset
            - index.base_offset,
        index.append(offset, position).position(index.count() as int) == position,
        forall|k: int|
            0 <= k < index.count() ==> #[trigger] index.append(offset, position).relative(k)
                == index.relative(k),
        forall|k: int|
            0 <= k < index.count() ==> #[trigger] index.append(offset, position).position(k)
                == index.position(k),
{
    let relative = (offset - index.base_offset) as nat;
    let next = index.append(offset, position);
    let n = index.count() as int;
    lemma_be_bytes_len(relative, 4);
    lemma_be_bytes_len(position as nat, 8);
    lemma_pow256_widths();
    law_be_decode_encode(relative, 4);
    law_be_decode_encode(position as nat, 8);
    assert(index.file.len() == 12 * n);
    assert(next.file.subrange(12 * n, 12 * n + 4) =~= be_bytes(relative, 4));
    assert(next.file.subrange(12 * n + 4, 12 * n + 12) =~= be_bytes(position as nat, 8));
    assert forall|k: int| 0 <= k < n implies #[trigger] next.relative(k) == index.relative(k) by {
        assert(next.file.subrange(12 * k, 12 * k + 4) =~= index.file.subrange(12 * k, 12 * k + 4));
    }
    assert forall|k: int| 0 <= k < n implies #[trigger] next.position(k) == index.position(k) by {
        assert(next.file.subrange(12 * k + 4, 12 * k + 12) =~= index.file.subrange(
            12 * k + 4,
            12 * k + 12,
        ));
    }
}

/// An entry takes twelve bytes, four for the offset relative to the base, cut to 32
/// bits, and eight for the position. Fewer than twelve bytes at the end are no entry,
/// and change none.
pub proof fn law_entries(index: IndexView, offset: u64, position: u64, tail: Seq<u8>)
    requires
        index.file.len() % 12 == 0,
        index.base_offset <= offset,
        tail.len() < 12,
    ensures
        ({
            let n = index.file.len() as int / 12;
            let next = index.append(offset, position);
            let torn = IndexView { file: index.file + tail, ..index };
            &&& next.base_offset == index.base_offset
            &&& next.file.take(12 * n) == index.file
            &&& next.file.len() == 12 * n + 12
            &&& be_value(next.file.subrange(12 * n, 12 * n + 4)) == (offset - index.base_offset)
                % 0x1_0000_0000
            &&& be_value(next.file.subrange(12 * n + 4, 12 * n + 12)) == position
            &&& next.relative(n) == (offset - index.base_offset) % 0x1_0000_0000
            &&& next.position(n) == position
            &&& index.count() == n && torn.count() == n && next.count() == n + 1
            &&& forall|k: int| 0 <= k < n ==> #[trigger] torn.relative(k) == index.relative(k)
            &&& forall|k: int| 0 <= k < n ==> #[trigger] torn.position(k) == index.position(k)
        }),
{
    let n = index.file.len() as int / 12;
    let next = index.append(offset, position);
    let torn = IndexView { file: index.file + tail, ..index };
    let relative = ((offset - index.base_offset) % 0x1_0000_0000) as nat;
    lemma_be_bytes_len(relative, 4);
    lemma_be_bytes_len(position as nat, 8);
    lemma_pow256_widths();
    law_be_decode_encode(relative, 4);
    law_be_decode_encode(position as nat, 8);
    assert(next.file.take(12 * n) =~= index.file);
    assert(next.file.subrange(12 * n, 12 * n + 4) =~= be_bytes(relative, 4));
    assert(next.file.subrange(12 * n + 4, 12 * n + 12) =~= be_bytes(position as nat, 8));
    assert forall|k: int| 0 <= k < n implies #[trigger] torn.relative(k) == index.relative(k) by {
        assert(torn.file.subrange(12 * k, 12 * k + 4) =~= index.file.subrange(12 * k, 12 * k + 4));
    }
    assert forall|k: int| 0 <= k < n implies #[trigger] torn.position(k) == index.position(k) by {
        assert(torn.file.subrange(12 * k + 4, 12 * k + 12) =~= index.file.subrange(
            12 * k + 4,
            12 * k + 12,
        ));
    }
}

} // verus!
