//! The log directory: one active segment that takes writes, the ids of the
//! older read-only segments, and the rotation policy between them.
use vstd::prelude::*;
use crate::codec::{BLOCK_SIZE, CHUNK_HEADER_SIZE};
use crate::error::WalError;
use crate::segment::{agrees, lemma_round_trip, read_spec, ChunkPosition, Segment, MAX_SEGMENT_SIZE};

verus! {

/// Id of the first segment of an empty log directory.
pub const INITIAL_SEGMENT_FILE_ID: u32 = 1;

/// A log over a set of segment files.
#[derive(Debug)]
pub struct Wal {
    /// The only segment that accepts writes.
    pub active: Segment,
    /// Ids of the older, read-only segments.
    pub older: Vec<u32>,
    /// Size budget of one segment in bytes.
    pub segment_size: u64,
}

/// The entry of a directory listing of (segment id, file length) pairs that
/// becomes the active segment: the largest id, and the length of the last
/// entry that carries it.
pub open spec fn active_entry(s: Seq<(u32, u64)>) -> (u32, u64)
    decreases s.len(),
{
    if s.len() == 0 {
        (0, 0)
    } else {
        let prev = active_entry(s.drop_last());
        if s.last().0 >= prev.0 {
            s.last()
        } else {
            prev
        }
    }
}

/// Whether a listing names segment `id`.
pub open spec fn lists(s: Seq<(u32, u64)>, id: u32) -> bool {
    exists|i: int| 0 <= i < s.len() && #[trigger] s[i].0 == id
}

/// A write's result with the appended bytes as a sequence.
pub open spec fn result_view(r: Result<(ChunkPosition, Vec<u8>), WalError>) -> Result<
    (ChunkPosition, Seq<u8>),
    WalError,
> {
    match r {
        Ok((p, b)) => Ok((p, b@)),
        Err(e) => Err(e),
    }
}

impl Wal {
    /// The active segment's cursor is valid and every older id is below the
    /// active one.
    pub open spec fn wf(&self) -> bool {
        &&& self.active.wf()
        &&& self.active.size_spec() <= MAX_SEGMENT_SIZE
        &&& forall|i: int| 0 <= i < self.older@.len() ==> #[trigger] self.older@[i] < self.active.id
    }

    /// Whether the log holds segment `id`.
    pub open spec fn has_segment(&self, id: u32) -> bool {
        id == self.active.id || self.older@.contains(id)
    }

    /// Whether a record of `len` bytes would take the active segment past
    /// its budget.
    pub open spec fn is_full_spec(&self, len: nat) -> bool {
        self.active.size_spec() + len + CHUNK_HEADER_SIZE > self.segment_size
    }

    /// The segment that takes a record of `len` bytes: a new, empty one
    /// with the next id if the active one is full, else the active one.
    pub open spec fn target(&self, len: nat) -> Segment {
        if self.is_full_spec(len) {
            Segment { id: (self.active.id + 1) as u32, current_block_number: 0, current_block_size: 0 }
        } else {
            self.active
        }
    }

    /// What `write` owes: `old` is the log before, `new` after, `r` the result.
    pub open spec fn write_post(
        old: Wal,
        data: Seq<u8>,
        new: Wal,
        r: Result<(ChunkPosition, Seq<u8>), WalError>,
    ) -> bool {
        let t = old.target(data.len());
        if old.is_full_spec(data.len()) && old.active.id == u32::MAX {
            r == Err::<(ChunkPosition, Seq<u8>), WalError>(WalError::SegmentIdsExhausted) && new == old
        } else if t.size_spec() + 2 * data.len() + 2 * BLOCK_SIZE > MAX_SEGMENT_SIZE {
            r == Err::<(ChunkPosition, Seq<u8>), WalError>(WalError::RecordTooLarge) && new == old
        } else {
            &&& r == Ok::<(ChunkPosition, Seq<u8>), WalError>(
                (t.next_position(), t.append_image(data)),
            )
            &&& new.active.wf()
            &&& new.active.id == t.id
            &&& new.active.size_spec() == t.size_spec() + t.append_image(data).len()
            &&& new.older@ == if old.is_full_spec(data.len()) {
                old.older@.push(old.active.id)
            } else {
                old.older@
            }
            &&& new.segment_size == old.segment_size
        }
    }

    /// The record at `pos`, given the bytes of the segment that `pos` names.
    pub open spec fn read_post(&self, pos: ChunkPosition, contents: Seq<u8>) -> Result<
        Seq<u8>,
        WalError,
    > {
        if !self.has_segment(pos.segment_id) {
            Err(WalError::SegmentFileNotFound)
        } else {
            read_spec(contents, pos.block_number as nat, pos.chunk_offset as nat)
        }
    }

    /// Opens a log from a listing of its directory's segment files as
    /// (id, file length) pairs. An empty listing gives a log whose active
    /// segment is a new one with the initial id. Otherwise the largest id
    /// becomes the active segment, its cursor restored from its length, and
    /// every other id an older segment.
    pub fn open(segments: &Vec<(u32, u64)>, segment_size: u64) -> (r: Wal)
        requires
            forall|i: int| 0 <= i < segments@.len() ==> #[trigger] segments@[i].1 <= MAX_SEGMENT_SIZE,
        ensures
            r.wf(),
            r.segment_size == segment_size,
            segments@.len() == 0 ==> r.active.id == INITIAL_SEGMENT_FILE_ID && r.active.size_spec()
                == 0 && r.older@.len() == 0,
            segments@.len() > 0 ==> r.active.id == active_entry(segments@).0
                && r.active.size_spec() == active_entry(segments@).1,
            forall|id: u32| #[trigger]
                r.older@.contains(id) <==> (lists(segments@, id) && id != r.active.id),
    {
        let n = segments.len();
        if n == 0 {
            return Wal {
                active: Segment::open(INITIAL_SEGMENT_FILE_ID),
                older: Vec::new(),
                segment_size,
            };
        }
        let mut best: u32 = 0;
        let mut best_len: u64 = 0;
        let mut i: usize = 0;
        while i < n
            invariant
                n == segments@.len(),
                i <= n,
                (best, best_len) == active_entry(segments@.take(i as int)),
                forall|j: int| 0 <= j < segments@.len() ==> #[trigger] segments@[j].1 <= MAX_SEGMENT_SIZE,
                best_len <= MAX_SEGMENT_SIZE,
                forall|j: int| 0 <= j < i ==> #[trigger] segments@[j].0 <= best,
            decreases n - i,
        {
            let e = segments[i];
            assert(segments@.take(i + 1).drop_last() =~= segments@.take(i as int));
            if e.0 >= best {
                best = e.0;
                best_len = e.1;
            }
            i = i + 1;
        }
        assert(segments@.take(n as int) =~= segments@);
        let mut older: Vec<u32> = Vec::new();
        let mut k: usize = 0;
        while k < n
            invariant
                n == segments@.len(),
                k <= n,
                forall|j: int| 0 <= j < n ==> #[trigger] segments@[j].0 <= best,
                forall|j: int| 0 <= j < older@.len() ==> #[trigger] older@[j] < best,
                forall|id: u32| #[trigger]
                    older@.contains(id) <==> ((exists|j: int| 0 <= j < k && #[trigger] segments@[j].0
                        == id) && id != best),
            decreases n - k,
        {
            let id = segments[k].0;
            let ghost prev = older@;
            if id != best {
                older.push(id);
            }
            k = k + 1;
            assert forall|x: u32| #[trigger]
                older@.contains(x) <==> ((exists|j: int| 0 <= j < k && #[trigger] segments@[j].0
                    == x) && x != best) by {
                if older@.contains(x) {
                    if prev.contains(x) {
                        let j = choose|j: int| 0 <= j < k - 1 && #[trigger] segments@[j].0 == x;
                        assert(0 <= j < k && segments@[j].0 == x);
                    } else {
                        assert(segments@[k - 1].0 == x);
                    }
                }
                if (exists|j: int| 0 <= j < k && #[trigger] segments@[j].0 == x) && x != best {
                    let j = choose|j: int| 0 <= j < k && #[trigger] segments@[j].0 == x;
                    if j < k - 1 {
                        assert(prev.contains(x));
                        let q = choose|q: int| 0 <= q < prev.len() && prev[q] == x;
                        assert(older@[q] == x);
                    } else {
                        assert(older@[older@.len() - 1] == x);
                    }
                }
            }
        }
        Wal { active: Segment::restore(best, best_len), older, segment_size }
    }

    /// Whether a record of `delta` bytes would take the active segment past
    /// its budget.
    pub fn is_full(&self, delta: u64) -> (r: bool)
        requires
            self.wf(),
        ensures
            r == self.is_full_spec(delta as nat),
    {
        let size = self.active.size();
        if size + 7 > self.segment_size {
            true
        } else {
            delta > self.segment_size - size - 7
        }
    }

    /// Plans the write of one record. If it would take the active segment
    /// past its budget, the log first rotates: the active segment joins the
    /// older ones and a new, empty segment with the next id becomes active.
    /// Returns the record's position and the bytes to append to the file of
    /// the segment that position names.
    pub fn write(&mut self, data: &[u8]) -> (r: Result<(ChunkPosition, Vec<u8>), WalError>)
        requires
            old(self).wf(),
        ensures
            final(self).wf(),
            Self::write_post(*old(self), data@, *final(self), result_view(r)),
    {
        let full = self.is_full(data.len() as u64);
        if full && self.active.id == u32::MAX {
            return Err(WalError::SegmentIdsExhausted);
        }
        let base: u64 = if full {
            0
        } else {
            self.active.size()
        };
        if base > MAX_SEGMENT_SIZE - 65536 || data.len() as u64 > (MAX_SEGMENT_SIZE - 65536 - base)
            / 2 {
            return Err(WalError::RecordTooLarge);
        }
        if full {
            let prev = self.active.id;
            self.active = Segment::open(prev + 1);
            self.older.push(prev);
        }
        let ghost before = self.active;
        let (pos, bytes) = self.active.write(data);
        proof {
            crate::segment::lemma_record_image_len(before.next_position().chunk_offset as nat, data@);
        }
        Ok((pos, bytes))
    }

    /// Reads the record at `pos`, given `contents`, the bytes of the segment
    /// file that `pos` names. Fails with `SegmentFileNotFound` if the log
    /// holds no such segment.
    pub fn read(&self, pos: &ChunkPosition, contents: &[u8]) -> (r: Result<Vec<u8>, WalError>)
        ensures
            agrees(r, self.read_post(*pos, contents@)),
    {
        if pos.segment_id != self.active.id && !self.holds_older(pos.segment_id) {
            return Err(WalError::SegmentFileNotFound);
        }
        Segment::read(contents, pos.block_number, pos.chunk_offset)
    }

    /// Whether `id` is the id of an older segment.
    pub fn holds_older(&self, id: u32) -> (r: bool)
        ensures
            r == self.older@.contains(id),
    {
        let mut i: usize = 0;
        while i < self.older.len()
            invariant
                i <= self.older@.len(),
                forall|j: int| 0 <= j < i ==> self.older@[j] != id,
            decreases self.older@.len() - i,
        {
            if self.older[i] == id {
                return true;
            }
            i = i + 1;
        }
        false
    }
}

/// Rotation: when a record would take the active segment past its budget, a
/// write that succeeds makes a segment whose id is one more the active one;
/// the record goes wholly into that new segment, so reading its appended
/// bytes alone gives the record back; and every segment the log held, the
/// displaced one among them, stays readable under its own id.
pub proof fn lemma_rotation(
    old: Wal,
    data: Seq<u8>,
    new: Wal,
    r: Result<(ChunkPosition, Seq<u8>), WalError>,
)
    requires
        old.wf(),
        Wal::write_post(old, data, new, r),
        r is Ok,
        old.is_full_spec(data.len()),
    ensures
        new.active.id == old.active.id + 1,
        new.older@.contains(old.active.id),
        r->Ok_0.0.segment_id == new.active.id,
        read_spec(r->Ok_0.1, r->Ok_0.0.block_number as nat, r->Ok_0.0.chunk_offset as nat) == Ok::<
            Seq<u8>,
            WalError,
        >(data),
        forall|id: u32| old.has_segment(id) ==> #[trigger] new.has_segment(id),
        forall|pos: ChunkPosition, contents: Seq<u8>|
            pos.segment_id == old.active.id ==> #[trigger] new.read_post(pos, contents) == read_spec(
                contents,
                pos.block_number as nat,
                pos.chunk_offset as nat,
            ),
{
    let t = old.target(data.len());
    assert(new.older@.last() == old.active.id);
    lemma_round_trip(t, Seq::<u8>::empty(), data);
    assert(Seq::<u8>::empty() + t.append_image(data) =~= t.append_image(data));
    assert forall|id: u32| old.has_segment(id) implies #[trigger] new.has_segment(id) by {
        if old.older@.contains(id) {
            let q = choose|q: int| 0 <= q < old.older@.len() && old.older@[q] == id;
            assert(new.older@[q] == id);
        }
    }
}

/// Reopening: listing a log's segment files with their lengths and opening
/// the log from that listing gives back the same active segment id and the
/// same write cursor, so the next record goes where it would have gone.
pub proof fn lemma_reopen(w: Wal, listing: Seq<(u32, u64)>, reopened: Segment)
    requires
        w.wf(),
        forall|i: int| 0 <= i < listing.len() ==> #[trigger] w.has_segment(listing[i].0),
        forall|i: int|
            0 <= i < listing.len() && #[trigger] listing[i].0 == w.active.id ==> listing[i].1
                == w.active.size_spec(),
        lists(listing, w.active.id),
        reopened.wf(),
        reopened.id == active_entry(listing).0,
        reopened.size_spec() == active_entry(listing).1,
    ensures
        reopened.id == w.active.id,
        reopened.current_block_number == w.active.current_block_number,
        reopened.current_block_size == w.active.current_block_size,
        reopened.next_position() == w.active.next_position(),
{
    assert forall|i: int| 0 <= i < listing.len() implies #[trigger] listing[i].0 <= w.active.id by {
        assert(w.has_segment(listing[i].0));
        if listing[i].0 != w.active.id {
            let q = choose|q: int| 0 <= q < w.older@.len() && w.older@[q] == listing[i].0;
            assert(w.older@[q] < w.active.id);
        }
    }
    lemma_active_entry(listing, w.active.id, w.active.size_spec() as u64);
}

/// The active entry of a listing whose ids are all at most `id`, and which
/// lists `id` always with length `len`, is (`id`, `len`).
proof fn lemma_active_entry(s: Seq<(u32, u64)>, id: u32, len: u64)
    requires
        forall|i: int| 0 <= i < s.len() ==> #[trigger] s[i].0 <= id,
        forall|i: int| 0 <= i < s.len() && #[trigger] s[i].0 == id ==> s[i].1 == len,
    ensures
        active_entry(s).0 <= id,
        lists(s, id) ==> active_entry(s) == (id, len),
    decreases s.len(),
{
    if s.len() > 0 {
        let p = s.drop_last();
        assert forall|i: int| 0 <= i < p.len() implies #[trigger] p[i].0 <= id by {
            assert(p[i] == s[i]);
        }
        assert forall|i: int| 0 <= i < p.len() && #[trigger] p[i].0 == id implies p[i].1 == len by {
            assert(p[i] == s[i]);
        }
        lemma_active_entry(p, id, len);
        if lists(s, id) && s.last().0 != id {
            let i = choose|i: int| 0 <= i < s.len() && #[trigger] s[i].0 == id;
            assert(i < s.len() - 1);
            assert(p[i].0 == id);
        }
    }
}

} // verus!
