//! One segment file's bookkeeping: its write cursor, the bytes that a write
//! appends to the file, and how a record is read back from the file's bytes.
use vstd::prelude::*;
use crate::codec::{
    chunk_bytes, decode, decode_spec, encode, lemma_decode_encoded, ChunkType, BLOCK_SIZE,
    CHUNK_HEADER_SIZE,
};
use crate::error::WalError;
use vstd::slice::slice_subrange;

verus! {

/// The largest size a segment can reach while its block numbers fit in 32 bits.
pub const MAX_SEGMENT_SIZE: u64 = 4294967295 * 32768;

/// The address of a record's first chunk.
#[derive(Debug, Clone, Copy, PartialEq, Eq, Structural)]
pub struct ChunkPosition {
    pub segment_id: u32,
    pub block_number: u32,
    /// Byte offset of the chunk header within its block.
    pub chunk_offset: u64,
}

/// The write cursor of one segment file. The cursor is the file's length,
/// split into a block number and the bytes used within that block.
#[derive(Debug)]
pub struct Segment {
    pub id: u32,
    pub current_block_number: u32,
    pub current_block_size: u32,
}

/// Zero bytes that pad a block whose remaining space cannot hold a chunk header.
pub open spec fn pad_len(used: nat) -> nat {
    if used + CHUNK_HEADER_SIZE >= BLOCK_SIZE {
        (BLOCK_SIZE - used) as nat
    } else {
        0
    }
}

pub open spec fn zeros(n: nat) -> Seq<u8> {
    Seq::new(n, |i: int| 0u8)
}

/// The chunks that carry what is left of a record once its first chunk has
/// filled a block: middle chunks that each fill a block, then a last one.
pub open spec fn tail_image(rest: Seq<u8>) -> Seq<u8>
    decreases rest.len(),
{
    if rest.len() <= BLOCK_SIZE - CHUNK_HEADER_SIZE {
        chunk_bytes(rest, ChunkType::Last)
    } else {
        chunk_bytes(rest.take(BLOCK_SIZE - CHUNK_HEADER_SIZE), ChunkType::Middle) + tail_image(
            rest.skip(BLOCK_SIZE - CHUNK_HEADER_SIZE),
        )
    }
}

/// The chunks of a record whose first header starts at `offset` in a block:
/// one full chunk if it fits there, else a first chunk that fills the block
/// and then `tail_image` of the rest.
pub open spec fn record_image(offset: nat, data: Seq<u8>) -> Seq<u8> {
    if offset + data.len() + CHUNK_HEADER_SIZE <= BLOCK_SIZE {
        chunk_bytes(data, ChunkType::Full)
    } else {
        let cap = BLOCK_SIZE - offset - CHUNK_HEADER_SIZE;
        chunk_bytes(data.take(cap), ChunkType::First) + tail_image(data.skip(cap))
    }
}

/// Prepends `prefix` to a successful result and passes an error on.
pub open spec fn prepend(prefix: Seq<u8>, r: Result<Seq<u8>, WalError>) -> Result<Seq<u8>, WalError> {
    match r {
        Ok(s) => Ok(prefix + s),
        Err(e) => Err(e),
    }
}

/// Reads the chain of chunks that starts at `offset` in block `block` of a
/// segment's bytes `c`: each chunk must decode and pass its checksum; a first
/// or middle chunk continues at the start of the next block.
pub open spec fn chain_spec(c: Seq<u8>, block: nat, offset: nat) -> Result<Seq<u8>, WalError>
    decreases c.len() + BLOCK_SIZE - block * BLOCK_SIZE,
{
    let start = block * BLOCK_SIZE;
    let end = if start + BLOCK_SIZE <= c.len() {
        start + BLOCK_SIZE
    } else {
        c.len() as int
    };
    if start + offset + CHUNK_HEADER_SIZE > end {
        Err(WalError::ChunkCorrupted)
    } else {
        match decode_spec(c, start + offset, end) {
            None => Err(WalError::ChunkCorrupted),
            Some((t, payload)) => if t.ends_record() {
                Ok(payload)
            } else {
                prepend(payload, chain_spec(c, block + 1, 0))
            },
        }
    }
}

/// The types of the chunks that a read starting at (`block`, `offset`)
/// decodes, in block order, up to the first that ends a record or fails.
pub open spec fn chain_types(c: Seq<u8>, block: nat, offset: nat) -> Seq<ChunkType>
    decreases c.len() + BLOCK_SIZE - block * BLOCK_SIZE,
{
    let start = block * BLOCK_SIZE;
    let end = if start + BLOCK_SIZE <= c.len() {
        start + BLOCK_SIZE
    } else {
        c.len() as int
    };
    if start + offset + CHUNK_HEADER_SIZE > end {
        Seq::empty()
    } else {
        match decode_spec(c, start + offset, end) {
            None => Seq::empty(),
            Some((t, payload)) => if t.ends_record() {
                seq![t]
            } else {
                seq![t] + chain_types(c, block + 1, 0)
            },
        }
    }
}

/// One first chunk, then any number of middle ones, then one last chunk.
pub open spec fn split_types(ts: Seq<ChunkType>) -> bool {
    &&& ts.len() >= 2
    &&& ts[0] == ChunkType::First
    &&& ts.last() == ChunkType::Last
    &&& forall|i: int| 0 < i < ts.len() - 1 ==> #[trigger] ts[i] == ChunkType::Middle
}

/// The record at (`block`, `offset`) of a segment's bytes `c`.
pub open spec fn read_spec(c: Seq<u8>, block: nat, offset: nat) -> Result<Seq<u8>, WalError> {
    if offset >= BLOCK_SIZE || block * BLOCK_SIZE + offset >= c.len() {
        Err(WalError::OutOfRange)
    } else {
        chain_spec(c, block, offset)
    }
}

/// An executable result that agrees with a result over sequences.
pub open spec fn agrees(r: Result<Vec<u8>, WalError>, s: Result<Seq<u8>, WalError>) -> bool {
    match (r, s) {
        (Ok(v), Ok(w)) => v@ == w,
        (Err(e), Err(f)) => e == f,
        _ => false,
    }
}

/// The chunks of a record take at most twice its length plus one header.
pub proof fn lemma_tail_image_len(rest: Seq<u8>)
    ensures
        tail_image(rest).len() <= 2 * rest.len() + CHUNK_HEADER_SIZE,
    decreases rest.len(),
{
    if rest.len() > BLOCK_SIZE - CHUNK_HEADER_SIZE {
        lemma_tail_image_len(rest.skip(BLOCK_SIZE - CHUNK_HEADER_SIZE));
    }
}

pub proof fn lemma_record_image_len(offset: nat, data: Seq<u8>)
    requires
        offset + CHUNK_HEADER_SIZE < BLOCK_SIZE,
    ensures
        record_image(offset, data).len() <= 2 * data.len() + 2 * CHUNK_HEADER_SIZE,
{
    if offset + data.len() + CHUNK_HEADER_SIZE > BLOCK_SIZE {
        let cap = BLOCK_SIZE - offset - CHUNK_HEADER_SIZE;
        lemma_tail_image_len(data.skip(cap));
    }
}

impl Segment {
    /// The cursor stays inside its block.
    pub open spec fn wf(&self) -> bool {
        self.current_block_size < BLOCK_SIZE
    }

    /// The segment's length in bytes.
    pub open spec fn size_spec(&self) -> nat {
        (self.current_block_number * BLOCK_SIZE + self.current_block_size) as nat
    }

    /// Where the header of the next record goes.
    pub open spec fn next_position(&self) -> ChunkPosition {
        if self.current_block_size + CHUNK_HEADER_SIZE >= BLOCK_SIZE {
            ChunkPosition {
                segment_id: self.id,
                block_number: (self.current_block_number + 1) as u32,
                chunk_offset: 0,
            }
        } else {
            ChunkPosition {
                segment_id: self.id,
                block_number: self.current_block_number,
                chunk_offset: self.current_block_size as u64,
            }
        }
    }

    /// The bytes that writing `data` appends to the segment file.
    pub open spec fn append_image(&self, data: Seq<u8>) -> Seq<u8> {
        zeros(pad_len(self.current_block_size as nat)) + record_image(
            self.next_position().chunk_offset as nat,
            data,
        )
    }

    /// A new, empty segment.
    pub fn open(id: u32) -> (r: Segment)
        ensures
            r.wf(),
            r.id == id,
            r.size_spec() == 0,
    {
        Segment { id, current_block_number: 0, current_block_size: 0 }
    }

    /// A segment whose file already holds `len` bytes: the cursor is
    /// restored from the length.
    pub fn restore(id: u32, len: u64) -> (r: Segment)
        requires
            len <= MAX_SEGMENT_SIZE,
        ensures
            r.wf(),
            r.id == id,
            r.size_spec() == len,
    {
        Segment {
            id,
            current_block_number: (len / 32768) as u32,
            current_block_size: (len % 32768) as u32,
        }
    }

    /// The segment's length in bytes.
    pub fn size(&self) -> (r: u64)
        ensures
            r == self.size_spec(),
    {
        self.current_block_number as u64 * 32768 + self.current_block_size as u64
    }
    /// Plans the write of one record: returns the position of its first
    /// chunk and the bytes to append to the segment file (zero padding if
    /// the block cannot hold a header, then the record's chunks), and moves
    /// the cursor past them.
    pub fn write(&mut self, data: &[u8]) -> (r: (ChunkPosition, Vec<u8>))
        requires
            old(self).wf(),
            old(self).size_spec() + 2 * data@.len() + 2 * BLOCK_SIZE <= MAX_SEGMENT_SIZE,
        ensures
            final(self).wf(),
            final(self).id == old(self).id,
            r.0 == old(self).next_position(),
            r.0.chunk_offset + CHUNK_HEADER_SIZE < BLOCK_SIZE,
            r.1@ == old(self).append_image(data@),
            final(self).size_spec() == old(self).size_spec() + r.1@.len(),
    {
        let ghost img = self.append_image(data@);
        let old_size = self.size();
        let pos = if self.current_block_size + CHUNK_HEADER_SIZE >= BLOCK_SIZE {
            ChunkPosition {
                segment_id: self.id,
                block_number: self.current_block_number + 1,
                chunk_offset: 0,
            }
        } else {
            ChunkPosition {
                segment_id: self.id,
                block_number: self.current_block_number,
                chunk_offset: self.current_block_size as u64,
            }
        };
        let mut out: Vec<u8> = Vec::new();
        if self.current_block_size + CHUNK_HEADER_SIZE >= BLOCK_SIZE {
            let pad = BLOCK_SIZE - self.current_block_size;
            let mut i: u32 = 0;
            while i < pad
                invariant
                    i <= pad,
                    out@ == zeros(i as nat),
                decreases pad - i,
            {
                out.push(0);
                i = i + 1;
                assert(out@ =~= zeros(i as nat));
            }
        }
        let ghost padding = out@;
        assert(padding == zeros(pad_len(self.current_block_size as nat)));
        let off = pos.chunk_offset as usize;
        let len = data.len();
        let cap: usize = 32761 - off;
        if len <= cap {
            let mut c = encode(data, ChunkType::Full);
            out.append(&mut c);
        } else {
            let mut c = encode(slice_subrange(data, 0, cap), ChunkType::First);
            assert(data@.subrange(0, cap as int) =~= data@.take(cap as int));
            out.append(&mut c);
            assert(img =~= out@ + tail_image(data@.skip(cap as int)));
            let mut done: usize = cap;
            while done < len
                invariant
                    cap <= done <= len,
                    len == data@.len(),
                    done < len ==> img == out@ + tail_image(data@.skip(done as int)),
                    done == len ==> img == out@,
                decreases len - done,
            {
                let ghost before = out@;
                let ghost rest = data@.skip(done as int);
                if len - done <= 32761 {
                    let mut c = encode(slice_subrange(data, done, len), ChunkType::Last);
                    assert(data@.subrange(done as int, len as int) =~= rest);
                    out.append(&mut c);
                    assert(out@ =~= before + tail_image(rest));
                    done = len;
                } else {
                    let mut c = encode(slice_subrange(data, done, done + 32761), ChunkType::Middle);
                    assert(data@.subrange(done as int, done + 32761) =~= rest.take(32761));
                    assert(rest.skip(32761) =~= data@.skip(done + 32761));
                    out.append(&mut c);
                    assert(img =~= out@ + tail_image(data@.skip(done + 32761)));
                    done = done + 32761;
                }
            }
        }
        assert(out@ =~= img);
        proof {
            lemma_record_image_len(pos.chunk_offset as nat, data@);
        }
        let new_size = old_size + out.len() as u64;
        self.current_block_number = (new_size / 32768) as u32;
        self.current_block_size = (new_size % 32768) as u32;
        (pos, out)
    }
    /// Reads the record whose first chunk is at (`block_number`,
    /// `chunk_offset`) from the segment file's bytes `contents`: fails with
    /// `OutOfRange` if that place lies beyond the bytes, and with
    /// `ChunkCorrupted` if a chunk of the record does not decode, fails its
    /// checksum or is cut short.
    pub fn read(contents: &[u8], block_number: u32, chunk_offset: u64) -> (r: Result<
        Vec<u8>,
        WalError,
    >)
        ensures
            agrees(r, read_spec(contents@, block_number as nat, chunk_offset as nat)),
    {
        let n: usize = contents.len();
        let len = n as u64;
        let first = block_number as u64 * 32768;
        if chunk_offset >= 32768 || first >= len || chunk_offset >= len - first {
            return Err(WalError::OutOfRange);
        }
        let ghost c = contents@;
        let mut b: u64 = block_number as u64;
        let mut o: u64 = chunk_offset;
        let mut result: Vec<u8> = Vec::new();
        loop
            invariant
                len == c.len(),
                len == n,
                n == contents@.len(),
                c == contents@,
                read_spec(c, block_number as nat, chunk_offset as nat) == chain_spec(
                    c,
                    block_number as nat,
                    chunk_offset as nat,
                ),
                b * BLOCK_SIZE < len,
                o < BLOCK_SIZE,
                chain_spec(c, block_number as nat, chunk_offset as nat) == prepend(
                    result@,
                    chain_spec(c, b as nat, o as nat),
                ),
            decreases len - b * BLOCK_SIZE,
        {
            let start = b * 32768;
            let end = if len - start < 32768 {
                len
            } else {
                start + 32768
            };
            assert(end == if start + BLOCK_SIZE <= c.len() {
                start + BLOCK_SIZE
            } else {
                c.len() as int
            });
            if o + 7 > end - start {
                assert(chain_spec(c, b as nat, o as nat) == Err::<Seq<u8>, WalError>(WalError::ChunkCorrupted));
                return Err(WalError::ChunkCorrupted);
            }
            match decode(contents, (start + o) as usize, end as usize) {
                None => {
                    assert(chain_spec(c, b as nat, o as nat) == Err::<Seq<u8>, WalError>(WalError::ChunkCorrupted));
                    return Err(WalError::ChunkCorrupted);
                },
                Some((t, payload)) => {
                    let ghost before = result@;
                    let ghost pl = payload@;
                    let mut payload = payload;
                    result.append(&mut payload);
                    if t == ChunkType::Full || t == ChunkType::Last {
                        return Ok(result);
                    }
                    assert(chain_spec(c, block_number as nat, chunk_offset as nat) == prepend(
                        result@,
                        chain_spec(c, (b + 1) as nat, 0),
                    )) by {
                        assert(result@ == before + pl);
                        assert(chain_spec(c, b as nat, o as nat) == prepend(
                            pl,
                            chain_spec(c, (b + 1) as nat, 0),
                        ));
                        match chain_spec(c, (b + 1) as nat, 0) {
                            Ok(x) => {
                                assert(before + (pl + x) =~= result@ + x);
                            },
                            Err(e) => {},
                        }
                    }
                    if len - start <= 32768 {
                        assert(chain_spec(c, (b + 1) as nat, 0) == Err::<Seq<u8>, WalError>(WalError::ChunkCorrupted));
                        return Err(WalError::ChunkCorrupted);
                    }
                    b = b + 1;
                    o = 0;
                },
            }
        }
    }
}

/// Reading a record at the position a write returned, from the segment's
/// bytes followed by what that write appended, gives the record back.
pub proof fn lemma_round_trip(seg: Segment, contents: Seq<u8>, data: Seq<u8>)
    requires
        seg.wf(),
        seg.size_spec() + BLOCK_SIZE <= MAX_SEGMENT_SIZE,
        contents.len() == seg.size_spec(),
    ensures
        read_spec(
            contents + seg.append_image(data),
            seg.next_position().block_number as nat,
            seg.next_position().chunk_offset as nat,
        ) == Ok::<Seq<u8>, WalError>(data),
{
    let pos = seg.next_position();
    let b = pos.block_number as nat;
    let o = pos.chunk_offset as nat;
    let padded = contents + zeros(pad_len(seg.current_block_size as nat));
    assert(contents + seg.append_image(data) =~= padded + record_image(o, data));
    assert(padded.len() == b * BLOCK_SIZE + o);
    lemma_record_round_trip(padded, data, b, o);
}

/// A piece of a concatenation is where the concatenation put it.
pub proof fn lemma_piece(a: Seq<u8>, b: Seq<u8>, q: Seq<u8>)
    ensures
        (a + b + q).subrange(a.len() as int, a.len() + b.len() as int) == b,
        (a + b + q).len() == a.len() + b.len() + q.len(),
{
    assert((a + b + q).subrange(a.len() as int, a.len() + b.len() as int) =~= b);
}

/// Reading a record laid out by `record_image` at (`block`, `offset`) gives
/// it back.
pub proof fn lemma_record_round_trip(padded: Seq<u8>, data: Seq<u8>, block: nat, offset: nat)
    requires
        padded.len() == block * BLOCK_SIZE + offset,
        offset + CHUNK_HEADER_SIZE < BLOCK_SIZE,
    ensures
        read_spec(padded + record_image(offset, data), block, offset) == Ok::<Seq<u8>, WalError>(
            data,
        ),
{
    if offset + data.len() + CHUNK_HEADER_SIZE <= BLOCK_SIZE {
        lemma_full_round_trip(padded, data, block, offset);
        assert(record_image(offset, data) == chunk_bytes(data, ChunkType::Full));
    } else {
        let cap = BLOCK_SIZE - offset - CHUNK_HEADER_SIZE;
        lemma_split_round_trip(padded, data, block, offset);
        assert(padded + record_image(offset, data) =~= padded + chunk_bytes(
            data.take(cap),
            ChunkType::First,
        ) + tail_image(data.skip(cap)));
    }
    assert((padded + record_image(offset, data)).len() > padded.len());
}

proof fn lemma_full_round_trip(padded: Seq<u8>, data: Seq<u8>, block: nat, offset: nat)
    requires
        padded.len() == block * BLOCK_SIZE + offset,
        offset + data.len() + CHUNK_HEADER_SIZE <= BLOCK_SIZE,
    ensures
        chain_spec(padded + chunk_bytes(data, ChunkType::Full), block, offset) == Ok::<
            Seq<u8>,
            WalError,
        >(data),
{
    let p = padded.len() as int;
    let k = chunk_bytes(data, ChunkType::Full);
    let c = padded + k;
    assert(c == padded + k + Seq::<u8>::empty()) by {
        assert(c =~= padded + k + Seq::<u8>::empty());
    }
    lemma_piece(padded, k, Seq::<u8>::empty());
    lemma_decode_encoded(c, p, c.len() as int, data, ChunkType::Full);
}

proof fn lemma_split_round_trip(padded: Seq<u8>, data: Seq<u8>, block: nat, offset: nat)
    requires
        padded.len() == block * BLOCK_SIZE + offset,
        offset + CHUNK_HEADER_SIZE < BLOCK_SIZE,
        offset + data.len() + CHUNK_HEADER_SIZE > BLOCK_SIZE,
    ensures
        chain_spec(
            padded + chunk_bytes(data.take(BLOCK_SIZE - offset - CHUNK_HEADER_SIZE), ChunkType::First)
                + tail_image(data.skip(BLOCK_SIZE - offset - CHUNK_HEADER_SIZE)),
            block,
            offset,
        ) == Ok::<Seq<u8>, WalError>(data),
{
    let p = padded.len() as int;
    let cap = BLOCK_SIZE - offset - CHUNK_HEADER_SIZE;
    let head = chunk_bytes(data.take(cap), ChunkType::First);
    let tail = tail_image(data.skip(cap));
    let c = padded + head + tail;
    lemma_piece(padded, head, tail);
    lemma_tail_image_len(data.skip(cap));
    lemma_decode_encoded(c, p, block * BLOCK_SIZE + BLOCK_SIZE, data.take(cap), ChunkType::First);
    lemma_tail_round_trip(padded + head, data.skip(cap), block + 1);
    assert(tail_image(data.skip(cap)).len() > 0);
    let start = block * BLOCK_SIZE;
    assert(start + BLOCK_SIZE <= c.len());
    assert(decode_spec(c, start + offset, start + BLOCK_SIZE) == Some((ChunkType::First, data.take(cap))));
    assert(chain_spec(c, block + 1, 0) == Ok::<Seq<u8>, WalError>(data.skip(cap)));
    assert(chain_spec(c, block, offset) == prepend(data.take(cap), chain_spec(c, block + 1, 0)));
    assert(data.take(cap) + data.skip(cap) =~= data);
}

/// Block alignment: a record's first header starts at least a header's
/// length before the end of its block; what a write puts before it is zero
/// padding that ends on that header; and the segment's cursor stays inside
/// its block. Every later chunk of the record starts a block (`tail_image`).
pub proof fn lemma_block_alignment(seg: Segment, data: Seq<u8>)
    requires
        seg.wf(),
    ensures
        seg.next_position().chunk_offset + CHUNK_HEADER_SIZE < BLOCK_SIZE,
        seg.size_spec() + pad_len(seg.current_block_size as nat) == seg.next_position().block_number
            * BLOCK_SIZE + seg.next_position().chunk_offset
            || seg.current_block_number == u32::MAX,
        forall|i: int|
            0 <= i < pad_len(seg.current_block_size as nat) ==> #[trigger] seg.append_image(data)[i]
                == 0u8,
{
}

/// Reading the chunks that `tail_image` lays out from the start of a block
/// gives back what they carry.
pub proof fn lemma_tail_round_trip(prefix: Seq<u8>, rest: Seq<u8>, block: nat)
    requires
        prefix.len() == block * BLOCK_SIZE,
        rest.len() > 0,
    ensures
        chain_spec(prefix + tail_image(rest), block, 0) == Ok::<Seq<u8>, WalError>(rest),
    decreases rest.len(),
{
    let c = prefix + tail_image(rest);
    let start = prefix.len() as int;
    if rest.len() <= BLOCK_SIZE - CHUNK_HEADER_SIZE {
        let k = chunk_bytes(rest, ChunkType::Last);
        assert(c == prefix + k + Seq::<u8>::empty()) by {
            assert(c =~= prefix + k + Seq::<u8>::empty());
        }
        lemma_piece(prefix, k, Seq::<u8>::empty());
        lemma_decode_encoded(c, start, c.len() as int, rest, ChunkType::Last);
        assert(chain_spec(c, block, 0) == Ok::<Seq<u8>, WalError>(rest));
    } else {
        let cap = BLOCK_SIZE - CHUNK_HEADER_SIZE;
        let mid = chunk_bytes(rest.take(cap), ChunkType::Middle);
        let tail = tail_image(rest.skip(cap));
        assert(c == prefix + mid + tail) by {
            assert(c =~= prefix + mid + tail);
        }
        lemma_piece(prefix, mid, tail);
        lemma_tail_image_len(rest.skip(cap));
        lemma_decode_encoded(c, start, start + BLOCK_SIZE, rest.take(cap), ChunkType::Middle);
        lemma_tail_round_trip(prefix + mid, rest.skip(cap), block + 1);
        assert(rest.take(cap) + rest.skip(cap) =~= rest);
        assert(chain_spec(c, block, 0) == prepend(rest.take(cap), chain_spec(c, block + 1, 0)));
    }
}

/// A record too long for the rest of its block is written as one first
/// chunk, any number of middle chunks and one last chunk, in block order;
/// one that fits is written as a single full chunk.
pub proof fn lemma_record_chunk_types(seg: Segment, contents: Seq<u8>, data: Seq<u8>)
    requires
        seg.wf(),
        seg.size_spec() + BLOCK_SIZE <= MAX_SEGMENT_SIZE,
        contents.len() == seg.size_spec(),
    ensures
        ({
            let pos = seg.next_position();
            let ts = chain_types(
                contents + seg.append_image(data),
                pos.block_number as nat,
                pos.chunk_offset as nat,
            );
            if pos.chunk_offset + data.len() + CHUNK_HEADER_SIZE <= BLOCK_SIZE {
                ts == seq![ChunkType::Full]
            } else {
                split_types(ts)
            }
        }),
{
    let pos = seg.next_position();
    let block = pos.block_number as nat;
    let offset = pos.chunk_offset as nat;
    let padded = contents + zeros(pad_len(seg.current_block_size as nat));
    assert(contents + seg.append_image(data) =~= padded + record_image(offset, data));
    let p = padded.len() as int;
    if offset + data.len() + CHUNK_HEADER_SIZE <= BLOCK_SIZE {
        let k = chunk_bytes(data, ChunkType::Full);
        let c = padded + k;
        assert(c == padded + k + Seq::<u8>::empty()) by {
            assert(c =~= padded + k + Seq::<u8>::empty());
        }
        lemma_piece(padded, k, Seq::<u8>::empty());
        lemma_decode_encoded(c, p, c.len() as int, data, ChunkType::Full);
    } else {
        let cap = BLOCK_SIZE - offset - CHUNK_HEADER_SIZE;
        let head = chunk_bytes(data.take(cap), ChunkType::First);
        let tail = tail_image(data.skip(cap));
        let c = padded + head + tail;
        assert(padded + record_image(offset, data) =~= c);
        lemma_piece(padded, head, tail);
        lemma_tail_image_len(data.skip(cap));
        lemma_decode_encoded(c, p, block * BLOCK_SIZE + BLOCK_SIZE, data.take(cap), ChunkType::First);
        lemma_tail_types(padded + head, data.skip(cap), block + 1);
        let rest = chain_types(c, block + 1, 0);
        let ts = chain_types(c, block, offset);
        assert(ts == seq![ChunkType::First] + rest);
        assert forall|i: int| 0 < i < ts.len() - 1 implies #[trigger] ts[i] == ChunkType::Middle by {
            assert(ts[i] == rest[i - 1]);
        }
    }
}

/// The chunks that `tail_image` lays out read as middle chunks and then one
/// last chunk.
proof fn lemma_tail_types(prefix: Seq<u8>, rest: Seq<u8>, block: nat)
    requires
        prefix.len() == block * BLOCK_SIZE,
        rest.len() > 0,
    ensures
        ({
            let ts = chain_types(prefix + tail_image(rest), block, 0);
            &&& ts.len() >= 1
            &&& ts.last() == ChunkType::Last
            &&& forall|i: int| 0 <= i < ts.len() - 1 ==> #[trigger] ts[i] == ChunkType::Middle
        }),
    decreases rest.len(),
{
    let c = prefix + tail_image(rest);
    let start = prefix.len() as int;
    if rest.len() <= BLOCK_SIZE - CHUNK_HEADER_SIZE {
        let k = chunk_bytes(rest, ChunkType::Last);
        assert(c == prefix + k + Seq::<u8>::empty()) by {
            assert(c =~= prefix + k + Seq::<u8>::empty());
        }
        lemma_piece(prefix, k, Seq::<u8>::empty());
        lemma_decode_encoded(c, start, c.len() as int, rest, ChunkType::Last);
        assert(chain_types(c, block, 0) == seq![ChunkType::Last]);
    } else {
        let cap = BLOCK_SIZE - CHUNK_HEADER_SIZE;
        let mid = chunk_bytes(rest.take(cap), ChunkType::Middle);
        let tail = tail_image(rest.skip(cap));
        assert(c == prefix + mid + tail) by {
            assert(c =~= prefix + mid + tail);
        }
        lemma_piece(prefix, mid, tail);
        lemma_tail_image_len(rest.skip(cap));
        lemma_decode_encoded(c, start, start + BLOCK_SIZE, rest.take(cap), ChunkType::Middle);
        lemma_tail_types(prefix + mid, rest.skip(cap), block + 1);
        let more = chain_types(c, block + 1, 0);
        let ts = chain_types(c, block, 0);
        assert(ts == seq![ChunkType::Middle] + more);
        assert forall|i: int| 0 <= i < ts.len() - 1 implies #[trigger] ts[i] == ChunkType::Middle by {
            if i > 0 {
                assert(ts[i] == more[i - 1]);
            }
        }
    }
}

} // verus!
