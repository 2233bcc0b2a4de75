//! The chunk wire format: a 7-byte header (checksum, length, type) followed
//! by the payload.
use vstd::prelude::*;
use vstd::slice::slice_subrange;
use vstd::slice::slice_to_vec;

verus! {

/// Size of a chunk header in bytes: checksum (4), length (2), type (1).
pub const CHUNK_HEADER_SIZE: u32 = 7;

/// Size of a block, the unit of alignment of a segment file (32 KiB).
pub const BLOCK_SIZE: u32 = 32768;

/// Where a chunk stands within the record it carries.
#[derive(Debug, Clone, Copy, PartialEq, Eq, Structural)]
pub enum ChunkType {
    /// The whole record.
    Full,
    /// The first piece of a record cut into several chunks.
    First,
    /// A piece between the first and the last.
    Middle,
    /// The final piece.
    Last,
}

impl ChunkType {
    pub open spec fn tag_spec(self) -> u8 {
        match self {
            ChunkType::Full => 0,
            ChunkType::First => 1,
            ChunkType::Middle => 2,
            ChunkType::Last => 3,
        }
    }

    pub open spec fn from_tag_spec(t: u8) -> Option<ChunkType> {
        if t == 0 {
            Some(ChunkType::Full)
        } else if t == 1 {
            Some(ChunkType::First)
        } else if t == 2 {
            Some(ChunkType::Middle)
        } else if t == 3 {
            Some(ChunkType::Last)
        } else {
            None
        }
    }

    /// The type byte stored in a chunk header.
    pub fn tag(self) -> (r: u8)
        ensures
            r == self.tag_spec(),
    {
        match self {
            ChunkType::Full => 0,
            ChunkType::First => 1,
            ChunkType::Middle => 2,
            ChunkType::Last => 3,
        }
    }

    /// The chunk type that a header's type byte stands for, if any.
    pub fn from_tag(t: u8) -> (r: Option<ChunkType>)
        ensures
            r == Self::from_tag_spec(t),
    {
        if t == 0 {
            Some(ChunkType::Full)
        } else if t == 1 {
            Some(ChunkType::First)
        } else if t == 2 {
            Some(ChunkType::Middle)
        } else if t == 3 {
            Some(ChunkType::Last)
        } else {
            None
        }
    }

    /// Whether a record ends with a chunk of this type.
    pub open spec fn ends_record(self) -> bool {
        self == ChunkType::Full || self == ChunkType::Last
    }
}

/// The CRC-32 (ISO-HDLC) of a byte sequence.
pub uninterp spec fn crc32_of(s: Seq<u8>) -> u32;

/// Relies on crc32fast::hash: the CRC-32 (ISO-HDLC) of the bytes, which
/// depends on the bytes alone.
#[verifier::external_body]
fn crc32(bytes: &[u8]) -> (r: u32)
    ensures
        r == crc32_of(bytes@),
{
    crc32fast::hash(bytes)
}

/// Little-endian encoding of a 16-bit value.
pub open spec fn le16(n: nat) -> Seq<u8> {
    seq![(n % 256) as u8, (n / 256 % 256) as u8]
}

/// Little-endian encoding of a 32-bit value.
pub open spec fn le32(n: nat) -> Seq<u8> {
    seq![
        (n % 256) as u8,
        (n / 256 % 256) as u8,
        (n / 65536 % 256) as u8,
        (n / 16777216 % 256) as u8,
    ]
}

/// The little-endian 16-bit value stored at `p`.
pub open spec fn u16_at(s: Seq<u8>, p: int) -> nat {
    s[p] as nat + 256 * (s[p + 1] as nat)
}

/// The little-endian 32-bit value stored at `p`.
pub open spec fn u32_at(s: Seq<u8>, p: int) -> nat {
    s[p] as nat + 256 * (s[p + 1] as nat) + 65536 * (s[p + 2] as nat) + 16777216 * (
    s[p + 3] as nat)
}

/// The bytes that the checksum covers: length, type and payload.
pub open spec fn chunk_body(payload: Seq<u8>, t: ChunkType) -> Seq<u8> {
    le16(payload.len()) + seq![t.tag_spec()] + payload
}

/// A whole encoded chunk: checksum of the body, then the body.
pub open spec fn chunk_bytes(payload: Seq<u8>, t: ChunkType) -> Seq<u8> {
    le32(crc32_of(chunk_body(payload, t)) as nat) + chunk_body(payload, t)
}

/// The chunk whose header starts at `p` in `s`, confined to `s[..end]`: its
/// type and payload, provided the header and payload fit, the type byte is
/// known and the stored checksum matches the body.
pub open spec fn decode_spec(s: Seq<u8>, p: int, end: int) -> Option<(ChunkType, Seq<u8>)> {
    if 0 <= p && p + 7 <= end && end <= s.len() {
        let len = u16_at(s, p + 4);
        if p + 7 + len <= end && u32_at(s, p) == crc32_of(s.subrange(p + 4, p + 7 + len)) {
            match ChunkType::from_tag_spec(s[p + 6]) {
                Some(t) => Some((t, s.subrange(p + 7, p + 7 + len))),
                None => None,
            }
        } else {
            None
        }
    } else {
        None
    }
}

/// Encodes one chunk: a header with checksum, length and type, then the payload.
pub fn encode(payload: &[u8], t: ChunkType) -> (r: Vec<u8>)
    requires
        payload@.len() + CHUNK_HEADER_SIZE <= BLOCK_SIZE,
    ensures
        r@ == chunk_bytes(payload@, t),
{
    let len = payload.len();
    let mut body: Vec<u8> = Vec::new();
    body.push((len % 256) as u8);
    body.push((len / 256 % 256) as u8);
    body.push(t.tag());
    let mut i: usize = 0;
    while i < len
        invariant
            len == payload@.len(),
            i <= len,
            body@ == le16(len as nat) + seq![t.tag_spec()] + payload@.subrange(0, i as int),
        decreases len - i,
    {
        body.push(payload[i]);
        i = i + 1;
        assert(payload@.subrange(0, i as int) =~= payload@.subrange(0, i - 1) + seq![payload@[i - 1]]);
    }
    assert(payload@.subrange(0, len as int) =~= payload@);
    let sum = crc32(body.as_slice());
    let mut out: Vec<u8> = Vec::new();
    out.push((sum % 256) as u8);
    out.push((sum / 256 % 256) as u8);
    out.push((sum / 65536 % 256) as u8);
    out.push((sum / 16777216 % 256) as u8);
    out.append(&mut body);
    assert(out@ =~= chunk_bytes(payload@, t));
    out
}

/// Decodes and checks the chunk whose header starts at `p`, confined to
/// `s[..end]`: see `decode_spec`.
pub fn decode(s: &[u8], p: usize, end: usize) -> (r: Option<(ChunkType, Vec<u8>)>)
    ensures
        match (r, decode_spec(s@, p as int, end as int)) {
            (Some(c), Some(d)) => c.0 == d.0 && c.1@ == d.1,
            (None, None) => true,
            _ => false,
        },
{
    if end > s.len() || end < 7 || p > end - 7 {
        return None;
    }
    let len = s[p + 4] as usize + 256 * (s[p + 5] as usize);
    if len > end - 7 - p {
        return None;
    }
    let stored = s[p] as u32 + 256 * (s[p + 1] as u32) + 65536 * (s[p + 2] as u32) + 16777216 * (
    s[p + 3] as u32);
    let sum = crc32(slice_subrange(s, p + 4, p + 7 + len));
    if stored != sum {
        return None;
    }
    match ChunkType::from_tag(s[p + 6]) {
        Some(t) => Some((t, slice_to_vec(slice_subrange(s, p + 7, p + 7 + len)))),
        None => None,
    }
}

/// Decoding an encoded chunk gives back its type and payload.
pub proof fn lemma_decode_encoded(s: Seq<u8>, p: int, end: int, payload: Seq<u8>, t: ChunkType)
    requires
        0 <= p,
        p + 7 + payload.len() <= end <= s.len(),
        payload.len() < 65536,
        s.subrange(p, p + 7 + payload.len()) == chunk_bytes(payload, t),
    ensures
        decode_spec(s, p, end) == Some((t, payload)),
{
    let c = chunk_bytes(payload, t);
    let n = payload.len();
    let sum = crc32_of(chunk_body(payload, t)) as nat;
    assert(forall|i: int| 0 <= i < 7 + n ==> s[p + i] == #[trigger] c[i]) by {
        assert forall|i: int| 0 <= i < 7 + n implies s[p + i] == #[trigger] c[i] by {
            assert(s.subrange(p, p + 7 + n)[i] == s[p + i]);
        }
    }
    assert(s[p + 4] == c[4]);
    assert(s[p + 5] == c[5]);
    assert(s[p + 6] == c[6]);
    assert(s[p] == c[0]);
    assert(s[p + 1] == c[1]);
    assert(s[p + 2] == c[2]);
    assert(s[p + 3] == c[3]);
    assert(c[4] == (n % 256) as u8);
    assert(c[5] == (n / 256 % 256) as u8);
    assert(c[6] == t.tag_spec());
    assert(u16_at(s, p + 4) == n);
    assert(sum < 4294967296);
    assert(u32_at(s, p) == sum);
    assert(s.subrange(p + 4, p + 7 + n) =~= chunk_body(payload, t)) by {
        assert forall|i: int| 0 <= i < 3 + n implies s.subrange(p + 4, p + 7 + n)[i] == #[trigger] chunk_body(payload, t)[i] by {
            assert(s[p + 4 + i] == c[4 + i]);
        }
    }
    assert(s.subrange(p + 7, p + 7 + n) =~= payload) by {
        assert forall|i: int| 0 <= i < n implies s.subrange(p + 7, p + 7 + n)[i] == #[trigger] payload[i] by {
            assert(s[p + 7 + i] == c[7 + i]);
        }
    }
}

} // verus!
