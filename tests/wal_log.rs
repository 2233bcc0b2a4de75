use wal_rs::codec::{decode, encode, ChunkType, BLOCK_SIZE, CHUNK_HEADER_SIZE};
use wal_rs::error::WalError;
use wal_rs::naming::{parse_segment_file_name, segment_file_name};
use wal_rs::segment::{ChunkPosition, Segment, MAX_SEGMENT_SIZE};
use wal_rs::wal::Wal;

fn chunk_type_at(bytes: &[u8], header: usize) -> u8 {
    bytes[header + 6]
}

fn chunk_len_at(bytes: &[u8], header: usize) -> usize {
    bytes[header + 4] as usize + 256 * bytes[header + 5] as usize
}

#[test]
fn work() {
    let mut wal = Wal::open(&Vec::new(), 1024 * 1024 * 1024);
    let pos = wal.write("amazing lyf is better".as_bytes());
    let (pos, bytes) = pos.unwrap();
    assert_eq!(pos.segment_id, 1);
    assert_eq!(
        wal.read(&pos, &bytes).unwrap(),
        "amazing lyf is better".as_bytes().to_vec()
    );
}

#[test]
fn single_block_scenario() {
    let mut wal = Wal::open(&Vec::new(), 1024 * 1024 * 1024);
    let data = "A".repeat(2028).into_bytes();
    let (pos, bytes) = wal.write(&data).unwrap();
    assert_eq!(
        pos,
        ChunkPosition { segment_id: 1, block_number: 0, chunk_offset: 0 }
    );
    assert_eq!(bytes.len(), 2028 + 7);
    assert_eq!(chunk_type_at(&bytes, 0), 0);
    assert_eq!(chunk_len_at(&bytes, 0), 2028);
    assert_eq!(wal.read(&pos, &bytes).unwrap(), data);
    assert_eq!(wal.active.size(), 2035);
}

#[test]
fn round_trip_single_chunk_largest() {
    let mut seg = Segment::open(3);
    let data: Vec<u8> = (0..(BLOCK_SIZE - CHUNK_HEADER_SIZE)).map(|i| (i % 251) as u8).collect();
    let (pos, bytes) = seg.write(&data);
    assert_eq!(bytes.len(), BLOCK_SIZE as usize);
    assert_eq!(chunk_type_at(&bytes, 0), 0);
    assert_eq!(seg.current_block_number, 1);
    assert_eq!(seg.current_block_size, 0);
    assert_eq!(Segment::read(&bytes, pos.block_number, pos.chunk_offset).unwrap(), data);
}

#[test]
fn round_trip_empty_record() {
    let mut seg = Segment::open(1);
    let (pos, bytes) = seg.write(&[]);
    assert_eq!(bytes.len(), 7);
    assert_eq!(Segment::read(&bytes, pos.block_number, pos.chunk_offset).unwrap(), Vec::<u8>::new());
}

#[test]
fn round_trip_multi_chunk() {
    let mut seg = Segment::open(1);
    let data: Vec<u8> = (0..45 * 1024).map(|i| (i % 253) as u8).collect();
    let (pos, bytes) = seg.write(&data);
    assert_eq!(pos.block_number, 0);
    assert_eq!(pos.chunk_offset, 0);
    // A first chunk that fills block 0, then a last chunk in block 1.
    assert_eq!(chunk_type_at(&bytes, 0), 1);
    assert_eq!(chunk_len_at(&bytes, 0), 32761);
    assert_eq!(chunk_type_at(&bytes, 32768), 3);
    assert_eq!(chunk_len_at(&bytes, 32768), 45 * 1024 - 32761);
    assert_eq!(bytes.len(), 32768 + 7 + 45 * 1024 - 32761);
    assert_eq!(Segment::read(&bytes, 0, 0).unwrap(), data);
}

#[test]
fn round_trip_three_blocks() {
    let mut seg = Segment::open(1);
    let first = vec![7u8; 100];
    let (_, mut file) = seg.write(&first);
    let data: Vec<u8> = (0..70000).map(|i| (i % 241) as u8).collect();
    let (pos, bytes) = seg.write(&data);
    assert_eq!(pos.block_number, 0);
    assert_eq!(pos.chunk_offset, 107);
    file.extend_from_slice(&bytes);
    assert_eq!(chunk_type_at(&file, 107), 1);
    assert_eq!(chunk_len_at(&file, 107), 32768 - 107 - 7);
    assert_eq!(chunk_type_at(&file, 32768), 2);
    assert_eq!(chunk_len_at(&file, 32768), 32761);
    assert_eq!(chunk_type_at(&file, 65536), 3);
    assert_eq!(Segment::read(&file, pos.block_number, pos.chunk_offset).unwrap(), data);
    assert_eq!(Segment::read(&file, 0, 0).unwrap(), first);
    assert_eq!(seg.size(), file.len() as u64);
}

#[test]
fn padding_when_header_does_not_fit() {
    let mut seg = Segment::restore(1, 32762);
    let (pos, bytes) = seg.write(b"x");
    assert_eq!(pos.block_number, 1);
    assert_eq!(pos.chunk_offset, 0);
    assert_eq!(&bytes[0..6], &[0u8; 6]);
    assert_eq!(bytes.len(), 6 + 8);
    assert_eq!(seg.size(), 32768 + 8);
}

#[test]
fn no_padding_when_header_fits() {
    let mut seg = Segment::restore(1, 32760);
    let (pos, bytes) = seg.write(b"y");
    assert_eq!(pos.block_number, 0);
    assert_eq!(pos.chunk_offset, 32760);
    assert_eq!(bytes.len(), 8);
    assert_eq!(chunk_type_at(&bytes, 0), 0);
    assert_eq!(seg.current_block_number, 1);
    assert_eq!(seg.current_block_size, 0);
}

#[test]
fn block_alignment_across_writes() {
    let mut seg = Segment::open(1);
    let mut file: Vec<u8> = Vec::new();
    let mut positions = Vec::new();
    for len in [5000usize, 27000, 3, 40000, 1, 0, 32761, 12] {
        let data = vec![(len % 256) as u8; len];
        let (pos, bytes) = seg.write(&data);
        assert!(pos.chunk_offset + 7 < 32768);
        file.extend_from_slice(&bytes);
        positions.push((pos, data));
    }
    assert_eq!(seg.size(), file.len() as u64);
    for (pos, data) in positions {
        assert_eq!(Segment::read(&file, pos.block_number, pos.chunk_offset).unwrap(), data);
    }
}

#[test]
fn corrupted_payload_is_detected() {
    let mut seg = Segment::open(1);
    let (pos, mut bytes) = seg.write(b"hello world");
    bytes[10] ^= 0x01;
    assert_eq!(
        Segment::read(&bytes, pos.block_number, pos.chunk_offset),
        Err(WalError::ChunkCorrupted)
    );
}

#[test]
fn corrupted_length_is_detected() {
    let mut seg = Segment::open(1);
    let (_, mut bytes) = seg.write(b"hello world");
    let (_, more) = seg.write(b"and more bytes after it");
    bytes.extend_from_slice(&more);
    bytes[4] ^= 0x02;
    assert_eq!(Segment::read(&bytes, 0, 0), Err(WalError::ChunkCorrupted));
}

#[test]
fn corrupted_checksum_is_detected() {
    let mut seg = Segment::open(1);
    let (_, mut bytes) = seg.write(b"abc");
    bytes[0] ^= 0x80;
    assert_eq!(Segment::read(&bytes, 0, 0), Err(WalError::ChunkCorrupted));
}

#[test]
fn truncated_record_is_corruption() {
    let mut seg = Segment::open(1);
    let data = vec![9u8; 40000];
    let (_, bytes) = seg.write(&data);
    assert_eq!(Segment::read(&bytes[..32768], 0, 0), Err(WalError::ChunkCorrupted));
    assert_eq!(Segment::read(&bytes[..bytes.len() - 1], 0, 0), Err(WalError::ChunkCorrupted));
    assert_eq!(Segment::read(&bytes[..32768 + 3], 0, 0), Err(WalError::ChunkCorrupted));
}

#[test]
fn read_beyond_file_is_out_of_range() {
    let mut seg = Segment::open(1);
    let (_, bytes) = seg.write(b"abc");
    assert_eq!(Segment::read(&bytes, 0, 10), Err(WalError::OutOfRange));
    assert_eq!(Segment::read(&bytes, 1, 0), Err(WalError::OutOfRange));
    assert_eq!(Segment::read(&bytes, 0, 40000), Err(WalError::OutOfRange));
    assert_eq!(Segment::read(&[], 0, 0), Err(WalError::OutOfRange));
}

#[test]
fn chunk_codec_round_trip() {
    let payload = b"123456789";
    let bytes = encode(payload, ChunkType::Middle);
    assert_eq!(bytes.len(), 16);
    assert_eq!(&bytes[4..7], &[9, 0, 2]);
    let sum = crc32fast::hash(&bytes[4..]);
    assert_eq!(&bytes[0..4], &sum.to_le_bytes());
    assert_ne!(sum, 0);
    let (t, p) = decode(&bytes, 0, bytes.len()).unwrap();
    assert_eq!(t, ChunkType::Middle);
    assert_eq!(p, payload.to_vec());
    assert!(decode(&bytes, 0, bytes.len() - 1).is_none());
}

#[test]
fn chunk_checksum_is_crc32() {
    // CRC-32 (ISO-HDLC) of the body [1, 0, 0, b'a'].
    let bytes = encode(b"a", ChunkType::Full);
    let expected = crc32fast::hash(&[1, 0, 0, b'a']);
    assert_eq!(u32::from_le_bytes([bytes[0], bytes[1], bytes[2], bytes[3]]), expected);
    assert_eq!(crc32fast::hash(b"123456789"), 0xCBF4_3926);
}

#[test]
fn chunk_type_tags() {
    assert_eq!(ChunkType::Full.tag(), 0);
    assert_eq!(ChunkType::First.tag(), 1);
    assert_eq!(ChunkType::Middle.tag(), 2);
    assert_eq!(ChunkType::Last.tag(), 3);
    assert_eq!(ChunkType::from_tag(3), Some(ChunkType::Last));
    assert_eq!(ChunkType::from_tag(4), None);
}

#[test]
fn unknown_chunk_type_is_corruption() {
    let mut body = vec![1u8, 0, 9, b'z'];
    let sum = crc32fast::hash(&body);
    let mut bytes = sum.to_le_bytes().to_vec();
    bytes.append(&mut body);
    assert_eq!(Segment::read(&bytes, 0, 0), Err(WalError::ChunkCorrupted));
}

#[test]
fn rotation_moves_to_next_segment() {
    let mut wal = Wal::open(&Vec::new(), 100);
    let a = vec![1u8; 50];
    let (pa, file1) = wal.write(&a).unwrap();
    assert_eq!(pa.segment_id, 1);
    assert_eq!(wal.active.size(), 57);
    assert!(wal.is_full(50));
    assert!(!wal.is_full(36));
    let b = vec![2u8; 50];
    let (pb, file2) = wal.write(&b).unwrap();
    assert_eq!(pb.segment_id, 2);
    assert_eq!(pb.block_number, 0);
    assert_eq!(pb.chunk_offset, 0);
    assert_eq!(wal.active.id, 2);
    assert_eq!(wal.older, vec![1]);
    assert_eq!(wal.read(&pa, &file1).unwrap(), a);
    assert_eq!(wal.read(&pb, &file2).unwrap(), b);
}

#[test]
fn no_rotation_within_budget() {
    let mut wal = Wal::open(&Vec::new(), 114);
    let (_, _) = wal.write(&[1u8; 50]).unwrap();
    let (p, _) = wal.write(&[2u8; 50]).unwrap();
    assert_eq!(p.segment_id, 1);
    assert_eq!(p.chunk_offset, 57);
    assert!(wal.older.is_empty());
}

#[test]
fn oversized_record_goes_whole_into_new_segment() {
    let mut wal = Wal::open(&Vec::new(), 1000);
    let (_, _) = wal.write(b"small").unwrap();
    let big = vec![5u8; 50000];
    let (p, bytes) = wal.write(&big).unwrap();
    assert_eq!(p.segment_id, 2);
    assert_eq!(wal.read(&p, &bytes).unwrap(), big);
}

#[test]
fn unknown_segment_is_not_found() {
    let mut wal = Wal::open(&Vec::new(), 1000);
    let (p, bytes) = wal.write(b"abc").unwrap();
    let other = ChunkPosition { segment_id: 7, ..p };
    assert_eq!(wal.read(&other, &bytes), Err(WalError::SegmentFileNotFound));
}

#[test]
fn open_picks_largest_id() {
    let wal = Wal::open(&vec![(3, 40000), (1, 5), (2, 7)], 1 << 30);
    assert_eq!(wal.active.id, 3);
    assert_eq!(wal.active.current_block_number, 1);
    assert_eq!(wal.active.current_block_size, 40000 - 32768);
    let mut older = wal.older.clone();
    older.sort();
    assert_eq!(older, vec![1, 2]);
    assert!(wal.holds_older(1));
    assert!(!wal.holds_older(3));
}

#[test]
fn open_empty_listing_starts_at_one() {
    let wal = Wal::open(&Vec::new(), 1 << 30);
    assert_eq!(wal.active.id, 1);
    assert_eq!(wal.active.size(), 0);
    assert!(wal.older.is_empty());
}

#[test]
fn reopen_continues_cursor() {
    let mut wal = Wal::open(&Vec::new(), 200);
    let mut files: Vec<Vec<u8>> = vec![Vec::new(), Vec::new(), Vec::new()];
    for len in [60usize, 60, 60, 10] {
        let (p, bytes) = wal.write(&vec![3u8; len]).unwrap();
        files[p.segment_id as usize].extend_from_slice(&bytes);
    }
    assert_eq!(wal.active.id, 2);
    let listing: Vec<(u32, u64)> = vec![(1, files[1].len() as u64), (2, files[2].len() as u64)];
    let mut reopened = Wal::open(&listing, 200);
    assert_eq!(reopened.active.id, wal.active.id);
    assert_eq!(reopened.active.current_block_number, wal.active.current_block_number);
    assert_eq!(reopened.active.current_block_size, wal.active.current_block_size);
    let (pos_a, bytes_a) = wal.write(b"next").unwrap();
    let (pos_b, bytes_b) = reopened.write(b"next").unwrap();
    assert_eq!(pos_a, pos_b);
    assert_eq!(bytes_a, bytes_b);
    assert_eq!(pos_b.chunk_offset, files[2].len() as u64);
}

#[test]
fn rotation_at_last_id_fails() {
    let mut wal = Wal::open(&vec![(u32::MAX, 90)], 100);
    assert_eq!(wal.write(&[0u8; 10]), Err(WalError::SegmentIdsExhausted));
    assert_eq!(wal.active.size(), 90);
}

#[test]
fn record_beyond_addressable_size_fails() {
    let mut wal = Wal::open(&vec![(5, MAX_SEGMENT_SIZE)], u64::MAX);
    assert_eq!(wal.write(b"abc"), Err(WalError::RecordTooLarge));
    assert_eq!(wal.active.size(), MAX_SEGMENT_SIZE);
}

#[test]
fn file_names() {
    assert_eq!(segment_file_name(1), b"000000001.seg".to_vec());
    assert_eq!(segment_file_name(900101), b"000900101.seg".to_vec());
    assert_eq!(segment_file_name(u32::MAX), b"4294967295.seg".to_vec());
    assert_eq!(parse_segment_file_name(b"000000001.seg"), Ok(Some(1)));
    assert_eq!(parse_segment_file_name(b"4294967295.seg"), Ok(Some(u32::MAX)));
    assert_eq!(parse_segment_file_name(b"4294967296.seg"), Err(WalError::ParseIntFailed));
    assert_eq!(parse_segment_file_name(b"12a.seg"), Err(WalError::ParseIntFailed));
    assert_eq!(parse_segment_file_name(b".seg"), Err(WalError::ParseIntFailed));
    assert_eq!(parse_segment_file_name(b"000900101.wal"), Ok(None));
    assert_eq!(parse_segment_file_name(b"seg"), Ok(None));
    for id in [0u32, 7, 123456789, 1000000000] {
        assert_eq!(parse_segment_file_name(&segment_file_name(id)), Ok(Some(id)));
    }
}
