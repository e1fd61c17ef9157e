use rdb::journal::{Reader, Writer};
use rdb::errors::FileError;
use rdb::{BLOCK_SIZE, HEADER_SIZE};

fn written(records: &[&[u8]]) -> Vec<u8> {
    let mut w = Writer::new();
    for r in records {
        w.add_record(r).unwrap();
    }
    w.contents().clone()
}

#[test]
fn single_fragment_round_trip() {
    let data: Vec<u8> = (0..1000u32).map(|i| (i % 251) as u8).collect();
    let mut r = Reader::new(written(&[&data]));
    assert_eq!(r.read_record().unwrap(), Some(data));
    assert_eq!(r.read_record().unwrap(), None);
}

#[test]
fn multi_fragment_round_trip() {
    // longer than one block's usable payload, so it spans blocks
    let data: Vec<u8> = (0..80000u32).map(|i| (i % 241) as u8).collect();
    let file = written(&[&data]);
    assert!(file.len() > 2 * BLOCK_SIZE);
    let mut r = Reader::new(file);
    assert_eq!(r.read_record().unwrap(), Some(data));
    assert_eq!(r.read_record().unwrap(), None);
}

#[test]
fn empty_record_round_trip() {
    let mut r = Reader::new(written(&[b""]));
    assert_eq!(r.read_record().unwrap(), Some(Vec::new()));
    assert_eq!(r.read_record().unwrap(), None);
}

#[test]
fn order_is_preserved() {
    let r1 = b"first record".to_vec();
    let r2 = b"second".to_vec();
    let r3 = b"third one".to_vec();
    let mut r = Reader::new(written(&[&r1, &r2, &r3]));
    assert_eq!(r.read_record().unwrap(), Some(r1));
    assert_eq!(r.read_record().unwrap(), Some(r2));
    assert_eq!(r.read_record().unwrap(), Some(r3));
    assert_eq!(r.read_record().unwrap(), None);
}

#[test]
fn padding_fills_block_tail_with_zeros() {
    // first record ends five bytes short of the block boundary
    let first = vec![7u8; BLOCK_SIZE - HEADER_SIZE - 5];
    let second = b"next".to_vec();
    let file = written(&[&first, &second]);
    // the five-byte tail was zero-padded
    for i in (BLOCK_SIZE - 5)..BLOCK_SIZE {
        assert_eq!(file[i], 0);
    }
    // the second record starts at the fresh block boundary
    assert_eq!(file[BLOCK_SIZE + 6], 1); // a full fragment's type byte
    let mut r = Reader::new(file);
    assert_eq!(r.read_record().unwrap(), Some(first));
    assert_eq!(r.read_record().unwrap(), Some(second));
    assert_eq!(r.read_record().unwrap(), None);
}

#[test]
fn bit_flips_are_detected() {
    let file = written(&[b"hello"]);
    // flip every bit of the payload: always a checksum mismatch
    for idx in HEADER_SIZE..HEADER_SIZE + 5 {
        for bit in 0..8 {
            let mut bad = file.clone();
            bad[idx] ^= 1 << bit;
            let mut r = Reader::new(bad);
            assert_eq!(r.read_record(), Err(FileError::ChecksumMismatch));
        }
    }
    // flip every bit of the type byte: a mismatch, except that clearing
    // the low bit makes the reserved zero type, which reads as
    // never-written space and hence a clean end of the log
    for bit in 0..8 {
        let mut bad = file.clone();
        bad[6] ^= 1 << bit;
        let mut r = Reader::new(bad);
        if bit == 0 {
            assert_eq!(r.read_record(), Ok(None));
        } else {
            assert_eq!(r.read_record(), Err(FileError::ChecksumMismatch));
        }
    }
}

#[test]
fn masking_round_trips() {
    for c in [
        0u32,
        1,
        0x7fff,
        0x8000,
        0xa282ead8,
        0x5d7d1931,
        u32::MAX,
        u32::MAX - 0xa282ead8,
    ] {
        assert_eq!(rdb::checksum::unmask_crc(rdb::checksum::mask_crc(c)), c);
    }
}

#[test]
fn masking_exact_values() {
    // rotate right by fifteen, then add the constant, wrapping
    assert_eq!(rdb::checksum::mask_crc(0), 0xa282ead8);
    assert_eq!(rdb::checksum::mask_crc(1), 0xa282ead8u32.wrapping_add(1 << 17));
    assert_eq!(rdb::checksum::mask_crc(0x8000), 0xa282ead8 + 1);
    assert_eq!(rdb::checksum::unmask_crc(0xa282ead8), 0);
}

#[test]
fn checksum_error_skips_rest_of_block() {
    let r1 = b"one".to_vec();
    let r2 = b"two".to_vec();
    let mut file = written(&[&r1, &r2]);
    file[HEADER_SIZE] ^= 0x40; // corrupt the first payload
    let mut r = Reader::new(file);
    assert_eq!(r.read_record(), Err(FileError::ChecksumMismatch));
    // the second record shared the damaged block, so it is skipped too
    assert_eq!(r.read_record().unwrap(), None);
}

#[test]
fn block_packing_boundaries() {
    // a record of exactly the usable payload fills the block exactly
    let exact = vec![3u8; BLOCK_SIZE - HEADER_SIZE];
    let file = written(&[&exact]);
    assert_eq!(file.len(), BLOCK_SIZE);
    assert_eq!(file[6], 1); // one full fragment
    let mut r = Reader::new(file);
    assert_eq!(r.read_record().unwrap(), Some(exact));
    assert_eq!(r.read_record().unwrap(), None);

    // one byte more splits into a first and a one-byte last fragment
    let over = vec![4u8; BLOCK_SIZE - HEADER_SIZE + 1];
    let file = written(&[&over]);
    assert_eq!(file.len(), BLOCK_SIZE + HEADER_SIZE + 1);
    assert_eq!(file[6], 2); // first
    assert_eq!(file[BLOCK_SIZE + 6], 4); // last, in the next block
    let mut r = Reader::new(file);
    assert_eq!(r.read_record().unwrap(), Some(over));
    assert_eq!(r.read_record().unwrap(), None);
}

#[test]
fn truncated_header_tail() {
    let r1 = b"durable".to_vec();
    let full = written(&[&r1, b"torn"]);
    let keep = HEADER_SIZE + r1.len() + 3; // cut inside the second header
    let mut r = Reader::new(full[..keep].to_vec());
    assert_eq!(r.read_record().unwrap(), Some(r1));
    assert_eq!(r.read_record(), Err(FileError::TruncatedFragment));
    assert_eq!(r.read_record().unwrap(), None);
}

#[test]
fn truncated_payload_tail() {
    let r1 = b"durable".to_vec();
    let full = written(&[&r1, b"torn record"]);
    let keep = full.len() - 4; // cut inside the second payload
    let mut r = Reader::new(full[..keep].to_vec());
    assert_eq!(r.read_record().unwrap(), Some(r1));
    assert_eq!(r.read_record(), Err(FileError::TruncatedFragment));
    assert_eq!(r.read_record().unwrap(), None);
}

#[test]
fn zero_type_reads_as_end() {
    // a preallocated, never-written region: an all-zero header
    let mut r = Reader::new(vec![0u8; HEADER_SIZE]);
    assert_eq!(r.read_record().unwrap(), None);
}

#[test]
fn stray_continuation_is_a_protocol_violation() {
    // a checksum-correct middle fragment with no record open
    let mut digest = crc::crc32::Digest::new_with_initial(crc::crc32::IEEE, 3u32);
    crc::crc32::Hasher32::write(&mut digest, b"x");
    let masked = rdb::checksum::mask_crc(crc::crc32::Hasher32::sum32(&digest));
    let mut file = rdb::coding::encode_u32(masked);
    file.extend(rdb::coding::encode_u16(1));
    file.push(3);
    file.push(b'x');
    let mut r = Reader::new(file);
    assert_eq!(r.read_record(), Err(FileError::ProtocolViolation));
    assert_eq!(r.read_record().unwrap(), None);
}

#[test]
fn db_open_succeeds() {
    let db = rdb::db::DB::open(rdb::db::DBOptions::default(), "testdb");
    assert!(db.is_ok());
}
