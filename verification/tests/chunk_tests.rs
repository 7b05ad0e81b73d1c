use lector::digest::StreamDigest;
use lector::transport::{absorb_read, absorb_sent, next_total, ReceiveProgress, CHUNK_SIZE, QUIC_PORT};
use sha2::{Digest, Sha256};

#[test]
fn stream_constants() {
    assert_eq!(CHUNK_SIZE, 65536);
    assert_eq!(QUIC_PORT, 50052);
}

#[test]
fn totals_grow_by_each_chunk_until_the_stream_ends() {
    assert_eq!(next_total(0, Some(100)), Some(100));
    assert_eq!(next_total(100, Some(65536)), Some(65636));
    assert_eq!(next_total(100, Some(0)), None);
    assert_eq!(next_total(100, None), None);
}

#[test]
fn progress_reports_bytes_and_announced_size() {
    let p = ReceiveProgress::start(Some(2048));
    assert_eq!(p.bytes_received, 0);
    let p = p.after_read(Some(1024)).unwrap();
    assert_eq!((p.bytes_received, p.total_bytes), (1024, Some(2048)));
    let p = p.after_read(Some(1024)).unwrap();
    assert_eq!(p.bytes_received, 2048);
    assert!(p.after_read(None).is_none());
    assert!(p.after_read(Some(0)).is_none());
    let d = ReceiveProgress::default();
    assert_eq!((d.bytes_received, d.total_bytes), (0, None));
}

#[test]
fn received_reads_hash_to_the_digest_of_the_whole_stream() {
    let data: Vec<u8> = (0..5000u32).map(|i| (i * 7 % 251) as u8).collect();
    let mut digest = StreamDigest::start();
    let mut progress = ReceiveProgress::start(Some(data.len() as u64));
    let mut buf = [0u8; 1500];
    let mut offset = 0;
    for size in [1500usize, 1500, 1500, 500] {
        buf[..size].copy_from_slice(&data[offset..offset + size]);
        buf[size..].fill(0xAA);
        progress = absorb_read(&progress, &mut digest, &buf, Some(size)).unwrap();
        offset += size;
        assert_eq!(progress.bytes_received, offset as u64);
    }
    assert!(absorb_read(&progress, &mut digest, &buf, Some(0)).is_none());
    assert!(absorb_read(&progress, &mut digest, &buf, None).is_none());
    let expected: [u8; 32] = Sha256::digest(&data).into();
    assert_eq!(digest.finish(), expected);
}

#[test]
fn sent_reads_hash_to_the_digest_of_the_file() {
    let data = b"a file sent in three uneven pieces".to_vec();
    let mut digest = StreamDigest::start();
    let mut total = 0u64;
    let mut offset = 0;
    for size in [10usize, 3, 21] {
        let mut buf = vec![0xFFu8; 32];
        buf[..size].copy_from_slice(&data[offset..offset + size]);
        total = absorb_sent(total, &mut digest, &buf, size).unwrap();
        offset += size;
    }
    assert_eq!(total, data.len() as u64);
    assert!(absorb_sent(total, &mut digest, &[1, 2, 3], 0).is_none());
    let expected: [u8; 32] = Sha256::digest(&data).into();
    assert_eq!(digest.finish(), expected);
}
