use rsync_fetcher::generator::{block_weak_checksum, block_weak_sums, SumHead};

#[test]
fn weak_checksum_values() {
    assert_eq!(block_weak_checksum(b""), 0);
    assert_eq!(block_weak_checksum(b"abc"), 294 + 586 * 65536);
    assert_eq!(block_weak_checksum(&[0xFF]), 0xFFFF_FFFF);
    assert_eq!(block_weak_checksum(&[0x80, 0x01]), 0xFF81 + 0xFF01 * 65536);
}

#[test]
fn weak_checksum_of_long_block_wraps() {
    let block = vec![200u8; 5000];
    let s1: i64 = (200 - 256) * 5000;
    let s2: i64 = (200 - 256) * (5000 * 5001 / 2);
    let expected = (s1.rem_euclid(65536) + s2.rem_euclid(65536) * 65536) as u32;
    assert_eq!(block_weak_checksum(&block), expected);
}

#[test]
fn sum_head_for_files() {
    assert_eq!(
        SumHead::for_file(1000, 300, 16),
        SumHead { count: 4, block_len: 300, strong_len: 16, remainder: 100 }
    );
    assert_eq!(SumHead::for_file(900, 300, 16).count, 3);
    assert_eq!(SumHead::for_file(900, 300, 16).remainder, 0);
    assert_eq!(SumHead::for_file(0, 700, 2).count, 0);
    assert_eq!(SumHead::for_file(u32::MAX, 2, 2).count, 0x8000_0000);
}

#[test]
fn sum_head_encoding() {
    assert_eq!(SumHead::empty().encode(), vec![0u8; 16]);
    let h = SumHead { count: 4, block_len: 0x0102, strong_len: 16, remainder: 0x0A0B0C0D };
    assert_eq!(
        h.encode(),
        vec![4, 0, 0, 0, 0x02, 0x01, 0, 0, 16, 0, 0, 0, 0x0D, 0x0C, 0x0B, 0x0A]
    );
}

#[test]
fn weak_sums_per_block() {
    let data = b"abcdefgh".to_vec();
    let sums = block_weak_sums(&data, 3);
    assert_eq!(
        sums,
        vec![block_weak_checksum(b"abc"), block_weak_checksum(b"def"), block_weak_checksum(b"gh")]
    );
    assert_eq!(sums[0], 294 + 586 * 65536);
    assert_eq!(block_weak_sums(&data, 4).len(), 2);
    assert_eq!(block_weak_sums(&data, 100), vec![block_weak_checksum(&data)]);
    assert!(block_weak_sums(&[], 5).is_empty());
}
