use oxendb::storage::checksum::{crc32c, Crc32c};

#[test]
fn standard_check_value() {
    assert_eq!(crc32c(b"123456789"), 0xE306_9283);
}

#[test]
fn empty_input() {
    assert_eq!(crc32c(&[]), 0);
}

// Test vectors from RFC 3720, appendix B.4.
#[test]
fn rfc3720_vectors() {
    assert_eq!(crc32c(&[0u8; 32]), 0x8A91_36AA);
    assert_eq!(crc32c(&[0xFFu8; 32]), 0x62A8_AB43);
    let ascending: Vec<u8> = (0u8..32).collect();
    assert_eq!(crc32c(&ascending), 0x46DD_794E);
    let descending: Vec<u8> = (0u8..32).rev().collect();
    assert_eq!(crc32c(&descending), 0x113F_DB5C);
}

#[test]
fn incremental_matches_one_shot() {
    let data: Vec<u8> = (0..1000u32).map(|i| (i * 31 % 251) as u8).collect();
    for split in [0, 1, 7, 500, 999, 1000] {
        let mut hasher = Crc32c::new();
        hasher.update(&data[..split]);
        hasher.update(&data[split..]);
        assert_eq!(hasher.finalize(), crc32c(&data), "split at {split}");
    }
}

#[test]
fn detects_single_bit_flip() {
    let mut data = vec![0x5Au8; 4096];
    let original = crc32c(&data);
    data[2048] ^= 0x01;
    assert_ne!(crc32c(&data), original);
}

#[test]
fn default_hasher_is_a_new_one() {
    let mut hasher = Crc32c::default();
    hasher.update(b"1234");
    hasher.update(b"56789");
    assert_eq!(hasher.finalize(), 0xE306_9283);
}
