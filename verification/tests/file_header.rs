use oxendb::storage::checksum::crc32c;
use oxendb::storage::file_header::{FileHeader, FORMAT_VERSION, MAGIC};
use oxendb::storage::page::{Page, PAGE_SIZE};
use oxendb::Error;

/// Rewrites a field and recomputes the checksum, simulating a file that
/// is internally consistent but has unexpected contents.
fn tamper(page: &mut Page, range: std::ops::Range<usize>, value: &[u8]) {
    let bytes = page.as_bytes_mut();
    bytes[range].copy_from_slice(value);
    let checksum = crc32c(&bytes[4..]);
    bytes[0..4].copy_from_slice(&checksum.to_le_bytes());
}

#[test]
fn round_trip() {
    let header = FileHeader { page_count: 12345 };
    assert_eq!(FileHeader::decode(&header.encode()).unwrap(), header);
}

#[test]
fn rejects_foreign_file() {
    let err = FileHeader::decode(&Page::zeroed()).unwrap_err();
    assert!(matches!(err, Error::UnsupportedFormat(_)), "{}", err.to_string());
}

#[test]
fn rejects_corrupted_header() {
    let mut page = FileHeader::new().encode();
    page.as_bytes_mut()[20] ^= 0x10;
    let err = FileHeader::decode(&page).unwrap_err();
    assert!(matches!(err, Error::Corruption(_)), "{}", err.to_string());
}

#[test]
fn rejects_future_format_version() {
    let mut page = FileHeader::new().encode();
    tamper(&mut page, 12..16, &2u32.to_le_bytes());
    let err = FileHeader::decode(&page).unwrap_err();
    assert!(err.to_string().contains("version 2"), "{}", err.to_string());
}

#[test]
fn rejects_other_page_size() {
    let mut page = FileHeader::new().encode();
    tamper(&mut page, 16..20, &8192u32.to_le_bytes());
    assert!(matches!(
        FileHeader::decode(&page),
        Err(Error::UnsupportedFormat(_))
    ));
}

#[test]
fn rejects_zero_page_count() {
    let mut page = FileHeader::new().encode();
    tamper(&mut page, 20..28, &0u64.to_le_bytes());
    assert!(matches!(
        FileHeader::decode(&page),
        Err(Error::Corruption(_))
    ));
}

#[test]
fn layout_is_as_documented() {
    let page = FileHeader { page_count: 0x0102 }.encode();
    let bytes = page.as_bytes();
    assert_eq!(bytes[0..4], crc32c(&bytes[4..]).to_le_bytes());
    assert_eq!(bytes[4..12], MAGIC);
    assert_eq!(&MAGIC, b"oxenDB\0\0");
    assert_eq!(bytes[12..16], FORMAT_VERSION.to_le_bytes());
    assert_eq!(bytes[16..20], (PAGE_SIZE as u32).to_le_bytes());
    assert_eq!(bytes[20..28], 0x0102u64.to_le_bytes());
    assert!(bytes[28..].iter().all(|&b| b == 0));
}

#[test]
fn messages_name_what_was_found() {
    let mut page = FileHeader::default().encode();
    tamper(&mut page, 16..20, &8192u32.to_le_bytes());
    assert_eq!(
        FileHeader::decode(&page).unwrap_err().to_string(),
        "unsupported file format: page size 8192, this build supports 4096"
    );
    let mut page = FileHeader::default().encode();
    tamper(&mut page, 12..16, &7u32.to_le_bytes());
    assert_eq!(
        FileHeader::decode(&page).unwrap_err().to_string(),
        "unsupported file format: file format version 7, this build supports version 1"
    );
}

#[test]
fn any_changed_header_byte_is_detected() {
    let original = FileHeader { page_count: 9 }.encode();
    for at in (0..64).chain([2000, PAGE_SIZE - 1]) {
        let mut page = original.clone();
        page.as_bytes_mut()[at] ^= 0xA5;
        assert!(FileHeader::decode(&page).is_err(), "byte {at}");
    }
}
