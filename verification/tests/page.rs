use oxendb::storage::page::{
    Page, PageHeader, PageId, PageType, PAGE_HEADER_SIZE, PAGE_SIZE,
};
use oxendb::Error;

#[test]
fn page_offsets() {
    assert_eq!(PageId::header().file_offset(), 0);
    assert_eq!(PageId(3).file_offset(), 3 * 4096);
}

#[test]
fn zeroed_page_is_all_zero() {
    let page = Page::zeroed();
    assert!(page.as_bytes().iter().all(|&b| b == 0));
}

#[test]
fn writes_are_visible() {
    let mut page = Page::zeroed();
    page.as_bytes_mut()[100] = 42;
    assert_eq!(page.as_bytes()[100], 42);
}

fn sealed_page(id: u64) -> Page {
    let mut page = Page::new(PageId(id), PageType::Heap);
    page.set_lsn(77);
    page.payload_mut()[..5].copy_from_slice(b"hello");
    page.seal();
    page
}

#[test]
fn sealed_page_round_trips() {
    let page = sealed_page(9);
    let header = page.verify(PageId(9)).unwrap();
    assert_eq!(
        header,
        PageHeader {
            page_type: PageType::Heap,
            page_id: PageId(9),
            lsn: 77
        }
    );
    assert_eq!(&page.payload()[..5], b"hello");
    assert_eq!(page.payload().len(), PAGE_SIZE - PAGE_HEADER_SIZE);
}

#[test]
fn every_single_bit_flip_is_detected() {
    let original = sealed_page(9);
    for byte in 0..PAGE_SIZE {
        for bit in 0..8 {
            let mut page = original.clone();
            page.as_bytes_mut()[byte] ^= 1 << bit;
            assert!(
                page.verify(PageId(9)).is_err(),
                "flip at byte {byte} bit {bit}"
            );
        }
    }
}

#[test]
fn misdirected_page_is_rejected() {
    let page = sealed_page(9);
    let err = page.verify(PageId(10)).unwrap_err();
    assert!(matches!(err, Error::Corruption(_)), "{}", err.to_string());
    assert_eq!(
        err.to_string(),
        "data corruption detected: page 10: header says it is page 9"
    );
}

#[test]
fn zeroed_page_is_rejected() {
    assert!(Page::zeroed().verify(PageId(1)).is_err());
}

#[test]
fn unknown_page_type_is_rejected_even_with_valid_checksum() {
    let mut page = sealed_page(9);
    page.as_bytes_mut()[4] = 200;
    page.seal();
    let err = page.verify(PageId(9)).unwrap_err();
    assert!(
        err.to_string().contains("unknown page type 200"),
        "{}",
        err.to_string()
    );
}

#[test]
fn unsealed_modification_is_rejected() {
    let mut page = sealed_page(9);
    page.payload_mut()[0] = b'j';
    assert!(page.verify(PageId(9)).is_err());
}

#[test]
fn set_reserved_bytes_are_rejected() {
    for at in 5..8 {
        let mut page = sealed_page(9);
        page.as_bytes_mut()[at] = 1;
        page.seal();
        assert_eq!(
            page.verify(PageId(9)).unwrap_err().to_string(),
            "data corruption detected: page 9: reserved header bytes are set"
        );
    }
}

#[test]
fn sealing_twice_changes_nothing() {
    let once = sealed_page(4);
    let mut twice = once.clone();
    twice.seal();
    assert_eq!(once, twice);
    assert_eq!(twice.page_id(), PageId(4));
}

#[test]
fn page_types_have_their_codes() {
    assert_eq!(PageType::Free.code(), 1);
    assert_eq!(PageType::Heap.code(), 2);
    assert_eq!(PageType::try_from(1), Ok(PageType::Free));
    assert_eq!(PageType::try_from(2), Ok(PageType::Heap));
    assert_eq!(PageType::try_from(0), Err(0));
    assert_eq!(PageType::try_from(3), Err(3));
}

#[test]
fn checksum_mismatch_shows_both_checksums() {
    let mut page = sealed_page(9);
    let stored = u32::from_le_bytes(page.as_bytes()[..4].try_into().unwrap());
    page.payload_mut()[0] = b'j';
    let mut again = page.clone();
    again.seal();
    let actual = u32::from_le_bytes(again.as_bytes()[..4].try_into().unwrap());
    assert_eq!(
        page.verify(PageId(9)).unwrap_err().to_string(),
        format!(
            "data corruption detected: page 9: checksum mismatch (stored {stored:#010x}, computed {actual:#010x})"
        )
    );
}
