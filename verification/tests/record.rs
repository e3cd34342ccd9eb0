use oxendb::storage::checksum::crc32c;
use oxendb::storage::page::{Page, PageId, PageType};
use oxendb::storage::wal::record::{
    DecodeError, DecodedRecord, TxnId, WalRecord, COMMIT_LEN, PAGE_IMAGE_LEN, TYPE_PAGE_IMAGE,
};

fn image(txn: u64, page_id: u64, fill: u8) -> WalRecord {
    let mut page = Page::new(PageId(page_id), PageType::Heap);
    page.payload_mut().fill(fill);
    page.seal();
    WalRecord::PageImage {
        txn: TxnId(txn),
        page_id: PageId(page_id),
        page,
    }
}

fn encode(record: &WalRecord, seq: u64) -> Vec<u8> {
    let mut out = Vec::new();
    record.encode(seq, &mut out);
    out
}

#[test]
fn page_image_round_trips() {
    let record = image(3, 9, 0xAB);
    let bytes = encode(&record, 41);
    assert_eq!(bytes.len(), PAGE_IMAGE_LEN);
    let decoded = WalRecord::decode(&bytes).unwrap();
    assert_eq!(
        decoded,
        DecodedRecord {
            seq: 41,
            record,
            len: PAGE_IMAGE_LEN
        }
    );
}

#[test]
fn commit_round_trips() {
    let record = WalRecord::Commit {
        txn: TxnId(u64::MAX),
    };
    let bytes = encode(&record, 0);
    assert_eq!(WalRecord::decode(&bytes).unwrap().record, record);
}

#[test]
fn decodes_first_of_several_records() {
    let mut bytes = encode(&WalRecord::Commit { txn: TxnId(1) }, 5);
    image(2, 3, 1).encode(6, &mut bytes);
    let first = WalRecord::decode(&bytes).unwrap();
    assert_eq!(first.seq, 5);
    let second = WalRecord::decode(&bytes[first.len..]).unwrap();
    assert_eq!(second.seq, 6);
}

#[test]
fn every_truncation_is_incomplete() {
    for record in [image(1, 1, 7), WalRecord::Commit { txn: TxnId(1) }] {
        let bytes = encode(&record, 1);
        for cut in 0..bytes.len() {
            assert_eq!(
                WalRecord::decode(&bytes[..cut]),
                Err(DecodeError::Incomplete),
                "cut at {cut}"
            );
        }
    }
}

#[test]
fn every_single_bit_flip_is_rejected() {
    for record in [image(1, 1, 7), WalRecord::Commit { txn: TxnId(1) }] {
        let original = encode(&record, 1);
        for byte in 0..original.len() {
            for bit in 0..8 {
                let mut bytes = original.clone();
                bytes[byte] ^= 1 << bit;
                match WalRecord::decode(&bytes) {
                    Ok(_) => panic!("flip at byte {byte} bit {bit} was accepted"),
                    Err(DecodeError::Invalid(_) | DecodeError::Incomplete) => {}
                }
            }
        }
    }
}

#[test]
fn zeroed_bytes_are_invalid() {
    assert!(matches!(
        WalRecord::decode(&[0u8; 64]),
        Err(DecodeError::Invalid(_))
    ));
}

#[test]
fn mismatched_type_and_length_is_invalid() {
    let mut bytes = encode(&WalRecord::Commit { txn: TxnId(1) }, 1);
    bytes[16] = TYPE_PAGE_IMAGE;
    let checksum = crc32c(&bytes[8..]);
    bytes[4..8].copy_from_slice(&checksum.to_le_bytes());
    assert!(matches!(
        WalRecord::decode(&bytes),
        Err(DecodeError::Invalid(_))
    ));
}

#[test]
fn record_layout_is_as_documented() {
    let bytes = encode(&image(0x11, 0x22, 5), 0x33);
    assert_eq!(bytes[0..4], (PAGE_IMAGE_LEN as u32).to_le_bytes());
    assert_eq!(bytes[4..8], crc32c(&bytes[8..]).to_le_bytes());
    assert_eq!(bytes[8..16], 0x33u64.to_le_bytes());
    assert_eq!(bytes[16], 1);
    assert_eq!(bytes[17..25], 0x11u64.to_le_bytes());
    assert_eq!(bytes[25..33], 0x22u64.to_le_bytes());
    assert_eq!(bytes.len(), 4129);
    let commit = encode(&WalRecord::Commit { txn: TxnId(0x11) }, 0x33);
    assert_eq!(commit[16], 2);
    assert_eq!(commit.len(), COMMIT_LEN);
    assert_eq!(commit.len(), 25);
}

#[test]
fn invalid_records_say_why() {
    assert_eq!(
        WalRecord::decode(&[0u8; 64]),
        Err(DecodeError::Invalid("impossible record length 0".into()))
    );
    let mut bytes = encode(&WalRecord::Commit { txn: TxnId(1) }, 1);
    bytes[16] = 7;
    let checksum = crc32c(&bytes[8..]);
    bytes[4..8].copy_from_slice(&checksum.to_le_bytes());
    assert_eq!(
        WalRecord::decode(&bytes),
        Err(DecodeError::Invalid("record type 7 with length 25".into()))
    );
}
