use oxendb::storage::disk::DiskManager;
use oxendb::storage::file_header::FileHeader;
use oxendb::storage::file_op::FileOp;
use oxendb::storage::page::{Page, PageId, PageType, PAGE_SIZE};
use oxendb::{Error, Result};

/// A data file held in memory, and its manager.
struct Disk {
    manager: DiskManager,
    file: Vec<u8>,
}

fn perform(file: &mut Vec<u8>, ops: &[FileOp]) {
    for op in ops {
        match op {
            FileOp::Write { offset, bytes } => {
                let start = *offset as usize;
                let end = start + bytes.len();
                if file.len() < end {
                    file.resize(end, 0);
                }
                file[start..end].copy_from_slice(bytes);
            }
            FileOp::SetLen(len) => file.resize(*len as usize, 0),
            FileOp::SyncData | FileOp::SyncAll => {}
        }
    }
}

impl Disk {
    fn create() -> Self {
        let (manager, ops) = DiskManager::create();
        let mut file = Vec::new();
        perform(&mut file, &ops);
        Disk { manager, file }
    }

    fn open(file: Vec<u8>) -> Result<Self> {
        let mut first = Page::zeroed();
        if file.len() >= PAGE_SIZE {
            first.as_bytes_mut().copy_from_slice(&file[..PAGE_SIZE]);
        }
        let manager = DiskManager::open(file.len() as u64, &first)?;
        Ok(Disk { manager, file })
    }

    fn read_page(&self, id: PageId) -> Result<Page> {
        let offset = self.manager.page_offset(id)? as usize;
        let mut page = Page::zeroed();
        page.as_bytes_mut()
            .copy_from_slice(&self.file[offset..offset + PAGE_SIZE]);
        self.manager.read_page(id, Ok(page))
    }

    fn write_page(&mut self, id: PageId, page: &mut Page) -> Result<()> {
        let op = self.manager.write_page(id, page)?;
        perform(&mut self.file, &[op]);
        Ok(())
    }

    fn allocate_page(&mut self) -> Result<PageId> {
        let ops = self.manager.allocate_page();
        perform(&mut self.file, &ops);
        self.manager.allocated(Ok(()))
    }
}

fn heap_page(id: PageId, fill: u8) -> Page {
    let mut page = Page::new(id, PageType::Heap);
    page.payload_mut().fill(fill);
    page
}

#[test]
fn create_then_open_empty_database() {
    let created = Disk::create();
    let disk = Disk::open(created.file).unwrap();
    assert_eq!(disk.manager.page_count(), 1);
}

#[test]
fn pages_persist_across_reopen() {
    let mut disk = Disk::create();
    let ids: Vec<PageId> = (0..3).map(|_| disk.allocate_page().unwrap()).collect();
    for (i, &id) in ids.iter().enumerate() {
        disk.write_page(id, &mut heap_page(id, i as u8 + 1))
            .unwrap();
    }
    assert_eq!(disk.manager.sync(), FileOp::SyncAll);
    assert_eq!(ids, vec![PageId(1), PageId(2), PageId(3)]);

    let disk = Disk::open(disk.file).unwrap();
    assert_eq!(disk.manager.page_count(), 4);
    for (i, &id) in ids.iter().enumerate() {
        let page = disk.read_page(id).unwrap();
        assert!(page.payload().iter().all(|&b| b == i as u8 + 1));
    }
}

#[test]
fn newly_allocated_page_is_free() {
    let mut disk = Disk::create();
    let id = disk.allocate_page().unwrap();
    let header = disk.read_page(id).unwrap().verify(id).unwrap();
    assert_eq!(header.page_type, PageType::Free);
}

#[test]
fn rejects_header_and_out_of_bounds_pages() {
    let mut disk = Disk::create();
    assert!(matches!(
        disk.read_page(PageId::header()),
        Err(Error::InvalidArgument(_))
    ));
    assert!(matches!(
        disk.read_page(PageId(1)),
        Err(Error::InvalidArgument(_))
    ));
    let mut page = heap_page(PageId(5), 0);
    assert!(matches!(
        disk.write_page(PageId(5), &mut page),
        Err(Error::InvalidArgument(_))
    ));
}

#[test]
fn rejects_writing_page_to_wrong_location() {
    let mut disk = Disk::create();
    let id = disk.allocate_page().unwrap();
    let _other = disk.allocate_page().unwrap();
    let mut page = heap_page(PageId(2), 0);
    assert!(matches!(
        disk.write_page(id, &mut page),
        Err(Error::InvalidArgument(_))
    ));
}

#[test]
fn detects_on_disk_corruption() {
    let mut disk = Disk::create();
    let id = disk.allocate_page().unwrap();
    disk.write_page(id, &mut heap_page(id, 7)).unwrap();
    let mut file = disk.file;
    file[id.file_offset() as usize + 1000] = 0xFF;

    let disk = Disk::open(file).unwrap();
    assert!(matches!(disk.read_page(id), Err(Error::Corruption(_))));
}

#[test]
fn detects_truncated_file() {
    let mut disk = Disk::create();
    disk.allocate_page().unwrap();
    disk.allocate_page().unwrap();
    let mut file = disk.file;
    file.truncate(2 * PAGE_SIZE);
    assert!(matches!(Disk::open(file), Err(Error::Corruption(_))));
}

#[test]
fn tolerates_extra_trailing_page() {
    // Simulates a crash after the new page was written but before the
    // header was updated.
    let mut file = Disk::create().file;
    file.resize(2 * PAGE_SIZE, 0);

    let mut disk = Disk::open(file).unwrap();
    assert_eq!(disk.manager.page_count(), 1);
    assert_eq!(disk.allocate_page().unwrap(), PageId(1));
}

#[test]
fn rejects_non_database_file() {
    assert!(matches!(
        Disk::open(b"just some text".to_vec()),
        Err(Error::UnsupportedFormat(_))
    ));
}

#[test]
fn disk_messages_name_what_was_found() {
    let mut disk = Disk::create();
    disk.allocate_page().unwrap();
    assert_eq!(
        disk.read_page(PageId(0)).unwrap_err().to_string(),
        "invalid argument: page 0 is the file header and cannot be accessed as a data page"
    );
    assert_eq!(
        disk.read_page(PageId(2)).unwrap_err().to_string(),
        "invalid argument: page 2 is out of bounds (file has 2 pages)"
    );
    let mut page = heap_page(PageId(7), 0);
    assert_eq!(
        disk.write_page(PageId(1), &mut page).unwrap_err().to_string(),
        "invalid argument: refusing to write page 7 to the location of page 1"
    );
    let mut file = disk.file;
    file.truncate(PAGE_SIZE);
    assert_eq!(
        Disk::open(file).err().unwrap().to_string(),
        "data corruption detected: file is 4096 bytes but header lists 2 pages (8192 bytes)"
    );
    assert_eq!(
        Disk::open(vec![0; 10]).err().unwrap().to_string(),
        "unsupported file format: file is 10 bytes, too small to be an oxenDB database"
    );
}

#[test]
fn failed_allocation_changes_nothing() {
    let mut disk = Disk::create();
    assert!(disk
        .manager
        .allocated(Err(std::io::Error::other("disk full")))
        .is_err());
    assert_eq!(disk.manager.page_count(), 1);
    assert_eq!(disk.allocate_page().unwrap(), PageId(1));
}

#[test]
fn failed_read_is_reported() {
    let mut disk = Disk::create();
    let id = disk.allocate_page().unwrap();
    let failed = disk
        .manager
        .read_page(id, Err(std::io::Error::other("bad sector")));
    assert_eq!(failed.unwrap_err().to_string(), "I/O error: bad sector");
}

#[test]
fn page_count_never_shrinks() {
    let (mut manager, _) = DiskManager::create();
    manager.set_page_count(5).unwrap();
    assert_eq!(manager.page_count(), 5);
    assert_eq!(
        manager.set_page_count(4).unwrap_err().to_string(),
        "invalid argument: cannot shrink the database from 5 to 4 pages"
    );
    let mut file = Vec::new();
    perform(&mut file, &[manager.write_file_header()]);
    file.resize(5 * PAGE_SIZE, 0);
    assert_eq!(Disk::open(file).unwrap().manager.page_count(), 5);
}

#[test]
fn header_with_impossible_count_is_corrupt() {
    let page = FileHeader { page_count: u64::MAX }.encode();
    assert!(matches!(
        DiskManager::open(PAGE_SIZE as u64, &page),
        Err(Error::Corruption(_))
    ));
}
