use oxendb::storage::buffer_pool::{BufferPool, Fetch, PageHandle};
use oxendb::storage::disk::DiskManager;
use oxendb::storage::file_op::FileOp;
use oxendb::storage::page::{Page, PageId, PageType, PAGE_SIZE};
use oxendb::{Error, Result};

/// A data file held in memory, and its manager.
struct Disk {
    manager: DiskManager,
    file: Vec<u8>,
}

fn perform(file: &mut Vec<u8>, ops: &[FileOp]) {
    for op in ops {
        match op {
            FileOp::Write { offset, bytes } => {
                let start = *offset as usize;
                let end = start + bytes.len();
                if file.len() < end {
                    file.resize(end, 0);
                }
                file[start..end].copy_from_slice(bytes);
            }
            FileOp::SetLen(len) => file.resize(*len as usize, 0),
            FileOp::SyncData | FileOp::SyncAll => {}
        }
    }
}

/// Creates a database with `pages` heap pages whose payloads are filled
/// with their page number.
fn setup(pages: u64) -> Disk {
    let (mut manager, ops) = DiskManager::create();
    let mut file = Vec::new();
    perform(&mut file, &ops);
    for _ in 0..pages {
        perform(&mut file, &manager.allocate_page());
        let id = manager.allocated(Ok(())).unwrap();
        let mut page = Page::new(id, PageType::Heap);
        page.payload_mut().fill(id.0 as u8);
        let op = manager.write_page(id, &mut page).unwrap();
        perform(&mut file, &[op]);
    }
    Disk { manager, file }
}

/// Fetches a page, doing the reads and writes that the pool asks for.
fn fetch(pool: &mut BufferPool, disk: &mut Disk, id: PageId) -> Result<PageHandle> {
    loop {
        match pool.fetch_page(id)? {
            Fetch::Hit(handle) => return Ok(handle),
            Fetch::WriteBack(frame) => {
                let op = pool.write_back(frame, &disk.manager)?;
                perform(&mut disk.file, &[op]);
                pool.written_back(frame);
            }
            Fetch::Read => {
                let offset = disk.manager.page_offset(id)? as usize;
                let mut page = Page::zeroed();
                page.as_bytes_mut()
                    .copy_from_slice(&disk.file[offset..offset + PAGE_SIZE]);
                let page = disk.manager.read_page(id, Ok(page))?;
                return Ok(pool.load_page(id, page));
            }
        }
    }
}

fn on_disk(disk: &Disk, id: PageId) -> u8 {
    disk.file[id.file_offset() as usize + 24]
}

#[test]
fn rejects_zero_capacity() {
    assert!(matches!(
        BufferPool::new(0),
        Err(Error::InvalidArgument(_))
    ));
}

#[test]
fn fetch_reads_page_from_disk() {
    let mut disk = setup(2);
    let mut pool = BufferPool::new(4).unwrap();
    let handle = fetch(&mut pool, &mut disk, PageId(2)).unwrap();
    assert_eq!(handle.page_id(), PageId(2));
    assert!(handle.read(&pool).payload().iter().all(|&b| b == 2));
}

#[test]
fn repeated_fetch_shares_one_frame() {
    let mut disk = setup(1);
    let mut pool = BufferPool::new(4).unwrap();
    let a = fetch(&mut pool, &mut disk, PageId(1)).unwrap();
    let b = fetch(&mut pool, &mut disk, PageId(1)).unwrap();
    assert_eq!(a.frame_id(), b.frame_id());
    a.write(&mut pool).payload_mut()[0] = 99;
    assert_eq!(b.read(&pool).payload()[0], 99);
    assert_eq!(pool.pin_count(PageId(1)), 2);
}

#[test]
fn dropping_handles_unpins() {
    let mut disk = setup(1);
    let mut pool = BufferPool::new(4).unwrap();
    let handle = fetch(&mut pool, &mut disk, PageId(1)).unwrap();
    let second = fetch(&mut pool, &mut disk, PageId(1)).unwrap();
    pool.unpin(handle);
    assert_eq!(pool.pin_count(PageId(1)), 1);
    pool.unpin(second);
    assert_eq!(pool.pin_count(PageId(1)), 0);
}

#[test]
fn write_guard_marks_frame_dirty() {
    let mut disk = setup(1);
    let mut pool = BufferPool::new(4).unwrap();
    let handle = fetch(&mut pool, &mut disk, PageId(1)).unwrap();
    assert!(!pool.is_dirty(PageId(1)));
    handle.write(&mut pool);
    assert!(pool.is_dirty(PageId(1)));
}

#[test]
fn full_pool_reports_exhaustion() {
    let mut disk = setup(2);
    let mut pool = BufferPool::new(1).unwrap();
    let _held = fetch(&mut pool, &mut disk, PageId(1)).unwrap();
    let failed = fetch(&mut pool, &mut disk, PageId(2));
    assert!(matches!(failed, Err(Error::ResourceExhausted(_))));
    assert_eq!(
        failed.unwrap_err().to_string(),
        "resource exhausted: all 1 buffer pool frames are in use"
    );
}

#[test]
fn failed_read_returns_frame_to_free_list() {
    let mut disk = setup(1);
    let mut pool = BufferPool::new(1).unwrap();
    assert!(fetch(&mut pool, &mut disk, PageId(50)).is_err());
    assert!(fetch(&mut pool, &mut disk, PageId(1)).is_ok());
}

#[test]
fn unpinned_pages_make_room() {
    let mut disk = setup(8);
    let mut pool = BufferPool::new(3).unwrap();
    assert_eq!(pool.capacity(), 3);
    for round in 0..3 {
        for id in 1..=8 {
            let handle = fetch(&mut pool, &mut disk, PageId(id)).unwrap();
            assert_eq!(handle.read(&pool).payload()[0], id as u8, "round {round}");
            pool.unpin(handle);
        }
    }
}

#[test]
fn pinned_pages_are_never_evicted() {
    let mut disk = setup(8);
    let mut pool = BufferPool::new(2).unwrap();
    let held = fetch(&mut pool, &mut disk, PageId(1)).unwrap();
    for id in 2..=8 {
        let handle = fetch(&mut pool, &mut disk, PageId(id)).unwrap();
        pool.unpin(handle);
        assert_eq!(pool.pin_count(PageId(1)), 1);
        assert_eq!(held.read(&pool).payload()[0], 1);
    }
}

#[test]
fn dirty_pages_are_written_back_before_eviction() {
    let mut disk = setup(3);
    let mut pool = BufferPool::new(1).unwrap();
    let handle = fetch(&mut pool, &mut disk, PageId(1)).unwrap();
    handle.write(&mut pool).payload_mut()[0] = 77;
    pool.unpin(handle);
    assert_eq!(on_disk(&disk, PageId(1)), 1);
    let other = fetch(&mut pool, &mut disk, PageId(2)).unwrap();
    pool.unpin(other);
    assert_eq!(on_disk(&disk, PageId(1)), 77);
    let again = fetch(&mut pool, &mut disk, PageId(1)).unwrap();
    assert_eq!(again.read(&pool).payload()[0], 77);
    assert!(!pool.is_dirty(PageId(1)));
}

#[test]
fn failed_write_back_keeps_the_page_dirty() {
    let mut disk = setup(2);
    let mut pool = BufferPool::new(1).unwrap();
    let handle = fetch(&mut pool, &mut disk, PageId(1)).unwrap();
    handle.write(&mut pool).payload_mut()[0] = 77;
    pool.unpin(handle);
    // The pool asks for a write, which is not performed.
    assert!(matches!(
        pool.fetch_page(PageId(2)),
        Ok(Fetch::WriteBack(0))
    ));
    assert!(pool.is_dirty(PageId(1)));
    assert!(matches!(
        pool.fetch_page(PageId(2)),
        Ok(Fetch::WriteBack(0))
    ));
}

#[test]
fn clock_gives_used_pages_a_second_chance() {
    let mut disk = setup(4);
    let mut pool = BufferPool::new(2).unwrap();
    for id in [1, 2, 3] {
        // The third page takes the frame of the first.
        let handle = fetch(&mut pool, &mut disk, PageId(id)).unwrap();
        pool.unpin(handle);
    }
    assert!(matches!(pool.fetch_page(PageId(3)), Ok(Fetch::Hit(_))));
    // Page 3 is pinned now, so page 2 has to go.
    let handle = fetch(&mut pool, &mut disk, PageId(4)).unwrap();
    assert_eq!(handle.frame_id(), 1);
}

#[test]
fn installed_pages_are_dirty_until_flushed() {
    let mut disk = setup(3);
    let mut pool = BufferPool::new(2).unwrap();
    let mut page = Page::new(PageId(3), PageType::Heap);
    page.payload_mut().fill(33);
    page.seal();
    pool.room_for(PageId(3)).unwrap();
    pool.install_page(PageId(3), page);
    assert!(pool.is_dirty(PageId(3)));
    assert_eq!(on_disk(&disk, PageId(3)), 3);
    let ops = pool.flush_all(&disk.manager).unwrap();
    assert_eq!(ops.len(), 1);
    perform(&mut disk.file, &ops);
    pool.flush_done();
    assert!(!pool.is_dirty(PageId(3)));
    assert_eq!(on_disk(&disk, PageId(3)), 33);
}

#[test]
fn flushing_a_page_without_a_place_fails() {
    let disk = setup(1);
    let mut pool = BufferPool::new(2).unwrap();
    pool.install_page(PageId(9), Page::new(PageId(9), PageType::Heap));
    assert!(matches!(
        pool.flush_all(&disk.manager),
        Err(Error::InvalidArgument(_))
    ));
}
