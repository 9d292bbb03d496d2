use qdb::buffer_manager::{BufferError, BufferManager, Fetch, WriteBack};
use qdb::clock_replacer::ClockReplacer;
use qdb::disk_manager::DiskManager;
use qdb::lru_replacer::LRUReplacer;
use qdb::page::{PageID, PAGE_SIZE};
use qdb::replacer::{FrameID, Replacer};

const CAPACITY: usize = 10;

/// Stands for the backing file: one flat run of bytes, page `id` at
/// `id * PAGE_SIZE`, empty at the start.
struct Store {
    bytes: Vec<u8>,
    reads: usize,
    writes: usize,
}

impl Store {
    fn new() -> Store {
        Store { bytes: Vec::new(), reads: 0, writes: 0 }
    }

    fn write(&mut self, wb: &WriteBack) {
        let offset = DiskManager::page_offset(wb.page).unwrap() as usize;
        if self.bytes.len() < offset + PAGE_SIZE {
            self.bytes.resize(offset + PAGE_SIZE, 0);
        }
        self.bytes[offset..offset + PAGE_SIZE].copy_from_slice(&wb.data);
        self.writes += 1;
    }

    fn read(&mut self, page: PageID) -> Option<[u8; PAGE_SIZE]> {
        let offset = DiskManager::page_offset(page).unwrap() as usize;
        if self.bytes.len() < offset + PAGE_SIZE {
            return None;
        }
        let mut buf = [0u8; PAGE_SIZE];
        buf.copy_from_slice(&self.bytes[offset..offset + PAGE_SIZE]);
        self.reads += 1;
        Some(buf)
    }
}

fn new_page<R: Replacer>(mm: &mut BufferManager<R>, store: &mut Store) -> Option<FrameID> {
    match mm.new_page() {
        None => None,
        Some(np) => {
            if let Some(wb) = &np.write_back {
                store.write(wb);
            }
            Some(np.frame)
        }
    }
}

fn fetch_page<R: Replacer>(
    mm: &mut BufferManager<R>,
    store: &mut Store,
    page: PageID,
) -> Option<FrameID> {
    match mm.fetch_page(page) {
        Fetch::Hit(frame) => Some(frame),
        Fetch::Exhausted => None,
        Fetch::Miss(write_back) => {
            if let Some(wb) = &write_back {
                store.write(wb);
            }
            match store.read(page) {
                None => panic!("failed to read page from disk"),
                Some(data) => Some(mm.load_page(page, data).unwrap()),
            }
        }
    }
}

fn allocate_until_full<R: Replacer>() {
    let mut store = Store::new();
    let mut mm = BufferManager::<R>::new(CAPACITY);
    for i in 0..CAPACITY {
        assert_eq!(mm.pages_free(), CAPACITY - i);
        assert!(new_page(&mut mm, &mut store).is_some());
    }
    for _ in 0..CAPACITY {
        assert_eq!(mm.pages_free(), 0);
        assert!(new_page(&mut mm, &mut store).is_none());
    }
    assert_eq!(mm.pages_free(), 0);
}

#[test]
fn allocate_pages() {
    allocate_until_full::<ClockReplacer>();
}

#[test]
fn allocate_pages_lru() {
    allocate_until_full::<LRUReplacer>();
}

#[test]
fn allocate_for_every_small_capacity() {
    for capacity in 0..6 {
        let mut store = Store::new();
        let mut mm = BufferManager::<ClockReplacer>::new(capacity);
        for i in 0..capacity {
            let np = mm.new_page().unwrap();
            assert_eq!(np.page, i);
            assert_eq!(np.frame, i);
            assert!(np.write_back.is_none());
        }
        assert!(new_page(&mut mm, &mut store).is_none());
        for frame in 0..capacity {
            assert_eq!(mm.page(frame).unwrap().pin_count, 1);
        }
    }
}

/// The pool is filled and emptied of pins; all pages but the last one give
/// way to new ones; the last one is still resident, and is the next to go.
fn unpin_then_evict<R: Replacer>() {
    let mut store = Store::new();
    let mut mm = BufferManager::<R>::new(CAPACITY);
    for i in 0..CAPACITY {
        assert_eq!(mm.pages_free(), CAPACITY - i);
        assert!(new_page(&mut mm, &mut store).is_some());
    }
    for i in 0..CAPACITY {
        mm.unpin_page(i, false).unwrap();
    }
    for _ in 0..CAPACITY - 1 {
        assert!(new_page(&mut mm, &mut store).is_some());
    }
    let last = CAPACITY - 1;
    assert!(fetch_page(&mut mm, &mut store, last).is_some());
    assert_eq!(store.reads, 0);
    mm.unpin_page(last, false).unwrap();
    assert!(new_page(&mut mm, &mut store).is_some());
    assert!(matches!(mm.fetch_page(last), Fetch::Exhausted));
    assert!(fetch_page(&mut mm, &mut store, last).is_none());
}

#[test]
fn unpin_pages() {
    unpin_then_evict::<ClockReplacer>();
}

#[test]
fn unpin_pages_lru() {
    unpin_then_evict::<LRUReplacer>();
}

#[test]
fn first_page_is_the_first_to_go() {
    let mut mm = BufferManager::<ClockReplacer>::new(CAPACITY);
    for _ in 0..CAPACITY {
        assert!(mm.new_page().is_some());
    }
    for i in 0..CAPACITY {
        mm.unpin_page(i, false).unwrap();
    }
    let np = mm.new_page().unwrap();
    assert_eq!(np.frame, 0);
    assert_eq!(np.page, CAPACITY);
    assert!(mm.page(0).unwrap().id == CAPACITY);
    // Page 0 was clean, so nothing of it is in the page store: it is gone.
    assert!(matches!(mm.fetch_page(0), Fetch::Miss(None)));
    let mut store = Store::new();
    assert!(store.read(0).is_none());
}

fn round_trip<R: Replacer>() {
    let mut store = Store::new();
    let mut mm = BufferManager::<R>::new(CAPACITY);
    let p_opt = new_page(&mut mm, &mut store);
    assert!(p_opt.is_some());
    let p = p_opt.unwrap();
    // Write something into this page
    let s = "Hello".as_bytes();
    mm.write_data(0, 0, s).unwrap();
    // Read it back from cache
    assert_eq!(mm.page(p).unwrap().data[..5], *"Hello".as_bytes());
    // Force the page out of cache
    mm.unpin_page(0, true).unwrap();
    for _ in 0..CAPACITY {
        assert!(new_page(&mut mm, &mut store).is_some());
    }
    assert_eq!(store.writes, 1);
    for i in 0..CAPACITY {
        mm.unpin_page(i + 1, false).unwrap();
    }
    // Read page from disk and compare with written value
    let p_opt = fetch_page(&mut mm, &mut store, 0);
    assert!(p_opt.is_some());
    let p = p_opt.unwrap();
    assert_eq!(store.reads, 1);
    assert_eq!(mm.page(p).unwrap().data[..5], *"Hello".as_bytes());
    assert!(mm.page(p).unwrap().data[5..].iter().all(|b| *b == 0));
    assert_eq!(mm.page(p).unwrap().pin_count, 1);
    assert_eq!(mm.page(p).unwrap().dirty, false);
}

#[test]
fn write_and_read() {
    round_trip::<ClockReplacer>();
}

#[test]
fn write_and_read_lru() {
    round_trip::<LRUReplacer>();
}

#[test]
fn pages_free_goes_down_by_one_and_up_by_one() {
    let mut mm = BufferManager::<LRUReplacer>::new(4);
    assert_eq!(mm.pages_free(), 4);
    assert_eq!(mm.bytes_free(), Some(4 * PAGE_SIZE));
    mm.new_page().unwrap();
    assert_eq!(mm.pages_free(), 3);
    mm.new_page().unwrap();
    assert_eq!(mm.pages_free(), 2);
    // a hit takes no frame
    assert!(matches!(mm.fetch_page(1), Fetch::Hit(1)));
    assert_eq!(mm.pages_free(), 2);
    // flushing a pinned page frees nothing
    assert!(mm.flush_page(0).unwrap().is_none());
    assert_eq!(mm.pages_free(), 2);
    // flushing an unpinned page frees its frame
    mm.unpin_page(0, true).unwrap();
    let wb = mm.flush_page(0).unwrap().unwrap();
    assert_eq!(wb.page, 0);
    assert_eq!(mm.pages_free(), 3);
    assert_eq!(mm.bytes_free(), Some(3 * PAGE_SIZE));
    // a miss takes a frame once the page is loaded
    assert!(matches!(mm.fetch_page(0), Fetch::Miss(None)));
    assert_eq!(mm.pages_free(), 3);
    assert_eq!(mm.load_page(0, wb.data), Ok(2));
    assert_eq!(mm.pages_free(), 2);
}

#[test]
fn double_unpin_is_refused_and_changes_nothing() {
    let mut mm = BufferManager::<ClockReplacer>::new(2);
    mm.new_page().unwrap();
    mm.new_page().unwrap();
    assert_eq!(mm.unpin_page(0, false), Ok(()));
    assert_eq!(mm.unpin_page(0, true), Err(BufferError::NotPinned));
    assert_eq!(mm.page(0).unwrap().pin_count, 0);
    assert_eq!(mm.page(0).unwrap().dirty, false);
    // Exactly one page can be replaced, not two.
    assert!(mm.new_page().is_some());
    assert!(mm.new_page().is_none());
}

#[test]
fn unknown_pages_are_refused() {
    let mut mm = BufferManager::<ClockReplacer>::new(2);
    assert_eq!(mm.unpin_page(0, false), Err(BufferError::UnknownPage));
    assert!(matches!(mm.flush_page(3), Err(BufferError::UnknownPage)));
    assert_eq!(mm.load_page(0, [0u8; PAGE_SIZE]), Err(BufferError::UnknownPage));
    assert_eq!(mm.write_data(0, 0, b"x"), Err(BufferError::UnknownPage));
    mm.new_page().unwrap();
    assert_eq!(mm.load_page(0, [0u8; PAGE_SIZE]), Err(BufferError::AlreadyResident));
    assert_eq!(mm.write_data(0, PAGE_SIZE, b"x"), Err(BufferError::OutOfRange));
    assert_eq!(mm.write_data(0, PAGE_SIZE - 1, b"x"), Ok(()));
    mm.unpin_page(0, false).unwrap();
    assert_eq!(mm.write_data(0, 0, b"x"), Err(BufferError::NotPinned));
    mm.new_page().unwrap();
    mm.flush_page(0).unwrap();
    mm.new_page().unwrap();
    assert_eq!(mm.load_page(0, [0u8; PAGE_SIZE]), Err(BufferError::NoFreeFrame));
    assert!(mm.page(2).is_none());
}

#[test]
fn pins_are_counted() {
    let mut mm = BufferManager::<LRUReplacer>::new(1);
    mm.new_page().unwrap();
    assert!(matches!(mm.fetch_page(0), Fetch::Hit(0)));
    assert_eq!(mm.page(0).unwrap().pin_count, 2);
    mm.unpin_page(0, false).unwrap();
    // still pinned once: the pool is exhausted
    assert!(mm.new_page().is_none());
    mm.unpin_page(0, true).unwrap();
    let np = mm.new_page().unwrap();
    let wb = np.write_back.unwrap();
    assert_eq!(wb.page, 0);
    assert_eq!(np.page, 1);
    assert_eq!(np.frame, 0);
}

#[test]
fn page_offsets() {
    assert_eq!(DiskManager::page_offset(0), Some(0));
    assert_eq!(DiskManager::page_offset(1), Some(4096));
    assert_eq!(DiskManager::page_offset(10), Some(40960));
    assert_eq!(DiskManager::page_offset(usize::MAX), None);
    let mut dm = DiskManager::new("pages.db");
    assert_eq!(dm.file_name(), "pages.db");
    assert_eq!(dm.allocate_page(), 0);
    assert_eq!(dm.allocate_page(), 1);
    assert_eq!(dm.allocated(), 2);
    DiskManager::deallocate_page(0);
    assert_eq!(dm.allocate_page(), 2);
}

/// A small generator of numbers that look random, the same on every run.
struct Numbers(u64);

impl Numbers {
    fn next(&mut self, below: usize) -> usize {
        self.0 = self.0.wrapping_mul(6364136223846793005).wrapping_add(1442695040888963407);
        ((self.0 >> 33) as usize) % below
    }
}

/// Pages are written, released and fetched again in no particular order:
/// whatever was last written into a page is what comes back, from memory or
/// from the page store.
fn pages_keep_what_was_written<R: Replacer>(seed: u64) {
    let mut numbers = Numbers(seed);
    let mut store = Store::new();
    let mut mm = BufferManager::<R>::new(4);
    let mut written: Vec<u8> = Vec::new();
    let mut pins: Vec<usize> = Vec::new();
    for step in 0..3000 {
        match numbers.next(4) {
            0 => {
                let before = mm.pages_free();
                if let Some(frame) = new_page(&mut mm, &mut store) {
                    let page = mm.page(frame).unwrap().id;
                    assert_eq!(page, written.len());
                    assert!(mm.pages_free() + 1 == before || (before == 0 && mm.pages_free() == 0));
                    // a page is written at once, so that it can come back
                    let byte = (step % 251) as u8 + 1;
                    mm.write_data(page, 0, &[byte]).unwrap();
                    mm.unpin_page(page, true).unwrap();
                    written.push(byte);
                    pins.push(0);
                } else {
                    assert!(pins.iter().filter(|p| **p > 0).count() == 4);
                }
            }
            1 if !written.is_empty() => {
                let page = numbers.next(written.len());
                if let Some(frame) = fetch_page(&mut mm, &mut store, page) {
                    pins[page] += 1;
                    let p = mm.page(frame).unwrap();
                    assert_eq!(p.id, page);
                    assert_eq!(p.data[0], written[page]);
                    assert_eq!(p.pin_count, pins[page]);
                } else {
                    assert_eq!(pins[page], 0);
                    assert!(pins.iter().filter(|p| **p > 0).count() == 4);
                }
            }
            2 if !written.is_empty() => {
                let page = numbers.next(written.len());
                if pins[page] > 0 {
                    let byte = (step % 251) as u8 + 1;
                    mm.write_data(page, 0, &[byte]).unwrap();
                    written[page] = byte;
                    mm.unpin_page(page, true).unwrap();
                    pins[page] -= 1;
                } else {
                    assert!(mm.unpin_page(page, false).is_err());
                }
            }
            3 if !written.is_empty() => {
                let page = numbers.next(written.len());
                let free = mm.pages_free();
                match mm.flush_page(page) {
                    Ok(write_back) => {
                        if let Some(wb) = &write_back {
                            assert_eq!(wb.data[0], written[page]);
                            store.write(wb);
                        }
                        let freed = if pins[page] == 0 { 1 } else { 0 };
                        assert_eq!(mm.pages_free(), free + freed);
                    }
                    Err(e) => {
                        assert_eq!(e, BufferError::UnknownPage);
                        assert_eq!(pins[page], 0);
                        assert_eq!(mm.pages_free(), free);
                    }
                }
            }
            _ => {}
        }
    }
}

#[test]
fn pages_keep_what_was_written_with_the_clock() {
    pages_keep_what_was_written::<ClockReplacer>(1);
    pages_keep_what_was_written::<ClockReplacer>(2);
}

#[test]
fn pages_keep_what_was_written_with_lru() {
    pages_keep_what_was_written::<LRUReplacer>(1);
    pages_keep_what_was_written::<LRUReplacer>(2);
}
