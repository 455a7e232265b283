use page_cache::buffer::{Buffer, BufferId, BufferPool, BufferPoolManager, Frame};
use page_cache::disk::{DiskManager, Error, PageId, PAGE_SIZE};

fn frame(usage_count: u64, pin_count: u64) -> Frame {
    Frame {
        usage_count,
        pin_count,
        buffer: Buffer {
            page_id: PageId(0),
            page: vec![0u8; PAGE_SIZE],
            is_dirty: false,
        },
    }
}

fn manager(capacity: usize) -> BufferPoolManager {
    BufferPoolManager::new(DiskManager::new(Vec::new()), BufferPool::new(capacity))
}

fn pattern(seed: u8) -> Vec<u8> {
    (0..PAGE_SIZE).map(|i| (i as u8).wrapping_mul(31).wrapping_add(seed)).collect()
}

#[test]
fn disk_write_then_read_round_trip() {
    let mut d = DiskManager::new(Vec::new());
    let p = d.allocate_page();
    assert_eq!(p, PageId(0));
    let data = pattern(5);
    d.write_page_data(p, &data).unwrap();
    let mut out = vec![0u8; PAGE_SIZE];
    d.read_page_data(p, &mut out).unwrap();
    assert_eq!(out, data);
}

#[test]
fn disk_read_unwritten_page_fails() {
    let mut d = DiskManager::new(Vec::new());
    let mut out = vec![0u8; PAGE_SIZE];
    assert_eq!(d.read_page_data(PageId(3), &mut out), Err(Error::Io));
}

#[test]
fn disk_next_id_counts_whole_pages() {
    let mut d = DiskManager::new(vec![0u8; 2 * PAGE_SIZE]);
    assert_eq!(d.allocate_page(), PageId(2));
}

#[test]
fn disk_allocation_is_monotonic_from_fresh_store() {
    let mut d = DiskManager::new(Vec::new());
    assert_eq!(d.allocate_page(), PageId(0));
    assert_eq!(d.allocate_page(), PageId(1));
    assert_eq!(d.allocate_page(), PageId(2));
}

#[test]
fn disk_write_zero_fills_the_gap() {
    let mut d = DiskManager::new(Vec::new());
    let data = pattern(9);
    d.write_page_data(PageId(1), &data).unwrap();
    let mut out = vec![7u8; PAGE_SIZE];
    d.read_page_data(PageId(0), &mut out).unwrap();
    assert_eq!(out, vec![0u8; PAGE_SIZE]);
    d.read_page_data(PageId(1), &mut out).unwrap();
    assert_eq!(out, data);
}

#[test]
fn disk_overwrite_keeps_neighbour_pages() {
    let mut d = DiskManager::new(Vec::new());
    let first = pattern(1);
    let second = pattern(2);
    let third = pattern(3);
    d.write_page_data(PageId(0), &first).unwrap();
    d.write_page_data(PageId(1), &second).unwrap();
    d.write_page_data(PageId(0), &third).unwrap();
    let mut out = vec![0u8; PAGE_SIZE];
    d.read_page_data(PageId(0), &mut out).unwrap();
    assert_eq!(out, third);
    d.read_page_data(PageId(1), &mut out).unwrap();
    assert_eq!(out, second);
}

#[test]
fn evict_second_chance_order() {
    // Capacity 3, usage counts [2, 0, 1], cursor at 0, nothing pinned:
    // the sweep lowers frame 0 to 1, moves on, and takes frame 1.
    let mut pool = BufferPool {
        buffers: vec![frame(2, 0), frame(0, 0), frame(1, 0)],
        next_victim_id: BufferId(0),
    };
    let victim = pool.evict();
    assert_eq!(victim, Some(BufferId(1)));
    assert_eq!(pool.buffers[0].usage_count, 1);
    assert_eq!(pool.buffers[1].usage_count, 0);
    assert_eq!(pool.buffers[2].usage_count, 1);
    assert_eq!(pool.next_victim_id, BufferId(1));
}

#[test]
fn evict_cursor_is_sticky_across_calls() {
    let mut pool = BufferPool {
        buffers: vec![frame(0, 0), frame(0, 0), frame(0, 0)],
        next_victim_id: BufferId(2),
    };
    assert_eq!(pool.evict(), Some(BufferId(2)));
    assert_eq!(pool.next_victim_id, BufferId(2));
}

#[test]
fn evict_wholly_pinned_pool_gives_up() {
    let mut pool = BufferPool {
        buffers: vec![frame(1, 1), frame(3, 2)],
        next_victim_id: BufferId(0),
    };
    assert_eq!(pool.evict(), None);
    assert_eq!(pool.buffers[0].usage_count, 1);
    assert_eq!(pool.buffers[1].usage_count, 3);
}

#[test]
fn evict_skips_pinned_frame_with_positive_usage() {
    // Frame 0 is pinned; the sweep must pass it and wear frame 1 down.
    let mut pool = BufferPool {
        buffers: vec![frame(1, 1), frame(2, 0)],
        next_victim_id: BufferId(0),
    };
    assert_eq!(pool.evict(), Some(BufferId(1)));
    assert_eq!(pool.buffers[0].usage_count, 1);
    assert_eq!(pool.buffers[1].usage_count, 0);
}

#[test]
fn pool_new_builds_empty_unpinned_frames() {
    let pool = BufferPool::new(4);
    assert_eq!(pool.size(), 4);
    assert_eq!(pool.next_victim_id, BufferId(0));
    for f in pool.buffers.iter() {
        assert_eq!(f.usage_count, 0);
        assert_eq!(f.pin_count, 0);
        assert!(!f.buffer.is_dirty);
        assert_eq!(f.buffer.page, vec![0u8; PAGE_SIZE]);
    }
}

#[test]
fn increment_id_wraps_around() {
    let pool = BufferPool::new(3);
    assert_eq!(pool.increment_id(BufferId(0)), BufferId(1));
    assert_eq!(pool.increment_id(BufferId(2)), BufferId(0));
}

#[test]
fn page_id_exposes_its_raw_value() {
    assert_eq!(PageId(17).to_u64(), 17);
}

#[test]
fn create_page_seeds_zeroed_dirty_pinned_buffer() {
    let mut m = manager(2);
    let (pid, bid) = m.create_page().unwrap();
    assert_eq!(pid, PageId(0));
    assert_eq!(m.page_data(bid), &vec![0u8; PAGE_SIZE]);
    assert!(m.pool.buffers[bid.0].buffer.is_dirty);
    assert_eq!(m.pool.buffers[bid.0].pin_count, 1);
    assert_eq!(m.pool.buffers[bid.0].usage_count, 1);
    assert_eq!(m.page_table.get(&pid.0), Some(&bid.0));
}

#[test]
fn fetch_never_written_page_fails_with_io() {
    let mut m = manager(1);
    assert_eq!(m.fetch_page(PageId(0)), Err(Error::Io));
}

#[test]
fn fetch_hit_returns_same_frame_and_pins_again() {
    let mut m = manager(2);
    let (pid, bid) = m.create_page().unwrap();
    let again = m.fetch_page(pid).unwrap();
    assert_eq!(again, bid);
    assert_eq!(m.pool.buffers[bid.0].pin_count, 2);
    assert_eq!(m.pool.buffers[bid.0].usage_count, 2);
    m.unpin_page(bid);
    m.unpin_page(bid);
    assert_eq!(m.pool.buffers[bid.0].pin_count, 0);
}

#[test]
fn round_trip_through_eviction_and_reload() {
    // Writing bytes to a page and fetching it again through a fresh
    // fetch (forcing eviction, write-back and reload) returns exactly
    // those bytes.
    let mut m = manager(1);
    let (p0, b0) = m.create_page().unwrap();
    let data = pattern(42);
    m.update_page(b0, &data);
    m.unpin_page(b0);
    let (p1, b1) = m.create_page().unwrap();
    assert_ne!(p0, p1);
    m.unpin_page(b1);
    let b = m.fetch_page(p0).unwrap();
    assert_eq!(m.page_data(b), &data);
    m.unpin_page(b);
}

#[test]
fn dirty_victim_is_written_back_before_reuse() {
    let mut m = manager(1);
    let (p0, b0) = m.create_page().unwrap();
    let data = pattern(11);
    m.update_page(b0, &data);
    m.unpin_page(b0);
    // The store has not yet seen page 0.
    assert!(m.disk.file_bytes().is_empty());
    let (_p1, b1) = m.create_page().unwrap();
    // Evicting the dirty buffer wrote its bytes at page 0's offset.
    assert_eq!(&m.disk.file_bytes()[..PAGE_SIZE], data.as_slice());
    assert_eq!(m.page_table.get(&p0.0), None);
    m.unpin_page(b1);
}

#[test]
fn clean_victim_is_not_written_back() {
    let mut m = manager(1);
    let (_p0, b0) = m.create_page().unwrap();
    m.unpin_page(b0);
    let (_p1, b1) = m.create_page().unwrap();
    m.unpin_page(b1);
    // Page 0 was written back on eviction; reloading it leaves a clean
    // copy in the frame, so evicting it again must not touch the file.
    let b = m.fetch_page(PageId(0)).unwrap();
    m.unpin_page(b);
    assert!(!m.pool.buffers[0].buffer.is_dirty);
    let before = m.disk.file_bytes().clone();
    let b2 = m.fetch_page(PageId(1)).unwrap();
    m.unpin_page(b2);
    assert_eq!(m.disk.file_bytes(), &before);
}

#[test]
fn capacity_exhaustion_fails_with_no_free_buffer() {
    // Pool capacity 3, three distinct pages all held pinned: a fourth
    // distinct fetch fails with NoFreeBuffer.
    let mut m = manager(3);
    let (_p0, b0) = m.create_page().unwrap();
    let (_p1, _b1) = m.create_page().unwrap();
    let (_p2, _b2) = m.create_page().unwrap();
    assert_eq!(m.fetch_page(PageId(9)), Err(Error::NoFreeBuffer));
    assert_eq!(m.create_page(), Err(Error::NoFreeBuffer));
    // Releasing one handle frees a frame again.
    m.unpin_page(b0);
    assert!(m.create_page().is_ok());
}

#[test]
fn at_most_one_frame_caches_a_page() {
    let mut m = manager(3);
    let (p0, b0) = m.create_page().unwrap();
    m.unpin_page(b0);
    let first = m.fetch_page(p0).unwrap();
    let second = m.fetch_page(p0).unwrap();
    assert_eq!(first, second);
    let occupied = m
        .pool
        .buffers
        .iter()
        .enumerate()
        .filter(|(i, f)| {
            f.buffer.page_id == p0 && m.page_table.get(&p0.0) == Some(i)
        })
        .count();
    assert_eq!(occupied, 1);
    m.unpin_page(first);
    m.unpin_page(second);
}

#[test]
fn allocate_page_alone_does_not_populate_a_frame() {
    let mut m = manager(2);
    let pid = m.allocate_page();
    assert_eq!(pid, PageId(0));
    assert_eq!(m.page_table.get(&pid.0), None);
    // The page was never written, so fetching it reports an I/O error.
    assert_eq!(m.fetch_page(pid), Err(Error::Io));
}

#[test]
fn update_page_sets_the_dirty_flag() {
    let mut m = manager(1);
    let (p0, b0) = m.create_page().unwrap();
    m.unpin_page(b0);
    let (_p1, b1) = m.create_page().unwrap();
    m.unpin_page(b1);
    // Reloading page 0 leaves a clean copy; mutating it through the
    // handle must set the dirty flag again.
    let b = m.fetch_page(p0).unwrap();
    assert!(!m.pool.buffers[b.0].buffer.is_dirty);
    let data = pattern(77);
    m.update_page(b, &data);
    assert!(m.pool.buffers[b.0].buffer.is_dirty);
    assert_eq!(m.page_data(b), &data);
    m.unpin_page(b);
}
