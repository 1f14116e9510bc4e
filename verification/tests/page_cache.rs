use databas::cache::PageCache;
use databas::checksum::PAGE_DATA_END;
use databas::disk::DiskManager;
use databas::error::PageCacheError;
use databas::types::PAGE_SIZE;

fn page_with_pattern(seed: u8) -> Vec<u8> {
    let mut page = vec![0u8; PAGE_SIZE];
    for (index, byte) in page.iter_mut().enumerate() {
        *byte = seed.wrapping_add(index as u8);
    }
    page
}

/// Builds a disk whose data pages 1..=n hold the given patterns.
fn disk_with_pages(pages: &[Vec<u8>]) -> DiskManager {
    let mut disk_manager = DiskManager::open(Vec::new()).unwrap();
    for page in pages {
        let page_id = disk_manager.new_page().unwrap();
        disk_manager.write_page(page_id, page).unwrap();
    }
    disk_manager
}

#[test]
fn constructor_rejects_zero_frame_count() {
    let disk_manager = DiskManager::open(Vec::new()).unwrap();
    let result = PageCache::new(disk_manager, 0);
    assert!(matches!(result, Err(PageCacheError::InvalidFrameCount(0))));
}

#[test]
fn frames_are_preallocated_and_empty() {
    let disk_manager = DiskManager::open(Vec::new()).unwrap();
    let cache = PageCache::new(disk_manager, 3).unwrap();

    assert_eq!(cache.frame_count(), 3);
    for frame_id in 0..3 {
        let frame = cache.frame(frame_id);
        assert_eq!(frame.page_id, None);
        assert_eq!(frame.reference, false);
        assert_eq!(frame.dirty, false);
        assert_eq!(frame.pin_count, 0);
        assert_eq!(frame.data, vec![0u8; PAGE_SIZE]);
    }
}

#[test]
fn fetch_page_loads_page_and_pins() {
    let page = page_with_pattern(7);
    let disk_manager = disk_with_pages(std::slice::from_ref(&page));
    let mut cache = PageCache::new(disk_manager, 1).unwrap();

    let fid = cache.fetch_page(1).unwrap();
    assert_eq!(&cache.page(fid)[..PAGE_DATA_END], &page[..PAGE_DATA_END]);
    assert_eq!(cache.frame(fid).pin_count, 1);
    cache.release(fid);

    assert_eq!(cache.frame(fid).pin_count, 0);
    assert_eq!(cache.frame(fid).reference, true);
}

#[test]
fn pin_guard_drop_decrements_pin_count() {
    let page = page_with_pattern(11);
    let disk_manager = disk_with_pages(std::slice::from_ref(&page));
    let mut cache = PageCache::new(disk_manager, 1).unwrap();

    let fid = cache.fetch_page(1).unwrap();
    cache.release(fid);

    assert_eq!(cache.frame(fid).pin_count, 0);
}

#[test]
fn page_read_does_not_mark_dirty_but_page_mut_does() {
    let page = page_with_pattern(13);
    let disk_manager = disk_with_pages(std::slice::from_ref(&page));
    let mut cache = PageCache::new(disk_manager, 1).unwrap();

    let fid = cache.fetch_page(1).unwrap();
    assert_eq!(cache.page(fid)[0], page[0]);
    cache.release(fid);
    assert!(!cache.frame(0).dirty);

    let fid = cache.fetch_page(1).unwrap();
    let mut modified = cache.page(fid).clone();
    modified[0] = 99;
    cache.write_frame(fid, modified);
    cache.release(fid);

    assert!(cache.frame(0).dirty);
}

#[test]
fn dirty_page_is_written_during_eviction() {
    let pages = [page_with_pattern(1), page_with_pattern(2)];
    let disk_manager = disk_with_pages(&pages);
    let mut cache = PageCache::new(disk_manager, 1).unwrap();

    let fid = cache.fetch_page(1).unwrap();
    let mut modified = cache.page(fid).clone();
    modified[0] = 222;
    cache.write_frame(fid, modified);
    cache.release(fid);

    let fid = cache.fetch_page(2).unwrap();
    cache.release(fid);

    let disk = cache.into_disk();
    let flushed_page1 = disk.read_page(1).unwrap();
    assert_eq!(flushed_page1[0], 222);
}

#[test]
fn clock_gives_second_chance_before_eviction() {
    let pages = [page_with_pattern(10), page_with_pattern(20), page_with_pattern(30)];
    let disk_manager = disk_with_pages(&pages);
    let mut cache = PageCache::new(disk_manager, 2).unwrap();

    let fid = cache.fetch_page(1).unwrap();
    cache.release(fid);
    let fid = cache.fetch_page(2).unwrap();
    cache.release(fid);
    let fid = cache.fetch_page(3).unwrap();
    cache.release(fid);

    assert!(!cache.contains_page(1));
    assert!(cache.contains_page(2));
    assert!(cache.contains_page(3));
}

#[test]
fn eviction_skips_pinned_frames() {
    let pages = [page_with_pattern(1), page_with_pattern(2), page_with_pattern(3)];
    let disk_manager = disk_with_pages(&pages);
    let mut cache = PageCache::new(disk_manager, 2).unwrap();

    let pinned = cache.fetch_page(1).unwrap();
    let fid = cache.fetch_page(2).unwrap();
    cache.release(fid);

    let fid = cache.fetch_page(3).unwrap();
    cache.release(fid);

    assert_eq!(cache.frame(pinned).page_id, Some(1));
    assert!(cache.contains_page(1));
    assert!(!cache.contains_page(2));
    assert!(cache.contains_page(3));
    cache.release(pinned);
}

#[test]
fn fetch_returns_error_when_all_frames_are_pinned() {
    let pages = [page_with_pattern(1), page_with_pattern(2), page_with_pattern(3)];
    let disk_manager = disk_with_pages(&pages);
    let mut cache = PageCache::new(disk_manager, 2).unwrap();

    let a = cache.fetch_page(1).unwrap();
    let b = cache.fetch_page(2).unwrap();

    let result = cache.fetch_page(3);
    assert!(matches!(result, Err(PageCacheError::NoEvictableFrame)));
    cache.release(a);
    cache.release(b);
}

#[test]
fn flush_page_writes_dirty_data_and_clears_dirty_bit() {
    let pages = [page_with_pattern(15)];
    let disk_manager = disk_with_pages(&pages);
    let mut cache = PageCache::new(disk_manager, 1).unwrap();

    let fid = cache.fetch_page(1).unwrap();
    let mut modified = cache.page(fid).clone();
    modified[0] = 177;
    cache.write_frame(fid, modified);
    cache.release(fid);
    assert!(cache.frame(0).dirty);

    cache.flush_page(1).unwrap();

    assert!(!cache.frame(0).dirty);
    let disk = cache.into_disk();
    let flushed_page = disk.read_page(1).unwrap();
    assert_eq!(flushed_page[0], 177);
}

#[test]
fn flush_page_returns_error_if_page_is_pinned() {
    let pages = [page_with_pattern(8)];
    let disk_manager = disk_with_pages(&pages);
    let mut cache = PageCache::new(disk_manager, 1).unwrap();

    let fid = cache.fetch_page(1).unwrap();
    let mut modified = cache.page(fid).clone();
    modified[1] = 3;
    cache.write_frame(fid, modified);

    let result = cache.flush_page(1);
    assert!(matches!(result, Err(PageCacheError::PinnedPage(1))));
    cache.release(fid);
}

#[test]
fn flush_page_is_noop_for_nonresident_page() {
    let pages = [page_with_pattern(1), page_with_pattern(2)];
    let disk_manager = disk_with_pages(&pages);
    let mut cache = PageCache::new(disk_manager, 1).unwrap();

    let fid = cache.fetch_page(1).unwrap();
    cache.release(fid);

    assert!(cache.flush_page(2).is_ok());
}

#[test]
fn flush_all_writes_all_dirty_unpinned_pages() {
    let pages = [page_with_pattern(4), page_with_pattern(5)];
    let disk_manager = disk_with_pages(&pages);
    let mut cache = PageCache::new(disk_manager, 2).unwrap();

    let fid = cache.fetch_page(1).unwrap();
    let mut modified = cache.page(fid).clone();
    modified[0] = 10;
    cache.write_frame(fid, modified);
    cache.release(fid);

    let fid = cache.fetch_page(2).unwrap();
    let mut modified = cache.page(fid).clone();
    modified[0] = 20;
    cache.write_frame(fid, modified);
    cache.release(fid);

    cache.flush_all().unwrap();

    for frame_id in 0..cache.frame_count() {
        assert!(!cache.frame(frame_id).dirty);
    }

    let disk = cache.into_disk();
    assert_eq!(disk.read_page(1).unwrap()[0], 10);
    assert_eq!(disk.read_page(2).unwrap()[0], 20);
}

#[test]
fn flush_all_returns_error_if_dirty_page_is_pinned() {
    let pages = [page_with_pattern(19)];
    let disk_manager = disk_with_pages(&pages);
    let mut cache = PageCache::new(disk_manager, 1).unwrap();

    let fid = cache.fetch_page(1).unwrap();
    let mut modified = cache.page(fid).clone();
    modified[2] = 4;
    cache.write_frame(fid, modified);

    let result = cache.flush_all();
    assert!(matches!(result, Err(PageCacheError::PinnedPage(1))));
    cache.release(fid);
}

#[test]
fn drop_flushes_dirty_unpinned_pages_best_effort() {
    let pages = [page_with_pattern(33)];
    let disk_manager = disk_with_pages(&pages);
    let mut cache = PageCache::new(disk_manager, 1).unwrap();

    let fid = cache.fetch_page(1).unwrap();
    let mut modified = cache.page(fid).clone();
    modified[0] = 144;
    cache.write_frame(fid, modified);
    cache.release(fid);
    assert!(cache.frame(0).dirty);

    cache.flush_best_effort();

    let disk = cache.into_disk();
    assert_eq!(disk.read_page(1).unwrap()[0], 144);
}

#[test]
fn new_page_returns_pinned_zero_initialized_page() {
    let disk_manager = DiskManager::open(Vec::new()).unwrap();
    let mut cache = PageCache::new(disk_manager, 1).unwrap();

    let (page_id, fid) = cache.new_page().unwrap();
    assert_eq!(page_id, 1);
    assert_eq!(cache.frame(fid).pin_count, 1);
    assert_eq!(&cache.page(fid)[..PAGE_DATA_END], &vec![0u8; PAGE_DATA_END][..]);
    cache.release(fid);
}

#[test]
fn new_page_allocates_sequential_ids() {
    let disk_manager = DiskManager::open(Vec::new()).unwrap();
    let mut cache = PageCache::new(disk_manager, 1).unwrap();

    let (first_page_id, fid) = cache.new_page().unwrap();
    assert_eq!(first_page_id, 1);
    cache.release(fid);

    let (second_page_id, fid) = cache.new_page().unwrap();
    assert_eq!(second_page_id, 2);
    cache.release(fid);
}

#[test]
fn new_page_returns_error_when_all_frames_are_pinned() {
    let disk_manager = DiskManager::open(Vec::new()).unwrap();
    let mut cache = PageCache::new(disk_manager, 1).unwrap();

    let fid = cache.fetch_page(0).unwrap();

    let result = cache.new_page();
    assert!(matches!(result, Err(PageCacheError::NoEvictableFrame)));
    cache.release(fid);

    let disk = cache.into_disk();
    assert_eq!(disk.page_count(), 1);
}

#[test]
fn clock_second_chance_scenario_with_header_page() {
    let pages = [page_with_pattern(1), page_with_pattern(2)];
    let disk_manager = disk_with_pages(&pages);
    let mut cache = PageCache::new(disk_manager, 2).unwrap();

    for id in [0u64, 1, 2] {
        let fid = cache.fetch_page(id).unwrap();
        cache.release(fid);
    }

    assert!(!cache.contains_page(0));
    assert!(cache.contains_page(1));
    assert!(cache.contains_page(2));
}
