use backup_alloc::allocator::{
    BackupAllocator, ALOC_FILL, DEFAULT_BACKUP_PAGES, DEFAULT_THRESHOLD, FREE_FILL,
};
use backup_alloc::tag::PAGE_SIZE;

fn line(used: bool, pages: usize, threshold: usize, largest: usize, total: usize) -> String {
    format!(
        "BackupAllocator {{ used: {}, npages: {}, threshold: {} (pages), largest_space: {} (pages), total_space: {} }}",
        used, pages, threshold, largest, total
    )
}

#[test]
fn new_arena_is_one_free_block() {
    let a = BackupAllocator::new(128, 16);
    assert!(!a.is_used());
    assert!(!a.is_memory_low());
    assert_eq!(a.byte_len(), 128 * PAGE_SIZE);
    assert_eq!(a.calc_total_space(), 524280);
    assert_eq!(a.describe(), line(false, 128, 16, 127, 524280));
    let t = a.read_tag(0).unwrap();
    assert!(t.is_free());
    assert_eq!(t.size(), 524280);
    assert_eq!(a.load(8), 0);
    assert_eq!(a.load(524287), 0);
}

#[test]
fn read_tag_stops_at_the_arena_end() {
    let a = BackupAllocator::new(2, 0);
    assert!(a.read_tag(0).is_some());
    assert!(a.read_tag(8184).is_some());
    assert!(a.read_tag(8192).is_none());
    assert!(a.read_tag(16384).is_none());
}

#[test]
fn small_requests_split_the_last_fitting_block() {
    let mut a = BackupAllocator::new(4, 1);
    assert_eq!(a.allocate(16, 8), Some(8));
    assert_eq!(a.allocate(16, 8), Some(32));
    assert_eq!(a.allocate(24, 8), Some(56));
    assert_eq!(a.describe(), line(true, 4, 1, 3, 16296));
    let t = a.read_tag(0).unwrap();
    assert!(t.is_allocated());
    assert_eq!(t.size(), 16);
    let rest = a.read_tag(80).unwrap();
    assert!(rest.is_free());
    assert_eq!(rest.size(), 16296);
}

#[test]
fn request_is_rounded_to_tag_width() {
    let mut a = BackupAllocator::new(1, 0);
    assert_eq!(a.allocate(10, 1), Some(8));
    assert_eq!(a.read_tag(0).unwrap().size(), 16);
    assert_eq!(a.read_tag(24).unwrap().size(), 4064);
}

#[test]
fn exact_fit_wins_over_later_blocks() {
    let mut a = BackupAllocator::new(4, 1);
    assert_eq!(a.allocate(16, 8), Some(8));
    assert_eq!(a.allocate(16, 8), Some(32));
    assert_eq!(a.allocate(24, 8), Some(56));
    a.deallocate(32, 16, 8);
    assert_eq!(a.describe(), line(true, 4, 1, 3, 16312));
    assert_eq!(a.allocate(10, 8), Some(32));
    let t = a.read_tag(24).unwrap();
    assert!(t.is_allocated());
    assert_eq!(t.size(), 16);
}

#[test]
fn exact_fit_leaves_no_empty_block() {
    let mut a = BackupAllocator::new(1, 0);
    assert_eq!(a.allocate(4088, 8), Some(8));
    assert_eq!(a.read_tag(0).unwrap().size(), 4088);
    assert_eq!(a.allocate(1, 1), None);
    assert_eq!(a.describe(), line(true, 1, 0, 0, 0));
}

#[test]
fn one_tag_short_of_exact_takes_the_whole_block() {
    let mut a = BackupAllocator::new(1, 0);
    assert_eq!(a.allocate(4080, 8), Some(8));
    let t = a.read_tag(0).unwrap();
    assert!(t.is_allocated());
    assert_eq!(t.size(), 4088);
    assert_eq!(a.allocate(1, 1), None);
    a.deallocate(8, 4080, 8);
    assert!(!a.is_used());
    assert_eq!(a.describe(), line(false, 1, 0, 0, 4088));
}

#[test]
fn page_requests_are_page_aligned_and_page_sized() {
    let mut a = BackupAllocator::new(8, 1);
    assert_eq!(a.allocate(4096, 4096), Some(28672));
    assert_eq!(a.allocate(4097, 4096), Some(16384));
    assert_eq!(a.read_tag(28664).unwrap().size(), 4096);
    assert!(a.read_tag(28664).unwrap().is_allocated());
    assert_eq!(a.read_tag(16376).unwrap().size(), 8192);
    assert!(a.read_tag(16376).unwrap().is_allocated());
    let low = a.read_tag(0).unwrap();
    assert!(low.is_free());
    assert_eq!(low.size(), 16368);
    let high = a.read_tag(24576).unwrap();
    assert!(high.is_free());
    assert_eq!(high.size(), 4080);
    assert_eq!(a.describe(), line(true, 8, 1, 3, 20448));
}

#[test]
fn small_and_page_requests_share_the_arena() {
    let mut a = BackupAllocator::new(8, 1);
    assert_eq!(a.allocate(4096, 4096), Some(28672));
    assert_eq!(a.allocate(4097, 4096), Some(16384));
    assert_eq!(a.allocate(100, 8), Some(24584));
    assert_eq!(a.allocate(4080, 8), Some(8));
    assert_eq!(a.allocate(5 * 4096, 4096), None);
    assert_eq!(a.describe(), line(true, 8, 1, 2, 16248));
}

#[test]
fn carve_that_starts_the_block_reuses_its_tag() {
    let mut a = BackupAllocator::new(4, 1);
    assert_eq!(a.allocate(3 * 4096, 4096), Some(4096));
    assert_eq!(a.read_tag(0).unwrap().size(), 4080);
    assert!(a.read_tag(0).unwrap().is_free());
    assert_eq!(a.read_tag(4088).unwrap().size(), 12288);
    a.deallocate(4096, 3 * 4096, 4096);
    assert!(!a.is_used());
    assert_eq!(a.describe(), line(false, 4, 1, 3, 16376));
}

#[test]
fn allocated_region_is_filled_and_freed_region_is_poisoned() {
    let mut a = BackupAllocator::new(2, 0);
    let p = a.allocate(13, 1).unwrap();
    for i in 0..13 {
        assert_eq!(a.load(p + i), ALOC_FILL);
    }
    assert_eq!(a.load(p + 13), 0);
    a.deallocate(p, 13, 1);
    for i in 0..13 {
        assert_eq!(a.load(p + i), FREE_FILL);
    }
    assert_eq!(a.load(p + 13), 0);
    assert_eq!(ALOC_FILL, 0x7F);
    assert_eq!(FREE_FILL, 0xF7);
}

#[test]
fn bytes_of_live_regions_survive_other_calls() {
    let mut a = BackupAllocator::new(8, 1);
    let p = a.allocate(32, 8).unwrap();
    for i in 0..32 {
        assert!(a.store(p + i, i as u8));
    }
    let q = a.allocate(4096, 4096).unwrap();
    let r = a.allocate(64, 8).unwrap();
    assert!(a.store(q, 0xAA));
    a.deallocate(r, 64, 8);
    for i in 0..32 {
        assert_eq!(a.load(p + i), i as u8);
    }
    assert_eq!(a.load(q), 0xAA);
    a.deallocate(q, 4096, 4096);
    for i in 0..32 {
        assert_eq!(a.load(p + i), i as u8);
    }
}

#[test]
fn store_refuses_tags_and_free_bytes() {
    let mut a = BackupAllocator::new(1, 0);
    let p = a.allocate(16, 8).unwrap();
    assert_eq!(p, 8);
    assert!(!a.store(0, 1));
    assert!(!a.store(7, 1));
    assert!(a.store(8, 1));
    assert!(a.store(23, 2));
    assert!(!a.store(24, 3));
    assert!(!a.store(32, 3));
    assert!(!a.store(4096, 3));
    assert_eq!(a.load(8), 1);
    assert_eq!(a.load(23), 2);
    assert_eq!(a.load(32), 0);
    assert_eq!(a.read_tag(24).unwrap().0, 4064);
}

#[test]
fn live_regions_do_not_overlap() {
    let mut a = BackupAllocator::new(8, 1);
    let sizes: [usize; 6] = [16, 4096, 100, 8192, 8, 24];
    let mut got: Vec<(usize, usize)> = Vec::new();
    for s in sizes.iter() {
        let p = a.allocate(*s, 8).unwrap();
        assert!(p + *s <= a.byte_len());
        for (q, n) in got.iter() {
            assert!(p + *s <= *q || *q + *n <= p);
        }
        got.push((p, *s));
    }
}

#[test]
fn freeing_everything_merges_the_arena_again() {
    let mut a = BackupAllocator::new(8, 1);
    let first = a.allocate(16, 8).unwrap();
    let second = a.allocate(4096, 4096).unwrap();
    let third = a.allocate(200, 8).unwrap();
    let fourth = a.allocate(8192, 4096).unwrap();
    assert!(a.is_used());
    a.deallocate(third, 200, 8);
    a.deallocate(first, 16, 8);
    a.deallocate(fourth, 8192, 4096);
    assert!(a.is_used());
    a.deallocate(second, 4096, 4096);
    assert!(!a.is_used());
    assert_eq!(a.describe(), line(false, 8, 1, 7, 8 * 4096 - 8));
    assert_eq!(a.read_tag(0).unwrap().size(), 8 * 4096 - 8);
}

#[test]
fn three_free_neighbours_become_one() {
    let mut a = BackupAllocator::new(4, 1);
    assert_eq!(a.allocate(16, 8), Some(8));
    assert_eq!(a.allocate(16, 8), Some(32));
    assert_eq!(a.allocate(24, 8), Some(56));
    a.deallocate(32, 16, 8);
    a.deallocate(8, 16, 8);
    assert_eq!(a.read_tag(0).unwrap().size(), 40);
    assert_eq!(a.describe(), line(true, 4, 1, 3, 16336));
    a.deallocate(56, 24, 8);
    assert_eq!(a.describe(), line(false, 4, 1, 3, 16376));
}

#[test]
fn low_memory_trips_when_the_span_falls_past_the_threshold() {
    let mut a = BackupAllocator::new(128, 16);
    let starts: [usize; 9] =
        [520192, 512000, 503808, 495616, 487424, 479232, 471040, 462848, 454656];
    let spans: [usize; 9] = [126, 124, 122, 120, 118, 116, 114, 112, 110];
    for k in 0..9 {
        assert!(!a.is_memory_low());
        assert_eq!(a.allocate(4096, 4096), Some(starts[k]));
        assert_eq!(a.do_recalculate(), spans[k]);
        assert_eq!(a.is_memory_low(), 128 - spans[k] > 16);
    }
    assert!(a.is_memory_low());
}

#[test]
fn unused_arena_is_never_low() {
    let a = BackupAllocator::new(4, 0);
    assert!(!a.is_memory_low());
}

#[test]
fn too_large_a_request_changes_nothing() {
    let mut a = BackupAllocator::new(4, 1);
    assert_eq!(a.allocate(5 * 4096, 4096), None);
    assert_eq!(a.allocate(4 * 4096, 4096), None);
    assert_eq!(a.describe(), line(false, 4, 1, 3, 16376));
    assert_eq!(a.read_tag(0).unwrap().0, 16376);
    assert_eq!(a.allocate(3 * 4096, 4096), Some(4096));
    assert_eq!(a.allocate(4096, 4096), None);
    assert_eq!(a.describe(), line(true, 4, 1, 0, 4080));
}

#[test]
fn owns_region_tells_what_may_be_given_back() {
    let mut a = BackupAllocator::new(4, 1);
    let p = a.allocate(20, 8).unwrap();
    let q = a.allocate(4096, 4096).unwrap();
    assert!(a.owns_region(p, 20));
    assert!(a.owns_region(p, 24));
    assert!(a.owns_region(p, 17));
    assert!(a.owns_region(p, 16));
    assert!(!a.owns_region(p, 8));
    assert!(!a.owns_region(p, 32));
    assert!(!a.owns_region(p + 8, 20));
    assert!(a.owns_region(q, 4096));
    assert!(a.owns_region(q, 4090));
    assert!(!a.owns_region(q, 4097));
    assert!(!a.owns_region(q, usize::MAX));
    assert!(!a.owns_region(0, 8));
    a.deallocate(p, 20, 8);
    assert!(!a.owns_region(p, 20));
}

#[test]
fn contains_is_the_arena_range() {
    let mut a = BackupAllocator::new(2, 0);
    let p = a.allocate(40, 8).unwrap();
    let q = a.allocate(4096, 4096).unwrap();
    assert!(a.contains(p));
    assert!(a.contains(q));
    assert!(a.contains(0));
    assert!(a.contains(8191));
    assert!(!a.contains(8192));
    assert!(!a.contains(usize::MAX));
}

#[test]
fn finish_gives_a_placeholder_the_default_arena() {
    let mut a = BackupAllocator::placeholder();
    assert!(!a.contains(0));
    a.finish();
    assert_eq!(a.byte_len(), DEFAULT_BACKUP_PAGES * PAGE_SIZE);
    assert_eq!(a.describe(), line(false, 128, 16, 127, 524280));
    assert_eq!(DEFAULT_THRESHOLD, 16);
    let p = a.allocate(64, 8).unwrap();
    a.finish();
    assert!(a.is_used());
    assert_eq!(a.read_tag(p - 8).unwrap().size(), 64);
}

#[test]
fn setup_makes_the_arena_one_free_block() {
    let mut a = BackupAllocator::new(2, 0);
    let p = a.allocate(64, 8).unwrap();
    assert_eq!(a.load(p), ALOC_FILL);
    a.setup();
    assert!(!a.is_used());
    assert_eq!(a.load(p), 0);
    assert_eq!(a.calc_total_space(), 8184);
}

#[test]
fn inner_steps_mark_and_merge() {
    let mut a = BackupAllocator::new(2, 0);
    assert_eq!(a.allocate_small(16), Some(8));
    assert_eq!(a.allocate_pages(1), Some(4096));
    assert_eq!(a.calc_total_space(), 4056);
    a.deallocate_small(8, 16);
    assert_eq!(a.calc_total_space(), 4072);
    assert_eq!(a.read_tag(0).unwrap().size(), 16);
    assert_eq!(a.do_recalculate(), 0);
    assert_eq!(a.read_tag(0).unwrap().size(), 4080);
    assert_eq!(a.calc_total_space(), 4080);
    a.deallocate_pages(4096, 1);
    a.recalculate();
    assert!(!a.is_used());
    assert_eq!(a.real_allocate(4096, 4096), Some(4096));
    a.real_deallocate(4096, 4096, 4096);
    assert_eq!(a.do_recalculate(), 1);
}

#[test]
fn zero_bytes_take_an_empty_block() {
    let mut a = BackupAllocator::new(1, 0);
    assert_eq!(a.allocate(0, 1), Some(8));
    assert_eq!(a.read_tag(0).unwrap().0, 1);
    assert_eq!(a.read_tag(8).unwrap().0, 4080);
    a.deallocate(8, 0, 1);
    assert!(!a.is_used());
}
