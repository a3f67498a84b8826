use backup_alloc::tag::{pg_size, Tag, PAGE_SIZE, TAG_SIZE};

#[test]
fn new_tag_is_free_with_given_size() {
    let t = Tag::new(4088);
    assert!(t.is_free());
    assert!(!t.is_allocated());
    assert_eq!(t.size(), 4088);
    assert_eq!(t.0, 4088);
}

#[test]
fn set_allocated_sets_low_bit_and_keeps_size() {
    let mut t = Tag::new(64);
    t.set_allocated();
    assert!(t.is_allocated());
    assert!(!t.is_free());
    assert_eq!(t.size(), 64);
    assert_eq!(t.0, 65);
    t.set_allocated();
    assert_eq!(t.0, 65);
}

#[test]
fn set_free_rewrites_word_as_size() {
    let mut t = Tag(129);
    assert!(t.is_allocated());
    assert_eq!(t.size(), 128);
    t.set_free();
    assert!(t.is_free());
    assert_eq!(t.0, 128);
}

#[test]
fn set_size_keeps_flag() {
    let mut t = Tag::new(16);
    t.set_size(40);
    assert_eq!(t.0, 40);
    t.set_allocated();
    t.set_size(8);
    assert_eq!(t.0, 9);
    assert_eq!(t.size(), 8);
    assert!(t.is_allocated());
}

#[test]
fn start_and_next_follow_the_size() {
    let t = Tag::new(24);
    assert_eq!(t.get_start(48), 56);
    assert_eq!(t.next(48), 80);
    let z = Tag::new(0);
    assert_eq!(z.next(0), TAG_SIZE);
}

#[test]
fn pg_size_rounds_up() {
    assert_eq!(pg_size(0), 0);
    assert_eq!(pg_size(1), 1);
    assert_eq!(pg_size(PAGE_SIZE), 1);
    assert_eq!(pg_size(PAGE_SIZE + 1), 2);
    assert_eq!(pg_size(128 * PAGE_SIZE - 8), 128);
}

#[test]
fn carve_sits_at_the_end_of_the_block() {
    let whole = Tag::new(128 * PAGE_SIZE - 8);
    assert_eq!(whole.get_page_aligned_part(0, 1), Some((520184, 524288)));
    assert_eq!(whole.get_page_aligned_part(0, 127), Some((4088, 524288)));
    assert_eq!(whole.get_page_aligned_part(0, 128), None);
}

#[test]
fn carve_leaves_room_above_an_unaligned_end() {
    let t = Tag::new(520176);
    assert_eq!(t.get_page_aligned_part(0, 1), Some((511992, 516096)));
}

#[test]
fn carve_may_span_the_whole_block() {
    let t = Tag::new(4096);
    assert_eq!(t.get_page_aligned_part(4088, 1), Some((4088, 8192)));
    assert_eq!(t.get_page_aligned_part(0, 1), None);
}

#[test]
fn carve_needs_room_for_alignment() {
    let t = Tag::new(8176);
    assert_eq!(t.get_page_aligned_part(0, 1), None);
    let u = Tag::new(8184);
    assert_eq!(u.get_page_aligned_part(0, 1), Some((4088, 8192)));
    assert_eq!(u.get_page_aligned_part(0, usize::MAX), None);
}
