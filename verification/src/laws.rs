//! What holds of the allocator across calls.

use vstd::prelude::*;
use crate::tag::pages_for;
use crate::layout::{Block, index_of, lemma_index_of, lemma_ordered, lemma_payload_not_tag, replace, span_pages};
use crate::allocator::BackupAllocator;
use crate::policy::{choice, handed, lemma_carve_needs, lemma_choice_serves, round_up, served, split};

verus! {

/// Two different blocks of a laid-out arena do not overlap, and each lies
/// inside the arena.
pub proof fn lemma_no_overlap(a: &BackupAllocator, i: int, j: int)
    requires
        a.laid_out(),
        0 <= i < j < a.blocks().len(),
    ensures
        a.blocks()[i].end() <= a.blocks()[j].tag,
        0 <= a.blocks()[i].tag,
        a.blocks()[j].end() <= a.bytes().len(),
{
    let bl = a.blocks();
    lemma_ordered(bl, i, j);
    lemma_ordered(bl, j, bl.len() - 1);
}

/// The region that `allocate` hands out lies inside the arena, and
/// `contains` holds of its start; from one page on it starts on a
/// page boundary and is as long as the request rounded up to whole pages.
/// The region may be given back with the size it was asked for.
pub proof fn lemma_allocate_places(
    before: &BackupAllocator,
    after: &BackupAllocator,
    size: int,
    p: usize,
)
    requires
        before.wf(),
        0 <= size,
        after.allocated_from(before, size, Some(p)),
    ensures
        p < after.bytes().len(),
        p + size <= after.bytes().len(),
        exists|n: int|
            size <= n && after.holds(p as int, n) && (round_up(size) >= 4096 ==> n == served(size)),
        round_up(size) >= 4096 ==> p % 4096 == 0,
        after.owns(p as int, size),
{
    let req = round_up(size);
    let bl = before.blocks();
    let i = choose|i: int|
        {
            &&& #[trigger] choice(bl, req, i)
            &&& p == handed(bl[i], req).start()
            &&& after.blocks() == replace(bl, i, i + 1, split(bl[i], req))
            &&& after.blocks().contains(handed(bl[i], req))
        };
    lemma_choice_serves(bl, req, i);
    before.lemma_served(i, req);
    let h = handed(bl[i], req);
    let s = after.blocks();
    let k = choose|k: int| 0 <= k < s.len() && s[k] == h;
    lemma_index_of(s, k);
    assert(after.holds(p as int, h.size as int));
}

/// `allocate` leaves every region that was handed out before where it was,
/// with its bytes as they were.
pub proof fn lemma_allocate_keeps(
    before: &BackupAllocator,
    after: &BackupAllocator,
    size: int,
    r: Option<usize>,
    x: Block,
    q: int,
)
    requires
        before.wf(),
        0 <= size,
        after.allocated_from(before, size, r),
        before.blocks().contains(x),
        x.allocated,
        x.start() <= q < x.end(),
    ensures
        after.blocks().contains(x),
        after.bytes()[q] == before.bytes()[q],
{
    let req = round_up(size);
    let bl = before.blocks();
    let j = choose|j: int| 0 <= j < bl.len() && bl[j] == x;
    lemma_ordered(bl, j, bl.len() - 1);
    if r is Some {
        let i = choose|i: int|
            {
                &&& #[trigger] choice(bl, req, i)
                &&& after.blocks() == replace(bl, i, i + 1, split(bl[i], req))
                &&& forall|q: int|
                    0 <= q < after.bytes().len() && !(bl[i].tag <= q < bl[i].end())
                        ==> after.bytes()[q] == before.bytes()[q]
            };
        lemma_choice_serves(bl, req, i);
        let mid = split(bl[i], req);
        let s = replace(bl, i, i + 1, mid);
        if j < i {
            lemma_ordered(bl, j, i);
            assert(s[j] == x);
        } else {
            lemma_ordered(bl, i, j);
            assert(s[j - 1 + mid.len()] == x);
        }
    }
}

/// `deallocate` leaves every other region that was handed out where it was,
/// with its bytes as they were.
pub proof fn lemma_deallocate_keeps(
    before: &BackupAllocator,
    after: &BackupAllocator,
    ptr: int,
    size: int,
    x: Block,
    q: int,
)
    requires
        before.wf(),
        0 <= size,
        before.owns(ptr, size),
        after.released_from(before, ptr, size),
        before.blocks().contains(x),
        x.allocated,
        x.start() != ptr,
        x.start() <= q < x.end(),
    ensures
        after.blocks().contains(x),
        after.bytes()[q] == before.bytes()[q],
{
    let bl = before.blocks();
    let j = choose|j: int| 0 <= j < bl.len() && bl[j] == x;
    let k = index_of(bl, ptr);
    lemma_ordered(bl, j, bl.len() - 1);
    lemma_payload_not_tag(bl, j, q);
    if j < k {
        lemma_ordered(bl, j, k);
    } else if k < j {
        lemma_ordered(bl, k, j);
    }
}

/// Once every region is given back, the arena is one free block again: it
/// is not in use, and its largest free span is the arena less the page that
/// the first tag takes from.
pub proof fn lemma_all_free(a: &BackupAllocator)
    requires
        a.wf(),
        forall|k: int| 0 <= k < a.blocks().len() ==> !(#[trigger] a.blocks()[k]).allocated,
    ensures
        a.blocks().len() == 1,
        !a.spec_is_used(),
        a.largest() == a.total_pages() - 1,
{
    let bl = a.blocks();
    if bl.len() >= 2 {
        assert(bl[0].allocated || bl[1].allocated);
    }
    assert(!bl[0].allocated);
    assert(span_pages(bl[0].size as int) == a.total_pages() - 1);
}

/// An arena in which some region is handed out is in use.
pub proof fn lemma_used(a: &BackupAllocator, k: int)
    requires
        a.laid_out(),
        0 <= k < a.blocks().len(),
        a.blocks()[k].allocated,
    ensures
        a.spec_is_used(),
{
    let bl = a.blocks();
    if k > 0 {
        lemma_ordered(bl, 0, k);
        lemma_ordered(bl, k, bl.len() - 1);
    }
}

/// A request for more than the arena holds is refused, and nothing changes.
pub proof fn lemma_too_large(
    before: &BackupAllocator,
    after: &BackupAllocator,
    size: int,
    r: Option<usize>,
)
    requires
        before.wf(),
        0 <= size,
        after.allocated_from(before, size, r),
        round_up(size) + 8 > before.total_pages() * 4096,
    ensures
        r is None,
        after.blocks() == before.blocks(),
        after.bytes() == before.bytes(),
        after.largest() == before.largest(),
{
    let req = round_up(size);
    let bl = before.blocks();
    if r is Some {
        let i = choose|i: int| #[trigger] choice(bl, req, i);
        lemma_choice_serves(bl, req, i);
        lemma_ordered(bl, i, bl.len() - 1);
        if req >= 4096 {
            lemma_carve_needs(bl[i], pages_for(req));
        }
    }
}

} // verus!
