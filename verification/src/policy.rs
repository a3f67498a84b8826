//! Which block serves a request, and what the block becomes.

use vstd::prelude::*;
use crate::tag::{carve, pages_for};
use crate::layout::{Block, coalesced, is_largest, linked, span_pages};

verus! {

/// `size` rounded up to a multiple of the tag width.
pub open spec fn round_up(size: int) -> int {
    (size + 7) / 8 * 8
}

/// The payload size that a request of `size` bytes is served with: whole
/// pages from one page on, whole tag widths below.
pub open spec fn served(size: int) -> int {
    if round_up(size) >= 4096 {
        pages_for(round_up(size)) * 4096
    } else {
        round_up(size)
    }
}

/// A free block that can hold `req` bytes.
pub open spec fn fits(b: Block, req: int) -> bool {
    !b.allocated && b.size >= req
}

/// A free block that holds `req` bytes with nothing left over, or with so
/// little that a tag for the rest would introduce an empty block.
pub open spec fn exact(b: Block, req: int) -> bool {
    !b.allocated && (b.size == req || b.size == req + 8)
}

/// Block `i` is the one a request of `req` bytes below a page is served from:
/// the first exact fit, or else the last block that is large enough.
pub open spec fn small_choice(bl: Seq<Block>, req: int, i: int) -> bool {
    &&& 0 <= i < bl.len()
    &&& fits(bl[i], req)
    &&& if exact(bl[i], req) {
        forall|j: int| 0 <= j < i ==> !exact(#[trigger] bl[j], req)
    } else {
        &&& forall|j: int| 0 <= j < bl.len() ==> !exact(#[trigger] bl[j], req)
        &&& forall|j: int| i < j < bl.len() ==> !fits(#[trigger] bl[j], req)
    }
}

/// What block `b` becomes when `req` bytes are taken from its front.
pub open spec fn small_split(b: Block, req: int) -> Seq<Block> {
    if exact(b, req) {
        seq![(Block { tag: b.tag, size: b.size, allocated: true })]
    } else {
        seq![
            (Block { tag: b.tag, size: req as usize, allocated: true }),
            (Block {
                tag: (b.tag + 8 + req) as usize,
                size: (b.size - 8 - req) as usize,
                allocated: false,
            }),
        ]
    }
}

/// A free block inside which `pages` pages can be placed on page boundaries.
pub open spec fn can_carve(b: Block, pages: int) -> bool {
    !b.allocated && carve(b.tag as int, b.size as int, pages) is Some
}

/// Offset of the tag that introduces the pages carved out of `b`.
pub open spec fn carve_lo(b: Block, pages: int) -> int {
    let c = carve(b.tag as int, b.size as int, pages)->0;
    c.0
}

/// Offset of the tag that follows the pages carved out of `b`.
pub open spec fn carve_hi(b: Block, pages: int) -> int {
    let c = carve(b.tag as int, b.size as int, pages)->0;
    c.1
}

/// Block `i` is the one a request of `pages` pages is served from: the last
/// block that can hold the pages.
pub open spec fn page_choice(bl: Seq<Block>, pages: int, i: int) -> bool {
    &&& 0 <= i < bl.len()
    &&& can_carve(bl[i], pages)
    &&& forall|j: int| i < j < bl.len() ==> !can_carve(#[trigger] bl[j], pages)
}

/// Where a carve lies relative to the block it is taken from.
pub proof fn lemma_carve(at: int, size: int, pages: int)
    requires
        0 <= at,
        0 <= size,
        0 <= pages,
        at % 8 == 0,
        size % 8 == 0,
        carve(at, size, pages) is Some,
    ensures
        ({
            let c = carve(at, size, pages)->0;
            &&& c.0 == at || at + 8 <= c.0
            &&& c.0 % 8 == 0
            &&& (c.0 + 8) % 4096 == 0
            &&& c.1 == c.0 + 8 + pages * 4096
            &&& c.1 == at + 8 + size || c.1 + 8 <= at + 8 + size
            &&& c.1 % 8 == 0
            &&& (at + 8 + size) % 4096 == 0 ==> c.1 == at + 8 + size
        }),
{
    reveal(carve);
    let first = at + 8;
    let next = first + size;
    let f = first % 4096;
    let pre = (4096 - f) % 4096;
    let q = next / 4096;
    let end = next - next % 4096;
    assert(end == 4096 * q);
    let up = first + pre;
    let u = up / 4096;
    assert(up % 4096 == 0) by {
        if f == 0 {
            assert(pre == 0);
        } else {
            assert(pre == 4096 - f);
            assert(up == 4096 * (first / 4096) + 4096);
        }
    }
    assert(up == 4096 * u);
    assert(4096 * (u + pages) <= next);
    assert(u + pages <= q);
    let lo = end - pages * 4096 - 8;
    assert(lo + 8 == 4096 * (q - pages));
    assert(lo + 8 == 8 * (512 * (q - pages)));
    assert(end == 8 * (512 * q));
    assert(lo >= at);
    assert(lo % 8 == 0);
    assert(end % 8 == 0);
    assert(next % 8 == 0);
}

/// The free block that a carve leaves below the pages, where they do not
/// start the block.
pub open spec fn low_rest(b: Block, pages: int) -> Block {
    Block { tag: b.tag, size: (carve_lo(b, pages) - b.tag - 8) as usize, allocated: false }
}

/// The allocated block of `pages` pages carved out of `b`.
pub open spec fn carved(b: Block, pages: int) -> Block {
    Block { tag: carve_lo(b, pages) as usize, size: (pages * 4096) as usize, allocated: true }
}

/// The free block that a carve leaves above the pages, where they do not
/// end the block.
pub open spec fn high_rest(b: Block, pages: int) -> Block {
    Block {
        tag: carve_hi(b, pages) as usize,
        size: (b.end() - carve_hi(b, pages) - 8) as usize,
        allocated: false,
    }
}

/// What block `b` becomes when `pages` pages are carved out of it: a free
/// rest below the pages where they do not start the block, the pages, and a
/// free rest above them where they do not end it.
pub open spec fn page_split(b: Block, pages: int) -> Seq<Block> {
    if carve_lo(b, pages) == b.tag {
        if carve_hi(b, pages) == b.end() {
            seq![carved(b, pages)]
        } else {
            seq![carved(b, pages), high_rest(b, pages)]
        }
    } else {
        if carve_hi(b, pages) == b.end() {
            seq![low_rest(b, pages), carved(b, pages)]
        } else {
            seq![low_rest(b, pages), carved(b, pages), high_rest(b, pages)]
        }
    }
}

/// The blocks that a carve leaves cover the block they are carved from.
pub proof fn lemma_page_split(b: Block, pages: int)
    requires
        b.aligned(),
        can_carve(b, pages),
        0 <= pages,
        b.end() <= usize::MAX,
    ensures
        ({
            let mid = page_split(b, pages);
            &&& mid.len() >= 1
            &&& linked(mid)
            &&& coalesced(mid)
            &&& mid[0].tag == b.tag
            &&& mid.last().end() == b.end()
            &&& (pages >= 1 && b.end() % 4096 == 0) ==> mid.last().size > 0
            &&& forall|k: int|
                0 <= k < mid.len() ==> {
                    ||| (#[trigger] mid[k]) == low_rest(b, pages) && carve_lo(b, pages) != b.tag
                    ||| mid[k] == carved(b, pages)
                    ||| mid[k] == high_rest(b, pages) && carve_hi(b, pages) != b.end()
                }
        }),
{
    lemma_carve(b.tag as int, b.size as int, pages);
    let mid = page_split(b, pages);
    let lo = carve_lo(b, pages);
    let hi = carve_hi(b, pages);
    let l = low_rest(b, pages);
    let c = carved(b, pages);
    let h = high_rest(b, pages);
    assert(pages * 4096 == 8 * (pages * 512));
    assert(c.tag == lo && c.size == pages * 4096 && c.aligned() && c.end() == hi);
    if lo != b.tag {
        assert(l.tag == b.tag && l.end() == lo && l.aligned());
    }
    if hi != b.end() {
        assert(h.tag == hi && h.end() == b.end() && h.aligned());
    }
}

/// A free block that a request of `req` bytes, a multiple of the tag width,
/// can be served from.
pub open spec fn can_serve(b: Block, req: int) -> bool {
    if req >= 4096 {
        can_carve(b, pages_for(req))
    } else {
        fits(b, req)
    }
}

/// Block `i` is the one that a request of `req` bytes is served from.
pub open spec fn choice(bl: Seq<Block>, req: int, i: int) -> bool {
    if req >= 4096 {
        page_choice(bl, pages_for(req), i)
    } else {
        small_choice(bl, req, i)
    }
}

/// What block `b` becomes when a request of `req` bytes is served from it.
pub open spec fn split(b: Block, req: int) -> Seq<Block> {
    if req >= 4096 {
        page_split(b, pages_for(req))
    } else {
        small_split(b, req)
    }
}

/// The block that a request of `req` bytes served from `b` is handed.
pub open spec fn handed(b: Block, req: int) -> Block {
    if req >= 4096 {
        carved(b, pages_for(req))
    } else {
        Block { tag: b.tag, size: if exact(b, req) { b.size } else { req as usize }, allocated: true }
    }
}

/// At most one block is chosen for a request.
pub proof fn lemma_choice_unique(bl: Seq<Block>, req: int, i: int, j: int)
    requires
        choice(bl, req, i),
        choice(bl, req, j),
    ensures
        i == j,
{
}

/// A block is chosen for a request exactly where some block can serve it.
pub proof fn lemma_choice_exists(bl: Seq<Block>, req: int, k: int)
    requires
        0 <= k < bl.len(),
        can_serve(bl[k], req),
    ensures
        exists|i: int| #[trigger] choice(bl, req, i),
{
    if req >= 4096 {
        let pages = pages_for(req);
        let f = |b: Block| can_carve(b, pages);
        lemma_last(bl, f, k);
        let i = choose|i: int| #[trigger] is_last(bl, f, i);
        assert forall|j: int| i < j < bl.len() implies !can_carve(#[trigger] bl[j], pages) by {
            assert(!f(bl[j]));
        }
        assert(page_choice(bl, pages, i));
        assert(choice(bl, req, i));
    } else {
        let g = |b: Block| exact(b, req);
        let f = |b: Block| fits(b, req);
        if exists|e: int| 0 <= e < bl.len() && exact(#[trigger] bl[e], req) {
            let e = choose|e: int| 0 <= e < bl.len() && exact(#[trigger] bl[e], req);
            lemma_first(bl, g, e);
            let i = choose|i: int| #[trigger] is_first(bl, g, i);
            assert forall|j: int| 0 <= j < i implies !exact(#[trigger] bl[j], req) by {
                assert(!g(bl[j]));
            }
            assert(small_choice(bl, req, i));
            assert(choice(bl, req, i));
        } else {
            lemma_last(bl, f, k);
            let i = choose|i: int| #[trigger] is_last(bl, f, i);
            assert forall|j: int| i < j < bl.len() implies !fits(#[trigger] bl[j], req) by {
                assert(!f(bl[j]));
            }
            assert(small_choice(bl, req, i));
            assert(choice(bl, req, i));
        }
    }
}

/// `i` is the last index of `bl` whose block meets `f`.
pub open spec fn is_last(bl: Seq<Block>, f: spec_fn(Block) -> bool, i: int) -> bool {
    &&& 0 <= i < bl.len()
    &&& f(bl[i])
    &&& forall|j: int| i < j < bl.len() ==> !f(#[trigger] bl[j])
}

/// `i` is the first index of `bl` whose block meets `f`.
pub open spec fn is_first(bl: Seq<Block>, f: spec_fn(Block) -> bool, i: int) -> bool {
    &&& 0 <= i < bl.len()
    &&& f(bl[i])
    &&& forall|j: int| 0 <= j < i ==> !f(#[trigger] bl[j])
}

/// Where some block meets `f`, there is a last one that does.
pub proof fn lemma_last(bl: Seq<Block>, f: spec_fn(Block) -> bool, k: int)
    requires
        0 <= k < bl.len(),
        f(bl[k]),
    ensures
        exists|i: int| #[trigger] is_last(bl, f, i),
    decreases bl.len() - k,
{
    if exists|j: int| k < j < bl.len() && f(#[trigger] bl[j]) {
        let j = choose|j: int| k < j < bl.len() && f(#[trigger] bl[j]);
        lemma_last(bl, f, j);
    } else {
        assert(is_last(bl, f, k));
    }
}

/// Where some block meets `f`, there is a first one that does.
pub proof fn lemma_first(bl: Seq<Block>, f: spec_fn(Block) -> bool, k: int)
    requires
        0 <= k < bl.len(),
        f(bl[k]),
    ensures
        exists|i: int| #[trigger] is_first(bl, f, i),
    decreases k,
{
    if exists|j: int| 0 <= j < k && f(#[trigger] bl[j]) {
        let j = choose|j: int| 0 <= j < k && f(#[trigger] bl[j]);
        lemma_first(bl, f, j);
    } else {
        assert(is_first(bl, f, k));
    }
}

/// The block chosen for a request can serve it.
pub proof fn lemma_choice_serves(bl: Seq<Block>, req: int, i: int)
    requires
        choice(bl, req, i),
    ensures
        0 <= i < bl.len(),
        can_serve(bl[i], req),
        !bl[i].allocated,
{
}

/// A block that can be carved is at least as long as the pages asked for.
pub proof fn lemma_carve_needs(b: Block, pages: int)
    requires
        can_carve(b, pages),
    ensures
        b.size >= pages * 4096,
{
    reveal(carve);
}

/// Where the request needs more pages than the largest free span and one,
/// no block can serve it.
pub proof fn lemma_reject(bl: Seq<Block>, largest: int, req: int)
    requires
        is_largest(bl, largest),
        0 <= req,
        pages_for(req) - 1 > largest,
    ensures
        forall|j: int| 0 <= j < bl.len() ==> !can_serve(#[trigger] bl[j], req),
{
    assert forall|j: int| 0 <= j < bl.len() implies !can_serve(#[trigger] bl[j], req) by {
        if can_serve(bl[j], req) {
            if req >= 4096 {
                lemma_carve_needs(bl[j], pages_for(req));
            }
            assert(span_pages(bl[j].size as int) <= largest);
            assert(bl[j].size >= req);
        }
    }
}

/// The blocks that a small request leaves cover the block it is served from.
pub proof fn lemma_small_split(b: Block, req: int)
    requires
        b.aligned(),
        fits(b, req),
        0 <= req,
        req % 8 == 0,
        b.end() <= usize::MAX,
    ensures
        ({
            let mid = small_split(b, req);
            &&& mid.len() >= 1
            &&& linked(mid)
            &&& coalesced(mid)
            &&& mid[0].tag == b.tag
            &&& mid[0].allocated
            &&& mid.last().end() == b.end()
            &&& b.size > 0 ==> mid.last().size > 0
        }),
{
    let mid = small_split(b, req);
    if !exact(b, req) {
        assert(mid[0].end() == mid[1].tag);
        assert(mid[0].aligned() && mid[1].aligned());
    }
}

} // verus!
