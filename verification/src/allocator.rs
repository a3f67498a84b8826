//! The allocator: selection, splitting, release and coalescing.

use vstd::prelude::*;
use crate::tag::{Tag, PAGE_SIZE, TAG_SIZE, pages_for, pg_size};
use crate::policy::{round_up, served, fits, exact, small_choice, small_split, can_carve, carve_lo, carve_hi, page_choice, lemma_carve, low_rest, carved, high_rest, page_split, lemma_page_split, can_serve, choice, split, handed, lemma_choice_serves, lemma_carve_needs, lemma_reject, lemma_small_split};
use crate::layout::{Block, word_at, linked, chain, tags_match, coalesced, span_pages, is_largest, in_tag, replace, covers, merged, merge_at, has_tag, tags_within, same_live, lemma_merge, index_of, lemma_index_of, freed, free_at, lemma_free_at, free_bytes, lemma_payload_not_tag, lemma_largest_unique, lemma_ordered, lemma_replace_chain, lemma_replace_tags, lemma_word_frame, lemma_replace_coalesced, load_word, store_word};

verus! {

/// Byte written over a region when it is released.
pub const FREE_FILL: u8 = 0xF7;

/// Byte written over a region when it is handed out.
pub const ALOC_FILL: u8 = 0x7F;

/// Arena size, in pages, that a placeholder is given on first use.
pub const DEFAULT_BACKUP_PAGES: usize = 128;

/// Low-memory threshold, in pages, that a placeholder is given on first use.
pub const DEFAULT_THRESHOLD: usize = 16;

/// A free-list allocator over one arena. Requests below a page are served
/// from the first free block that fits exactly, or else from the front of
/// the last free block that is large enough; requests of a page or more are
/// served on page boundaries, as near to the end of the last free block that
/// can hold them as possible.
///
/// `buf` is the arena, tags included. `blocks` is the chain of blocks that
/// the tags in `buf` encode; it exists in proofs only.
pub struct BackupAllocator {
    buf: Vec<u8>,
    pages: usize,
    largest_space: usize,
    threshold_pages: usize,
    blocks: Ghost<Seq<Block>>,
}

/// Whole pages that a free span of `size` bytes is counted as.
fn span_of(size: usize) -> (r: usize)
    ensures
        r == span_pages(size as int),
{
    if size == 0 {
        0
    } else {
        pg_size(size) - 1
    }
}

/// The line of text that std's `format!` makes of the five figures of an
/// allocator's state: whether it is in use, its pages, its threshold, its
/// largest free span in pages and its free bytes.
pub uninterp spec fn rendered(
    used: bool,
    pages: usize,
    threshold: usize,
    largest: usize,
    total: usize,
) -> Seq<char>;

/// Renders the figures of an allocator's state as one line of text, with
/// std's `format!`. The text is taken to depend on the five figures alone:
/// `format!` writes a `bool` and unsigned integers the same way wherever it
/// runs. What the text holds is not stated.
#[verifier::external_body]
fn render(used: bool, pages: usize, threshold: usize, largest: usize, total: usize) -> (s: String)
    ensures
        s@ == rendered(used, pages, threshold, largest, total),
{
    format!(
        "BackupAllocator {{ used: {}, npages: {}, threshold: {} (pages), largest_space: {} (pages), total_space: {} }}",
        used, pages, threshold, largest, total
    )
}

/// `size` rounded up to a multiple of the tag width.
fn round_to_tag(size: usize) -> (r: usize)
    requires
        size + 7 <= usize::MAX,
    ensures
        r == round_up(size as int),
        r % 8 == 0,
        size <= r < size + 8,
        size <= served(size as int),
{
    let q: usize = (size + (TAG_SIZE - 1)) / TAG_SIZE;
    q * TAG_SIZE
}

/// The tag word for a block of `size` bytes.
fn encode(size: usize, allocated: bool) -> (w: u64)
    requires
        size % 8 == 0,
    ensures
        w == (Block { tag: 0, size, allocated }).word(),
{
    proof {
        assert(size == 8 * (size / 8));
        assert(size % 2 == 0);
    }
    let mut t = Tag::new(size);
    if allocated {
        t.set_allocated();
    }
    t.0 as u64
}

impl BackupAllocator {
    /// The arena's bytes.
    pub closed spec fn bytes(&self) -> Seq<u8> {
        self.buf@
    }

    /// The arena's blocks, in address order.
    pub closed spec fn blocks(&self) -> Seq<Block> {
        self.blocks@
    }

    /// Pages in the arena.
    pub closed spec fn total_pages(&self) -> usize {
        self.pages
    }

    /// Pages by which the largest free span may fall short of the arena
    /// before memory counts as low.
    pub closed spec fn threshold(&self) -> usize {
        self.threshold_pages
    }

    /// The cached page count of the largest free span.
    pub closed spec fn largest(&self) -> usize {
        self.largest_space
    }

    /// The state before first use: no arena at all.
    pub open spec fn is_placeholder(&self) -> bool {
        self.total_pages() == 0 && self.bytes().len() == 0
    }

    /// The arena exists and has the size the page count asks for.
    pub open spec fn sized(&self) -> bool {
        &&& self.total_pages() >= 1
        &&& self.bytes().len() == self.total_pages() * 4096
        &&& self.bytes().len() <= usize::MAX
    }

    /// The arena is partitioned into blocks, each introduced by its tag, and
    /// does not end in an empty block.
    pub open spec fn laid_out(&self) -> bool {
        &&& self.sized()
        &&& chain(self.blocks(), self.bytes().len() as int)
        &&& tags_match(self.bytes(), self.blocks())
        &&& self.blocks().last().size > 0
    }

    /// The state between calls: laid out, with free neighbours merged and the
    /// cached largest span up to date.
    pub open spec fn wf(&self) -> bool {
        &&& self.laid_out()
        &&& coalesced(self.blocks())
        &&& is_largest(self.blocks(), self.largest() as int)
    }

    /// A new arena of `size` pages: one free block, zeroed.
    pub open spec fn is_fresh(&self, size: usize, threshold: usize) -> bool {
        &&& self.total_pages() == size
        &&& self.threshold() == threshold
        &&& self.largest() == size - 1
        &&& self.blocks() =~= seq![
            (Block { tag: 0, size: (size * 4096 - 8) as usize, allocated: false }),
        ]
        &&& forall|p: int| 8 <= p < self.bytes().len() ==> self.bytes()[p] == 0
    }

    /// Some block is handed out, or the first block is not the whole arena.
    pub open spec fn spec_is_used(&self) -> bool {
        self.blocks()[0].allocated || self.blocks()[0].size != self.bytes().len() - 8
    }

    /// The allocator before first use. It owns no arena until `finish` gives
    /// it one.
    pub fn placeholder() -> (r: BackupAllocator)
        ensures
            r.is_placeholder(),
            r.blocks() =~= Seq::<Block>::empty(),
            r.threshold() == 0,
            r.largest() == 0,
    {
        BackupAllocator {
            buf: Vec::new(),
            pages: 0,
            largest_space: 0,
            threshold_pages: 0,
            blocks: Ghost(Seq::empty()),
        }
    }

    /// An allocator over `size` pages that reports low memory once fewer than
    /// `size - threshold` pages are free in one piece.
    pub fn new(size: usize, threshold: usize) -> (r: BackupAllocator)
        requires
            size >= 1,
            size * 4096 <= usize::MAX,
        ensures
            r.wf(),
            r.is_fresh(size, threshold),
    {
        let mut ret = BackupAllocator {
            buf: vec![0u8; size * PAGE_SIZE],
            pages: size,
            largest_space: size - 1,
            threshold_pages: threshold,
            blocks: Ghost(Seq::empty()),
        };
        ret.setup();
        proof {
            let b = ret.blocks@[0];
            assert(!b.allocated && span_pages(b.size as int) == size - 1);
        }
        ret
    }

    /// Zeroes the arena and makes it one free block.
    pub fn setup(&mut self)
        requires
            old(self).sized(),
        ensures
            final(self).laid_out(),
            coalesced(final(self).blocks()),
            final(self).total_pages() == old(self).total_pages(),
            final(self).threshold() == old(self).threshold(),
            final(self).largest() == old(self).largest(),
            final(self).blocks() =~= seq![
                (Block {
                    tag: 0,
                    size: (old(self).total_pages() * 4096 - 8) as usize,
                    allocated: false,
                }),
            ],
            forall|p: int| 8 <= p < final(self).bytes().len() ==> final(self).bytes()[p] == 0,
    {
        let n: usize = self.buf.len();
        let mut k: usize = 0;
        while k < n
            invariant
                k <= n,
                n == self.buf@.len(),
                self.pages == old(self).pages,
                self.threshold_pages == old(self).threshold_pages,
                self.largest_space == old(self).largest_space,
                forall|p: int| 0 <= p < k ==> self.buf@[p] == 0,
            decreases n - k,
        {
            self.buf.set(k, 0);
            k += 1;
        }
        store_word(&mut self.buf, 0, encode(n - TAG_SIZE, false));
        proof {
            let b = Block { tag: 0, size: (n - 8) as usize, allocated: false };
            self.blocks@ = seq![b];
            assert(self.blocks@[0] == b);
            assert(b.aligned());
            assert(word_at(self.buf@, 0) == b.word());
            assert(b.end() == n);
            assert(linked(self.blocks@));
            assert(tags_match(self.buf@, self.blocks@));
        }
    }

    /// Length of the arena in bytes.
    pub fn byte_len(&self) -> (r: usize)
        requires
            self.sized(),
        ensures
            r == self.bytes().len(),
            r == self.total_pages() * 4096,
    {
        self.buf.len()
    }

    /// The tag at offset `t`, or `None` where `t` lies outside the arena.
    pub fn read_tag(&self, t: usize) -> (r: Option<Tag>)
        requires
            self.sized(),
            t % 8 == 0,
        ensures
            r is Some <==> t < self.bytes().len(),
            r is Some ==> r == Some(Tag(word_at(self.bytes(), t as int) as usize)),
    {
        if t < self.buf.len() {
            Some(Tag(load_word(&self.buf, t) as usize))
        } else {
            None
        }
    }

    /// Whether any part of the arena is handed out.
    pub fn is_used(&self) -> (r: bool)
        requires
            self.laid_out(),
        ensures
            r == self.spec_is_used(),
    {
        let w: usize = load_word(&self.buf, 0) as usize;
        let start_tag = Tag(w);
        proof {
            let b = self.blocks@[0];
            assert(b.aligned());
            assert(w == b.word());
        }
        !(start_tag.is_free() && self.buf.len() - TAG_SIZE == start_tag.size())
    }

    /// Whether `ptr` lies in this allocator's arena.
    pub fn contains(&self, ptr: usize) -> (r: bool)
        ensures
            r == (ptr < self.bytes().len()),
    {
        ptr < self.buf.len()
    }

    /// The tag of block `i`, read from the arena at `at`, with what the
    /// chain says of the step to the next block.
    fn block_tag(&self, at: usize, Ghost(i): Ghost<int>) -> (t: Tag)
        requires
            self.laid_out(),
            0 <= i < self.blocks().len(),
            at == self.blocks()[i].tag,
        ensures
            t.0 == self.blocks()[i].word(),
            t.spec_size() == self.blocks()[i].size,
            t.spec_allocated() == self.blocks()[i].allocated,
            self.blocks()[i].aligned(),
            at + 8 + t.spec_size() <= self.bytes().len(),
            i < self.blocks().len() - 1 ==> self.blocks()[i + 1].tag == at + 8 + t.spec_size()
                && at + 16 + t.spec_size() <= self.bytes().len(),
            i == self.blocks().len() - 1 ==> at + 8 + t.spec_size() == self.bytes().len(),
    {
        proof {
            let bl = self.blocks@;
            lemma_ordered(bl, i, bl.len() - 1);
            assert(bl[i].aligned());
            assert(bl[i].size == 8 * (bl[i].size / 8));
            assert(bl[i].size % 2 == 0);
            if i < bl.len() - 1 {
                lemma_ordered(bl, i + 1, bl.len() - 1);
                assert(bl[i].end() == bl[i + 1].tag);
            }
        }
        Tag(load_word(&self.buf, at) as usize)
    }

    /// This state is `before` with block `i` replaced by `mid`: no byte
    /// outside that block differs, and inside it none but those of a tag.
    pub open spec fn took(&self, before: &BackupAllocator, i: int, mid: Seq<Block>) -> bool {
        let b = before.blocks()[i];
        &&& self.total_pages() == before.total_pages()
        &&& self.threshold() == before.threshold()
        &&& self.blocks() == replace(before.blocks(), i, i + 1, mid)
        &&& self.bytes().len() == before.bytes().len()
        &&& forall|p: int|
            0 <= p < self.bytes().len() && !(b.tag <= p < b.end()) ==> self.bytes()[p]
                == before.bytes()[p]
        &&& forall|p: int|
            0 <= p < self.bytes().len() && !in_tag(self.blocks(), p) ==> self.bytes()[p]
                == before.bytes()[p]
    }

    /// Serves `pgs` pages from the last free block that can hold them on page
    /// boundaries, splitting off what lies below and above them.
    pub fn allocate_pages(&mut self, pgs: usize) -> (r: Option<usize>)
        requires
            old(self).laid_out(),
            pgs >= 1,
        ensures
            match r {
                None => {
                    &&& *final(self) == *old(self)
                    &&& forall|j: int|
                        0 <= j < old(self).blocks().len() ==> !can_carve(
                            #[trigger] old(self).blocks()[j],
                            pgs as int,
                        )
                },
                Some(p) => exists|i: int|
                    {
                        &&& #[trigger] page_choice(old(self).blocks(), pgs as int, i)
                        &&& p == carve_lo(old(self).blocks()[i], pgs as int) + 8
                        &&& final(self).took(
                            old(self),
                            i,
                            page_split(old(self).blocks()[i], pgs as int),
                        )
                        &&& final(self).largest() == old(self).largest()
                        &&& final(self).laid_out()
                    },
            },
    {
        let n: usize = self.buf.len();
        let ghost bl = self.blocks@;
        let mut best: Option<usize> = None;
        let mut lo: usize = 0;
        let mut hi: usize = 0;
        let ghost mut bi: int = 0;
        let mut at: usize = 0;
        let ghost mut i: int = 0;
        while at < n
            invariant
                *self == *old(self),
                self.laid_out(),
                bl == self.blocks@,
                n == self.buf@.len(),
                0 <= i <= bl.len(),
                i < bl.len() ==> at == bl[i].tag && at < n,
                i == bl.len() ==> at == n,
                best is None ==> forall|j: int| 0 <= j < i ==> !can_carve(#[trigger] bl[j], pgs as int),
                best is Some ==> {
                    &&& 0 <= bi < i
                    &&& best == Some(bl[bi].tag)
                    &&& can_carve(bl[bi], pgs as int)
                    &&& lo == carve_lo(bl[bi], pgs as int)
                    &&& hi == carve_hi(bl[bi], pgs as int)
                    &&& forall|j: int| bi < j < i ==> !can_carve(#[trigger] bl[j], pgs as int)
                },
            decreases bl.len() - i,
        {
            let cur = self.block_tag(at, Ghost(i));
            if cur.is_free() {
                match cur.get_page_aligned_part(at, pgs) {
                    Some(v) => {
                        best = Some(at);
                        lo = v.0;
                        hi = v.1;
                        proof {
                            bi = i;
                        }
                    },
                    None => {},
                }
            }
            at = cur.next(at);
            proof {
                i = i + 1;
            }
        }
        match best {
            Some(t) => {
                proof {
                    assert(page_choice(bl, pgs as int, bi));
                }
                Some(self.carve_out(t, lo, hi, pgs, Ghost(bi)))
            },
            None => None,
        }
    }

    /// Serves `req` bytes from the first free block that fits exactly, or
    /// else from the front of the last free block that is large enough.
    pub fn allocate_small(&mut self, req: usize) -> (r: Option<usize>)
        requires
            old(self).laid_out(),
            req % 8 == 0,
        ensures
            match r {
                None => {
                    &&& *final(self) == *old(self)
                    &&& forall|j: int|
                        0 <= j < old(self).blocks().len() ==> !fits(
                            #[trigger] old(self).blocks()[j],
                            req as int,
                        )
                },
                Some(p) => exists|i: int|
                    {
                        &&& #[trigger] small_choice(old(self).blocks(), req as int, i)
                        &&& p == old(self).blocks()[i].start()
                        &&& final(self).took(
                            old(self),
                            i,
                            small_split(old(self).blocks()[i], req as int),
                        )
                        &&& final(self).largest() == old(self).largest()
                        &&& final(self).laid_out()
                    },
            },
    {
        let n: usize = self.buf.len();
        let ghost bl = self.blocks@;
        let mut best: Option<usize> = None;
        let ghost mut bi: int = 0;
        let mut at: usize = 0;
        let ghost mut i: int = 0;
        while at < n
            invariant
                *self == *old(self),
                self.laid_out(),
                bl == self.blocks@,
                n == self.buf@.len(),
                0 <= i <= bl.len(),
                i < bl.len() ==> at == bl[i].tag && at < n,
                i == bl.len() ==> at == n,
                forall|j: int| 0 <= j < i ==> !exact(#[trigger] bl[j], req as int),
                best is None ==> forall|j: int| 0 <= j < i ==> !fits(#[trigger] bl[j], req as int),
                best is Some ==> {
                    &&& 0 <= bi < i
                    &&& best == Some(bl[bi].tag)
                    &&& fits(bl[bi], req as int)
                    &&& forall|j: int| bi < j < i ==> !fits(#[trigger] bl[j], req as int)
                },
            decreases bl.len() - i,
        {
            let cur = self.block_tag(at, Ghost(i));
            if cur.is_free() && cur.size() >= req {
                if cur.size() == req || cur.size() - req == TAG_SIZE {
                    proof {
                        assert(small_choice(bl, req as int, i));
                    }
                    let p = self.split_off(at, req, Ghost(i));
                    return Some(p);
                } else {
                    best = Some(at);
                    proof {
                        bi = i;
                    }
                }
            }
            at = cur.next(at);
            proof {
                i = i + 1;
            }
        }
        match best {
            Some(t) => {
                proof {
                    assert(small_choice(bl, req as int, bi));
                }
                Some(self.split_off(t, req, Ghost(bi)))
            },
            None => None,
        }
    }

    /// Rewrites free block `i`, whose tag sits at `t`, as an allocated block
    /// of `req` bytes and, where enough is left, a free block for the rest.
    fn split_off(&mut self, t: usize, req: usize, Ghost(i): Ghost<int>) -> (r: usize)
        requires
            old(self).laid_out(),
            0 <= i < old(self).blocks().len(),
            t == old(self).blocks()[i].tag,
            fits(old(self).blocks()[i], req as int),
            req % 8 == 0,
        ensures
            r == t + 8,
            final(self).took(old(self), i, small_split(old(self).blocks()[i], req as int)),
            final(self).largest() == old(self).largest(),
            final(self).laid_out(),
    {
        let n: usize = self.buf.len();
        let ghost bl = self.blocks@;
        let ghost b = bl[i];
        let ghost mid = small_split(b, req as int);
        let ghost before = self.buf@;
        let tag = self.block_tag(t, Ghost(i));
        proof {
            lemma_small_split(b, req as int);
        }
        let old_size: usize = tag.size();
        if old_size == req || old_size - req == TAG_SIZE {
            store_word(&mut self.buf, t, encode(old_size, true));
        } else {
            let remaining_size: usize = old_size - TAG_SIZE - req;
            store_word(&mut self.buf, t, encode(req, true));
            let ghost b1 = self.buf@;
            store_word(&mut self.buf, t + TAG_SIZE + req, encode(remaining_size, false));
            proof {
                lemma_word_frame(b1, self.buf@, t as int);
            }
        }
        proof {
            let after = self.buf@;
            assert(tags_match(after, mid));
            assert(covers(bl, i, i + 1, mid));
            lemma_replace_chain(bl, n as int, i, i + 1, mid);
            lemma_replace_tags(before, after, bl, i, i + 1, mid);
            let s = replace(bl, i, i + 1, mid);
            self.blocks@ = s;
            assert forall|q: int| 0 <= q < n && !in_tag(s, q) implies after[q] == before[q] by {
                assert(s[i] == mid[0]);
                if mid.len() == 2 {
                    assert(s[i + 1] == mid[1]);
                }
            }
        }
        t + TAG_SIZE
    }

    /// Rewrites free block `i`, whose tag sits at `t`, as the pages carved
    /// out of it and the free rests on either side.
    fn carve_out(&mut self, t: usize, lo: usize, hi: usize, pgs: usize, Ghost(i): Ghost<int>) -> (r:
        usize)
        requires
            old(self).laid_out(),
            0 <= i < old(self).blocks().len(),
            t == old(self).blocks()[i].tag,
            can_carve(old(self).blocks()[i], pgs as int),
            pgs >= 1,
            lo == carve_lo(old(self).blocks()[i], pgs as int),
            hi == carve_hi(old(self).blocks()[i], pgs as int),
        ensures
            r == lo + 8,
            final(self).took(old(self), i, page_split(old(self).blocks()[i], pgs as int)),
            final(self).largest() == old(self).largest(),
            final(self).laid_out(),
    {
        let n: usize = self.buf.len();
        let ghost bl = self.blocks@;
        let ghost b = bl[i];
        let ghost mid = page_split(b, pgs as int);
        let ghost before = self.buf@;
        let tag = self.block_tag(t, Ghost(i));
        proof {
            lemma_carve(b.tag as int, b.size as int, pgs as int);
            lemma_page_split(b, pgs as int);
            assert(pgs * 4096 == 8 * (pgs * 512));
        }
        let next: usize = tag.next(t);
        if hi != next {
            store_word(&mut self.buf, hi, encode(next - hi - TAG_SIZE, false));
        }
        let ghost b1 = self.buf@;
        if lo != t {
            store_word(&mut self.buf, t, encode(lo - t - TAG_SIZE, false));
        }
        let ghost b2 = self.buf@;
        store_word(&mut self.buf, lo, encode(pgs * PAGE_SIZE, true));
        proof {
            let after = self.buf@;
            if hi != next {
                lemma_word_frame(b1, b2, hi as int);
                lemma_word_frame(b2, after, hi as int);
            }
            if lo != t {
                lemma_word_frame(b2, after, t as int);
            }
            assert(word_at(after, lo as int) == carved(b, pgs as int).word());
            assert(lo != t ==> word_at(after, t as int) == low_rest(b, pgs as int).word());
            assert(hi != next ==> word_at(after, hi as int) == high_rest(b, pgs as int).word());
            assert(tags_match(after, mid));
            assert(covers(bl, i, i + 1, mid));
            lemma_replace_chain(bl, n as int, i, i + 1, mid);
            lemma_replace_tags(before, after, bl, i, i + 1, mid);
            let s = replace(bl, i, i + 1, mid);
            self.blocks@ = s;
            assert forall|q: int| 0 <= q < n && !in_tag(s, q) implies after[q] == before[q] by {
                assert(s[i] == mid[0]);
                if mid.len() >= 2 {
                    assert(s[i + 1] == mid[1]);
                }
                if mid.len() >= 3 {
                    assert(s[i + 2] == mid[2]);
                }
            }
        }
        lo + TAG_SIZE
    }

    /// Merges every run of free neighbours into one block and returns the
    /// page count of the largest free span.
    pub fn do_recalculate(&mut self) -> (largest: usize)
        requires
            old(self).laid_out(),
        ensures
            final(self).laid_out(),
            coalesced(final(self).blocks()),
            is_largest(final(self).blocks(), largest as int),
            final(self).total_pages() == old(self).total_pages(),
            final(self).threshold() == old(self).threshold(),
            final(self).largest() == old(self).largest(),
            same_live(final(self).blocks(), old(self).blocks()),
            tags_within(final(self).blocks(), old(self).blocks()),
            final(self).bytes().len() == old(self).bytes().len(),
            forall|p: int|
                0 <= p < old(self).bytes().len() && !in_tag(old(self).blocks(), p) ==> final(self).bytes()[p] == old(self).bytes()[p],
            coalesced(old(self).blocks()) ==> final(self).blocks() == old(self).blocks() && final(self).bytes() == old(self).bytes(),
    {
        let n: usize = self.buf.len();
        let ghost bl0 = self.blocks@;
        let mut largest: usize = 0;
        let mut prev_at: usize = 0;
        let mut prev = self.block_tag(0, Ghost(0));
        let ghost mut i: int = 0;
        if prev.is_free() {
            largest = span_of(prev.size());
        }
        let mut nx: usize = prev.next(prev_at);
        proof {
            assert forall|k: int| 0 <= k < bl0.len() implies has_tag(
                bl0,
                (#[trigger] bl0[k]).tag as int,
            ) by {}
        }
        while nx < n
            invariant
                self.laid_out(),
                n == self.buf@.len(),
                n == old(self).buf@.len(),
                bl0 == old(self).blocks@,
                self.pages == old(self).pages,
                self.threshold_pages == old(self).threshold_pages,
                self.largest_space == old(self).largest_space,
                0 <= i < self.blocks@.len(),
                prev_at == self.blocks@[i].tag,
                prev.spec_size() == self.blocks@[i].size,
                prev.spec_allocated() == self.blocks@[i].allocated,
                nx == self.blocks@[i].end(),
                nx < n <==> i < self.blocks@.len() - 1,
                forall|a: int, b: int|
                    0 <= a && b == a + 1 && b <= i ==> (#[trigger] self.blocks@[a]).allocated || (
                    #[trigger] self.blocks@[b]).allocated,
                forall|k: int|
                    0 <= k <= i && !(#[trigger] self.blocks@[k]).allocated ==> span_pages(
                        self.blocks@[k].size as int,
                    ) <= largest,
                largest == 0 || exists|k: int|
                    0 <= k <= i && !(#[trigger] self.blocks@[k]).allocated && span_pages(
                        self.blocks@[k].size as int,
                    ) == largest,
                same_live(self.blocks@, bl0),
                tags_within(self.blocks@, bl0),
                forall|p: int| 0 <= p < n && !in_tag(bl0, p) ==> self.buf@[p] == old(self).buf@[p],
                coalesced(bl0) ==> self.blocks@ == bl0 && self.buf@ == old(self).buf@,
            decreases self.blocks@.len() - i,
        {
            let ghost bl = self.blocks@;
            let ghost before = self.buf@;
            let ghost was = largest;
            let cur = self.block_tag(nx, Ghost(i + 1));
            if prev.is_free() && cur.is_free() {
                let size: usize = prev.size() + cur.size() + TAG_SIZE;
                proof {
                    lemma_merge(bl, i);
                    assert(!coalesced(bl0)) by {
                        if coalesced(bl0) {
                            assert(bl0[i].allocated || bl0[i + 1].allocated);
                        }
                    }
                }
                prev.set_size(size);
                store_word(&mut self.buf, prev_at, encode(size, false));
                let here: usize = span_of(size);
                if here > largest {
                    largest = here;
                }
                proof {
                    let s = merge_at(bl, i);
                    let m = merged(bl[i], bl[i + 1]);
                    let after = self.buf@;
                    assert(tags_match(after, seq![m]));
                    lemma_replace_chain(bl, n as int, i, i + 2, seq![m]);
                    lemma_replace_tags(before, after, bl, i, i + 2, seq![m]);
                    self.blocks@ = s;
                    assert(has_tag(bl0, bl[i].tag as int));
                    let k0 = choose|k: int| 0 <= k < bl0.len() && (#[trigger] bl0[k]).tag == bl[i].tag;
                    assert forall|p: int| 0 <= p < n && !in_tag(bl0, p) implies after[p] == old(self).buf@[p] by {
                        if prev_at <= p < prev_at + 8 {
                            assert(bl0[k0].tag <= p < bl0[k0].tag + 8);
                        }
                    }
                    assert forall|k: int| 0 <= k < s.len() implies has_tag(
                        bl0,
                        (#[trigger] s[k]).tag as int,
                    ) by {
                        if k <= i {
                            assert(s[k].tag == bl[k].tag);
                        } else {
                            assert(s[k].tag == bl[k + 1].tag);
                        }
                    }
                    if largest != 0 && largest != here {
                        let w = choose|k: int|
                            0 <= k <= i && !(#[trigger] bl[k]).allocated && span_pages(
                                bl[k].size as int,
                            ) == was;
                        assert(w < i);
                        assert(!s[w].allocated && span_pages(s[w].size as int) == largest);
                    } else if largest != 0 {
                        assert(!s[i].allocated && span_pages(s[i].size as int) == largest);
                    }
                    if i < s.len() - 1 {
                        lemma_ordered(s, i + 1, s.len() - 1);
                        assert(s[i].end() == s[i + 1].tag);
                    }
                }
            } else {
                if cur.is_free() {
                    let here: usize = span_of(cur.size());
                    if here > largest {
                        largest = here;
                    }
                }
                proof {
                    if largest == was && largest != 0 {
                        let w = choose|k: int|
                            0 <= k <= i && !(#[trigger] bl[k]).allocated && span_pages(
                                bl[k].size as int,
                            ) == was;
                        assert(!bl[w].allocated && span_pages(bl[w].size as int) == largest);
                    } else if largest != 0 {
                        assert(!bl[i + 1].allocated && span_pages(bl[i + 1].size as int) == largest);
                    }
                    i = i + 1;
                }
                prev = cur;
                prev_at = nx;
            }
            nx = prev.next(prev_at);
        }
        largest
    }

    /// Brings the chain and the cached largest span up to date.
    pub fn recalculate(&mut self)
        requires
            old(self).laid_out(),
        ensures
            final(self).wf(),
            final(self).total_pages() == old(self).total_pages(),
            final(self).threshold() == old(self).threshold(),
            same_live(final(self).blocks(), old(self).blocks()),
            tags_within(final(self).blocks(), old(self).blocks()),
            final(self).bytes().len() == old(self).bytes().len(),
            forall|p: int|
                0 <= p < old(self).bytes().len() && !in_tag(old(self).blocks(), p) ==> final(self).bytes()[p] == old(self).bytes()[p],
            coalesced(old(self).blocks()) ==> final(self).blocks() == old(self).blocks() && final(self).bytes() == old(self).bytes(),
    {
        self.largest_space = self.do_recalculate();
    }

    /// Serving a request from free block `i` of a merged chain leaves a
    /// merged chain that holds the block handed out.
    pub proof fn lemma_served(&self, i: int, req: int)
        requires
            self.wf(),
            0 <= i < self.blocks().len(),
            can_serve(self.blocks()[i], req),
            0 <= req,
            req % 8 == 0,
        ensures
            ({
                let s = replace(self.blocks(), i, i + 1, split(self.blocks()[i], req));
                let h = handed(self.blocks()[i], req);
                &&& coalesced(s)
                &&& s.contains(h)
                &&& self.blocks()[i].start() <= h.start()
                &&& h.end() <= self.blocks()[i].end()
                &&& h.end() <= self.bytes().len()
                &&& h.start() < self.bytes().len()
                &&& h.aligned()
                &&& req <= h.size
                &&& req >= 4096 ==> h.start() % 4096 == 0 && h.size == pages_for(req) * 4096
                &&& req >= 4096 ==> h.start() == carve_lo(self.blocks()[i], pages_for(req)) + 8
                &&& req < 4096 ==> h.start() == self.blocks()[i].start()
            }),
    {
        let bl = self.blocks();
        let b = bl[i];
        let mid = split(b, req);
        let s = replace(bl, i, i + 1, mid);
        lemma_ordered(bl, i, bl.len() - 1);
        assert(b.aligned());
        if i > 0 {
            assert(bl[i - 1].allocated || bl[i].allocated);
        }
        if i + 1 < bl.len() {
            assert(bl[i].allocated || bl[i + 1].allocated);
        }
        if req >= 4096 {
            let need = pages_for(req);
            lemma_page_split(b, need);
            lemma_carve(b.tag as int, b.size as int, need);
            assert(need * 4096 == 8 * (need * 512));
            if carve_lo(b, need) == b.tag {
                assert(mid[0] == carved(b, need));
                assert(s[i] == mid[0]);
            } else {
                assert(mid[1] == carved(b, need));
                assert(s[i + 1] == mid[1]);
            }
        } else {
            lemma_small_split(b, req);
            assert(s[i] == mid[0]);
        }
        lemma_replace_coalesced(bl, i, i + 1, mid);
    }

    /// Writes `value` over `len` bytes from `p` on, inside the payload of
    /// block `k`.
    fn fill(&mut self, p: usize, len: usize, value: u8, Ghost(k): Ghost<int>)
        requires
            old(self).laid_out(),
            0 <= k < old(self).blocks().len(),
            old(self).blocks()[k].start() <= p,
            p + len <= old(self).blocks()[k].end(),
        ensures
            final(self).laid_out(),
            final(self).blocks() == old(self).blocks(),
            final(self).total_pages() == old(self).total_pages(),
            final(self).threshold() == old(self).threshold(),
            final(self).largest() == old(self).largest(),
            final(self).bytes().len() == old(self).bytes().len(),
            forall|q: int| p <= q < p + len ==> final(self).bytes()[q] == value,
            forall|q: int|
                0 <= q < old(self).bytes().len() && !(p <= q < p + len) ==> final(self).bytes()[q]
                    == old(self).bytes()[q],
    {
        let ghost bl = self.blocks@;
        let ghost before = self.buf@;
        proof {
            lemma_ordered(bl, k, bl.len() - 1);
        }
        let mut j: usize = 0;
        while j < len
            invariant
                j <= len,
                p + len <= self.buf@.len(),
                self.buf@.len() == before.len(),
                before.len() <= usize::MAX,
                self.blocks@ == bl,
                self.pages == old(self).pages,
                self.threshold_pages == old(self).threshold_pages,
                self.largest_space == old(self).largest_space,
                forall|q: int| p <= q < p + j ==> self.buf@[q] == value,
                forall|q: int|
                    0 <= q < before.len() && !(p <= q < p + j) ==> self.buf@[q] == before[q],
            decreases len - j,
        {
            self.buf.set(p + j, value);
            j += 1;
        }
        proof {
            let after = self.buf@;
            let mid = seq![bl[k]];
            assert(replace(bl, k, k + 1, mid) =~= bl);
            assert(bl[k].aligned());
            lemma_word_frame(before, after, bl[k].tag as int);
            assert(tags_match(after, mid));
            lemma_replace_tags(before, after, bl, k, k + 1, mid);
        }
    }

    /// Serves `size` bytes, a multiple of the tag width, on page boundaries
    /// from one page on.
    pub fn real_allocate(&mut self, size: usize, _align: usize) -> (r: Option<usize>)
        requires
            old(self).wf(),
            size % 8 == 0,
        ensures
            final(self).laid_out(),
            coalesced(final(self).blocks()),
            final(self).largest() == old(self).largest(),
            match r {
                None => {
                    &&& *final(self) == *old(self)
                    &&& forall|j: int|
                        0 <= j < old(self).blocks().len() ==> !can_serve(
                            #[trigger] old(self).blocks()[j],
                            size as int,
                        )
                },
                Some(p) => exists|i: int|
                    {
                        &&& #[trigger] choice(old(self).blocks(), size as int, i)
                        &&& final(self).took(old(self), i, split(old(self).blocks()[i], size as int))
                        &&& final(self).blocks().contains(handed(old(self).blocks()[i], size as int))
                        &&& p == handed(old(self).blocks()[i], size as int).start()
                    },
            },
    {
        let ghost bl = self.blocks@;
        let need: usize = pg_size(size);
        if need > 0 && need - 1 > self.largest_space {
            proof {
                lemma_reject(bl, self.largest_space as int, size as int);
            }
            None
        } else if size >= PAGE_SIZE {
            let r = self.allocate_pages(need);
            proof {
                if r is Some {
                    let i = choose|i: int|
                        {
                            &&& #[trigger] page_choice(bl, need as int, i)
                            &&& self.took(old(self), i, page_split(bl[i], need as int))
                            &&& r->0 == carve_lo(bl[i], need as int) + 8
                        };
                    old(self).lemma_served(i, size as int);
                    assert(choice(bl, size as int, i));
                    assert(self.took(old(self), i, split(bl[i], size as int)));
                    assert(self.blocks().contains(handed(bl[i], size as int)));
                    assert(r->0 == handed(bl[i], size as int).start());
                }
            }
            r
        } else {
            let r = self.allocate_small(size);
            proof {
                if r is Some {
                    let i = choose|i: int|
                        {
                            &&& #[trigger] small_choice(bl, size as int, i)
                            &&& self.took(old(self), i, small_split(bl[i], size as int))
                            &&& r->0 == bl[i].start()
                        };
                    old(self).lemma_served(i, size as int);
                    assert(choice(bl, size as int, i));
                    assert(self.took(old(self), i, split(bl[i], size as int)));
                    assert(self.blocks().contains(handed(bl[i], size as int)));
                    assert(r->0 == handed(bl[i], size as int).start());
                }
            }
            r
        }
    }

    /// Brings the cached largest span up to date on a chain whose free
    /// neighbours are merged already.
    fn refresh(&mut self)
        requires
            old(self).laid_out(),
            coalesced(old(self).blocks()),
        ensures
            final(self).wf(),
            final(self).total_pages() == old(self).total_pages(),
            final(self).threshold() == old(self).threshold(),
            final(self).blocks() == old(self).blocks(),
            final(self).bytes() == old(self).bytes(),
    {
        self.recalculate();
    }

    /// What `allocate` leaves of `before`, for a request of `size` bytes
    /// answered with `r`.
    pub open spec fn allocated_from(
        &self,
        before: &BackupAllocator,
        size: int,
        r: Option<usize>,
    ) -> bool {
        let req = round_up(size);
        let bl = before.blocks();
        &&& self.wf()
        &&& self.total_pages() == before.total_pages()
        &&& self.threshold() == before.threshold()
        &&& self.bytes().len() == before.bytes().len()
        &&& match r {
            None => {
                &&& forall|j: int| 0 <= j < bl.len() ==> !can_serve(#[trigger] bl[j], req)
                &&& self.blocks() == bl
                &&& self.bytes() == before.bytes()
                &&& self.largest() == before.largest()
            },
            Some(p) => exists|i: int|
                {
                    &&& #[trigger] choice(bl, req, i)
                    &&& p == handed(bl[i], req).start()
                    &&& self.blocks() == replace(bl, i, i + 1, split(bl[i], req))
                    &&& self.blocks().contains(handed(bl[i], req))
                    &&& forall|q: int| p <= q < p + size ==> self.bytes()[q] == ALOC_FILL
                    &&& forall|q: int|
                        0 <= q < self.bytes().len() && !(bl[i].tag <= q < bl[i].end())
                            ==> self.bytes()[q] == before.bytes()[q]
                    &&& forall|q: int|
                        0 <= q < self.bytes().len() && !(p <= q < p + size) && !in_tag(
                            self.blocks(),
                            q,
                        ) ==> self.bytes()[q] == before.bytes()[q]
                },
        }
    }

    /// Hands out `size` bytes, or `None` where no free block can serve them.
    /// From one page on, the region starts on a page boundary and is a whole
    /// number of pages long. The region is filled with `ALOC_FILL`.
    pub fn allocate(&mut self, size: usize, align: usize) -> (r: Option<usize>)
        requires
            old(self).wf(),
            size + 7 <= usize::MAX,
        ensures
            final(self).allocated_from(old(self), size as int, r),
    {
        let ghost bl = self.blocks@;
        let req: usize = round_to_tag(size);
        let res = self.real_allocate(req, align);
        match res {
            Some(p) => {
                let ghost i = choose|i: int|
                    {
                        &&& #[trigger] choice(bl, req as int, i)
                        &&& self.took(old(self), i, split(bl[i], req as int))
                        &&& self.blocks().contains(handed(bl[i], req as int))
                        &&& p == handed(bl[i], req as int).start()
                    };
                let ghost h = handed(bl[i], req as int);
                let ghost k = choose|k: int| 0 <= k < self.blocks@.len() && self.blocks@[k] == h;
                proof {
                    lemma_choice_serves(bl, req as int, i);
                    old(self).lemma_served(i, req as int);
                }
                self.refresh();
                self.fill(p, size, ALOC_FILL, Ghost(k));
                proof {
                    assert(choice(bl, req as int, i));
                    assert(self.blocks() == replace(bl, i, i + 1, split(bl[i], req as int)));
                    assert(self.blocks().contains(h));
                    assert forall|q: int|
                        0 <= q < self.bytes().len() && !(bl[i].tag <= q < bl[i].end())
                            implies self.bytes()[q] == old(self).bytes()[q] by {}
                }
            },
            None => {
                self.refresh();
                proof {
                    lemma_largest_unique(
                        bl,
                        self.largest_space as int,
                        old(self).largest_space as int,
                    );
                }
            },
        }
        res
    }

    /// The block whose payload starts at `ptr` is handed out and is `size`
    /// bytes long, or one tag width longer.
    pub open spec fn holds(&self, ptr: int, size: int) -> bool {
        let k = index_of(self.blocks(), ptr);
        let b = self.blocks()[k];
        &&& 0 <= k < self.blocks().len()
        &&& b.start() == ptr
        &&& b.allocated
        &&& (b.size == size || b.size == size + 8)
    }

    /// `ptr` and `size` are what `deallocate` may be called with: the start
    /// of a region handed out for `size` bytes.
    pub open spec fn owns(&self, ptr: int, size: int) -> bool {
        &&& self.holds(ptr, served(size))
        &&& round_up(size) >= 4096 ==> ptr % 4096 == 0
    }

    /// Whether `deallocate` may be called with `ptr` and `size`.
    pub fn owns_region(&self, ptr: usize, size: usize) -> (r: bool)
        requires
            self.laid_out(),
        ensures
            r == (size + 7 <= usize::MAX && self.owns(ptr as int, size as int)),
    {
        let n: usize = self.buf.len();
        let ghost bl = self.blocks@;
        if size > n || ptr < TAG_SIZE || ptr > n {
            proof {
                let k = index_of(bl, ptr as int);
                if 0 <= k < bl.len() {
                    lemma_ordered(bl, k, bl.len() - 1);
                }
            }
            return false;
        }
        let req: usize = round_to_tag(size);
        let mut at: usize = 0;
        let ghost mut i: int = 0;
        while at < n
            invariant
                self.laid_out(),
                bl == self.blocks@,
                n == self.buf@.len(),
                0 <= i <= bl.len(),
                i < bl.len() ==> at == bl[i].tag && at < n,
                i == bl.len() ==> at == n,
                forall|j: int| 0 <= j < i ==> (#[trigger] bl[j]).start() != ptr,
                req == round_up(size as int),
                size <= n,
                size + 7 <= usize::MAX,
            decreases bl.len() - i,
        {
            let cur = self.block_tag(at, Ghost(i));
            if at + TAG_SIZE == ptr {
                proof {
                    lemma_index_of(bl, i);
                }
                let have: usize = cur.size();
                if req >= PAGE_SIZE {
                    let pgs: usize = pg_size(req);
                    let whole = have % PAGE_SIZE == 0 && have / PAGE_SIZE == pgs;
                    let more = have >= TAG_SIZE && (have - TAG_SIZE) % PAGE_SIZE == 0 && (have
                        - TAG_SIZE) / PAGE_SIZE == pgs;
                    return cur.is_allocated() && (whole || more) && ptr % PAGE_SIZE == 0;
                } else {
                    return cur.is_allocated() && (have == req || (have > req && have - req == TAG_SIZE));
                }
            }
            at = cur.next(at);
            proof {
                i = i + 1;
            }
        }
        false
    }

    /// This state is `before` with the block at `ptr` marked free.
    pub open spec fn marked_free(&self, before: &BackupAllocator, ptr: int) -> bool {
        let k = index_of(before.blocks(), ptr);
        &&& self.laid_out()
        &&& self.largest() == before.largest()
        &&& self.took(before, k, seq![freed(before.blocks()[k])])
        &&& forall|q: int|
            0 <= q < self.bytes().len() && !(ptr - 8 <= q < ptr) ==> self.bytes()[q]
                == before.bytes()[q]
    }

    /// Marks the block at `ptr`, `size` bytes long, as free.
    pub fn deallocate_small(&mut self, ptr: usize, size: usize)
        requires
            old(self).laid_out(),
            old(self).holds(ptr as int, size as int),
        ensures
            final(self).marked_free(old(self), ptr as int),
    {
        let n: usize = self.buf.len();
        let ghost bl = self.blocks@;
        let ghost k = index_of(bl, ptr as int);
        let ghost before = self.buf@;
        let at: usize = ptr - TAG_SIZE;
        let mut t = self.block_tag(at, Ghost(k));
        t.set_free();
        store_word(&mut self.buf, at, t.0 as u64);
        proof {
            let mid = seq![freed(bl[k])];
            lemma_free_at(bl, k);
            assert(tags_match(self.buf@, mid));
            lemma_replace_chain(bl, n as int, k, k + 1, mid);
            lemma_replace_tags(before, self.buf@, bl, k, k + 1, mid);
            let s = replace(bl, k, k + 1, mid);
            self.blocks@ = s;
            assert forall|q: int| 0 <= q < n && !in_tag(s, q) implies self.buf@[q]
                == before[q] by {
                assert(s[k] == mid[0]);
            }
        }
    }

    /// Marks the block of `pgs` pages at `ptr` as free.
    pub fn deallocate_pages(&mut self, ptr: usize, pgs: usize)
        requires
            old(self).laid_out(),
            ptr % 4096 == 0,
            old(self).holds(ptr as int, pgs * 4096),
        ensures
            final(self).marked_free(old(self), ptr as int),
    {
        proof {
            lemma_ordered(self.blocks@, index_of(self.blocks@, ptr as int), self.blocks@.len() - 1);
        }
        self.deallocate_small(ptr, pgs * PAGE_SIZE);
    }

    /// Marks the block at `ptr` as free, by pages from one page on.
    pub fn real_deallocate(&mut self, ptr: usize, size: usize, _align: usize)
        requires
            old(self).laid_out(),
            size % 8 == 0,
            size >= 4096 ==> ptr % 4096 == 0,
            old(self).holds(ptr as int, served(size as int)),
        ensures
            final(self).marked_free(old(self), ptr as int),
    {
        if size >= PAGE_SIZE {
            self.deallocate_pages(ptr, pg_size(size))
        } else {
            self.deallocate_small(ptr, size)
        }
    }

    /// What `deallocate` leaves of `before`, for the region of `size` bytes
    /// at `ptr`.
    pub open spec fn released_from(&self, before: &BackupAllocator, ptr: int, size: int) -> bool {
        &&& self.wf()
        &&& self.total_pages() == before.total_pages()
        &&& self.threshold() == before.threshold()
        &&& self.bytes().len() == before.bytes().len()
        &&& forall|x: Block|
            #![trigger self.blocks().contains(x)]
            #![trigger before.blocks().contains(x)]
            x.allocated ==> (self.blocks().contains(x) <==> before.blocks().contains(x)
                && x.start() != ptr)
        &&& tags_within(self.blocks(), before.blocks())
        &&& forall|q: int| ptr <= q < ptr + size ==> self.bytes()[q] == FREE_FILL
        &&& forall|q: int|
            0 <= q < self.bytes().len() && !(ptr <= q < ptr + size) && !in_tag(before.blocks(), q)
                ==> self.bytes()[q] == before.bytes()[q]
    }

    /// Takes back the region of `size` bytes at `ptr`: fills it with
    /// `FREE_FILL`, marks its block free and merges free neighbours.
    pub fn deallocate(&mut self, ptr: usize, size: usize, align: usize)
        requires
            old(self).wf(),
            size + 7 <= usize::MAX,
            old(self).owns(ptr as int, size as int),
        ensures
            final(self).released_from(old(self), ptr as int, size as int),
    {
        let ghost bl = self.blocks@;
        let ghost k = index_of(bl, ptr as int);
        proof {
            lemma_ordered(bl, k, bl.len() - 1);
        }
        self.fill(ptr, size, FREE_FILL, Ghost(k));
        let req: usize = round_to_tag(size);
        self.real_deallocate(ptr, req, align);
        let ghost mid_blocks = self.blocks@;
                self.recalculate();
        proof {
            lemma_free_at(bl, k);
            assert(mid_blocks == free_at(bl, k));
            assert forall|q: int| ptr <= q < ptr + size implies self.buf@[q] == FREE_FILL by {
                lemma_payload_not_tag(mid_blocks, k, q);
            }
            assert forall|j: int| 0 <= j < self.blocks@.len() implies has_tag(
                bl,
                (#[trigger] self.blocks@[j]).tag as int,
            ) by {
                assert(has_tag(mid_blocks, self.blocks@[j].tag as int));
            }
        }
    }

    /// Whether the arena is in use and its largest free span has shrunk by
    /// more than the threshold.
    pub fn is_memory_low(&self) -> (r: bool)
        requires
            self.wf(),
        ensures
            r == (self.spec_is_used() && self.total_pages() - self.largest() > self.threshold()),
            self.largest() < self.total_pages(),
    {
        proof {
            self.lemma_largest_bound();
        }
        self.is_used() && self.pages - self.largest_space > self.threshold_pages
    }

    /// The largest free span is less than the arena.
    pub proof fn lemma_largest_bound(&self)
        requires
            self.wf(),
        ensures
            self.largest() < self.total_pages(),
    {
        let bl = self.blocks();
        if self.largest() != 0 {
            let k = choose|k: int|
                0 <= k < bl.len() && !(#[trigger] bl[k]).allocated && span_pages(bl[k].size as int)
                    == self.largest();
            lemma_ordered(bl, k, bl.len() - 1);
        }
    }

    /// Total payload of the free blocks, in bytes.
    pub fn calc_total_space(&self) -> (tot: usize)
        requires
            self.laid_out(),
        ensures
            tot == free_bytes(self.blocks()),
    {
        let n: usize = self.buf.len();
        let ghost bl = self.blocks@;
        let mut tot: usize = 0;
        let mut at: usize = 0;
        let ghost mut i: int = 0;
        while at < n
            invariant
                self.laid_out(),
                bl == self.blocks@,
                n == self.buf@.len(),
                0 <= i <= bl.len(),
                i < bl.len() ==> at == bl[i].tag && at < n,
                i == bl.len() ==> at == n,
                tot == free_bytes(bl.take(i)),
                tot <= at,
            decreases bl.len() - i,
        {
            let cur = self.block_tag(at, Ghost(i));
            proof {
                assert(bl.take(i + 1).drop_last() =~= bl.take(i));
                assert(bl.take(i + 1).last() == bl[i]);
            }
            if cur.is_free() {
                tot += cur.size();
            }
            at = cur.next(at);
            proof {
                i = i + 1;
            }
        }
        proof {
            assert(bl.take(i) =~= bl);
        }
        tot
    }

    /// One line of text for diagnostics: whether the arena is in use, its
    /// pages, the threshold, the cached largest free span in pages and the
    /// free bytes in all.
    pub fn describe(&self) -> (s: String)
        requires
            self.laid_out(),
        ensures
            s@ == rendered(
                self.spec_is_used(),
                self.total_pages(),
                self.threshold(),
                self.largest(),
                free_bytes(self.blocks()) as usize,
            ),
    {
        render(
            self.is_used(),
            self.pages,
            self.threshold_pages,
            self.largest_space,
            self.calc_total_space(),
        )
    }

    /// The byte at `pos`.
    pub fn load(&self, pos: usize) -> (r: u8)
        requires
            pos < self.bytes().len(),
        ensures
            r == self.bytes()[pos as int],
    {
        self.buf[pos]
    }

    /// `pos` lies in the payload of a block that is handed out.
    pub open spec fn is_live(&self, pos: int) -> bool {
        exists|k: int|
            0 <= k < self.blocks().len() && (#[trigger] self.blocks()[k]).allocated
                && self.blocks()[k].start() <= pos < self.blocks()[k].end()
    }

    /// Writes `value` at `pos` where `pos` lies in a region that is handed
    /// out, and says whether it does. Nothing is written elsewhere.
    pub fn store(&mut self, pos: usize, value: u8) -> (ok: bool)
        requires
            old(self).wf(),
        ensures
            ok == old(self).is_live(pos as int),
            final(self).wf(),
            final(self).blocks() == old(self).blocks(),
            final(self).total_pages() == old(self).total_pages(),
            final(self).threshold() == old(self).threshold(),
            final(self).largest() == old(self).largest(),
            ok ==> final(self).bytes() == old(self).bytes().update(pos as int, value),
            !ok ==> final(self).bytes() == old(self).bytes(),
    {
        let n: usize = self.buf.len();
        let ghost bl = self.blocks@;
        let mut at: usize = 0;
        let ghost mut i: int = 0;
        while at < n
            invariant
                *self == *old(self),
                self.wf(),
                bl == self.blocks@,
                n == self.buf@.len(),
                0 <= i <= bl.len(),
                i < bl.len() ==> at == bl[i].tag && at < n,
                i == bl.len() ==> at == n,
                forall|j: int|
                    0 <= j < i ==> !((#[trigger] bl[j]).allocated && bl[j].start() <= pos
                        < bl[j].end()),
            decreases bl.len() - i,
        {
            let cur = self.block_tag(at, Ghost(i));
            let next: usize = cur.next(at);
            if cur.is_allocated() && at + TAG_SIZE <= pos && pos < next {
                self.fill(pos, 1, value, Ghost(i));
                proof {
                    assert(bl[i].allocated && bl[i].start() <= pos < bl[i].end());
                    assert(self.buf@ =~= old(self).buf@.update(pos as int, value));
                }
                return true;
            }
            at = next;
            proof {
                i = i + 1;
            }
        }
        false
    }

    /// Gives a placeholder its arena, of the default size and threshold.
    /// An allocator that has one is left alone.
    pub fn finish(&mut self)
        requires
            old(self).is_placeholder() || old(self).wf(),
        ensures
            final(self).wf(),
            old(self).is_placeholder() ==> final(self).is_fresh(
                DEFAULT_BACKUP_PAGES,
                DEFAULT_THRESHOLD,
            ),
            !old(self).is_placeholder() ==> *final(self) == *old(self),
    {
        if self.buf.len() == 0 {
            *self = BackupAllocator::new(DEFAULT_BACKUP_PAGES, DEFAULT_THRESHOLD);
        }
    }
}

} // verus!
