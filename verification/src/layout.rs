//! The arena as a chain of blocks, and the tag words that encode it in place.

use vstd::prelude::*;
use vstd::bytes::*;
use vstd::slice::slice_subrange;

verus! {

/// One block of the arena: where its tag sits, how long its payload is, and
/// whether it is handed out.
pub struct Block {
    pub tag: usize,
    pub size: usize,
    pub allocated: bool,
}

impl Block {
    /// Offset of the first payload byte.
    pub open spec fn start(self) -> int {
        self.tag + 8
    }

    /// Offset just past the payload, where the next tag sits.
    pub open spec fn end(self) -> int {
        self.tag + 8 + self.size
    }

    /// The tag word that encodes this block.
    pub open spec fn word(self) -> int {
        self.size + if self.allocated { 1int } else { 0int }
    }

    /// The tag sits on a tag boundary and the payload is whole tag widths.
    pub open spec fn aligned(self) -> bool {
        self.tag % 8 == 0 && self.size % 8 == 0
    }
}

/// The word stored little-endian in the eight bytes at `at`.
pub open spec fn word_at(bytes: Seq<u8>, at: int) -> u64 {
    spec_u64_from_le_bytes(bytes.subrange(at, at + 8))
}

/// The blocks of `bl` follow one another without gap, each on a tag
/// boundary.
pub open spec fn linked(bl: Seq<Block>) -> bool {
    &&& forall|i: int| 0 <= i < bl.len() ==> (#[trigger] bl[i]).aligned()
    &&& forall|i: int, j: int|
        0 <= i && j == i + 1 && j < bl.len() ==> (#[trigger] bl[i]).end() == (#[trigger] bl[j]).tag
}

/// `bl` partitions an arena of `len` bytes.
pub open spec fn chain(bl: Seq<Block>, len: int) -> bool {
    &&& bl.len() >= 1
    &&& bl[0].tag == 0
    &&& linked(bl)
    &&& bl.last().end() == len
}

/// Every block of `bl` is introduced in `bytes` by the word that encodes it.
pub open spec fn tags_match(bytes: Seq<u8>, bl: Seq<Block>) -> bool {
    forall|i: int| 0 <= i < bl.len() ==> word_at(bytes, (#[trigger] bl[i]).tag as int) == bl[i].word()
}

/// No two neighbouring blocks are both free.
pub open spec fn coalesced(bl: Seq<Block>) -> bool {
    forall|i: int, j: int|
        0 <= i && j == i + 1 && j < bl.len() ==> (#[trigger] bl[i]).allocated || (#[trigger] bl[j]).allocated
}

/// Whole pages that a free span of `size` bytes is counted as: the pages
/// needed to hold it, less one.
pub open spec fn span_pages(size: int) -> int {
    if size == 0 {
        0
    } else {
        (size + 4095) / 4096 - 1
    }
}

/// `r` is the greatest page count of a free block of `bl`, or zero where none
/// is free.
pub open spec fn is_largest(bl: Seq<Block>, r: int) -> bool {
    &&& forall|i: int| 0 <= i < bl.len() && !(#[trigger] bl[i]).allocated ==> span_pages(bl[i].size as int) <= r
    &&& (r == 0 || exists|i: int| 0 <= i < bl.len() && !(#[trigger] bl[i]).allocated && span_pages(bl[i].size as int) == r)
}

/// `pos` lies in one of the tags of `bl`.
pub open spec fn in_tag(bl: Seq<Block>, pos: int) -> bool {
    exists|i: int| 0 <= i < bl.len() && (#[trigger] bl[i]).tag <= pos < bl[i].tag + 8
}

/// `bl` with the blocks from index `i` up to `j` replaced by `mid`.
pub open spec fn replace(bl: Seq<Block>, i: int, j: int, mid: Seq<Block>) -> Seq<Block> {
    bl.subrange(0, i) + mid + bl.subrange(j, bl.len() as int)
}

/// `mid` covers exactly the bytes of the blocks of `bl` from index `i` up to `j`.
pub open spec fn covers(bl: Seq<Block>, i: int, j: int, mid: Seq<Block>) -> bool {
    &&& 0 <= i < j <= bl.len()
    &&& mid.len() >= 1
    &&& linked(mid)
    &&& mid[0].tag == bl[i].tag
    &&& mid.last().end() == bl[j - 1].end()
}

/// Blocks of a chain come in address order.
pub proof fn lemma_ordered(bl: Seq<Block>, i: int, j: int)
    requires
        linked(bl),
        0 <= i <= j < bl.len(),
    ensures
        bl[i].end() <= bl[j].end(),
        i < j ==> bl[i].end() <= bl[j].tag,
    decreases j - i,
{
    if i < j {
        lemma_ordered(bl, i, j - 1);
        assert(bl[j - 1].end() == bl[j].tag);
    }
}

/// Replacing a run of blocks by another chain over the same bytes keeps the
/// partition.
pub proof fn lemma_replace_chain(bl: Seq<Block>, len: int, i: int, j: int, mid: Seq<Block>)
    requires
        chain(bl, len),
        covers(bl, i, j, mid),
    ensures
        chain(replace(bl, i, j, mid), len),
        replace(bl, i, j, mid).len() == bl.len() - (j - i) + mid.len(),
        replace(bl, i, j, mid).last() == if j == bl.len() {
            mid.last()
        } else {
            bl.last()
        },
{
    let s = replace(bl, i, j, mid);
    let m = mid.len() as int;
    assert forall|k: int| 0 <= k < s.len() implies (#[trigger] s[k]).aligned() by {
        if k < i {
            assert(s[k] == bl[k]);
        } else if k < i + m {
            assert(s[k] == mid[k - i]);
        } else {
            assert(s[k] == bl[k - i - m + j]);
        }
    }
    assert forall|k: int, k1: int| 0 <= k && k1 == k + 1 && k1 < s.len() implies (#[trigger] s[k]).end()
        == (#[trigger] s[k1]).tag by {
        if k + 1 < i {
            assert(s[k] == bl[k] && s[k + 1] == bl[k + 1]);
        } else if k + 1 == i {
            assert(s[k] == bl[k] && s[k + 1] == mid[0]);
        } else if k + 1 < i + m {
            assert(s[k] == mid[k - i] && s[k + 1] == mid[k + 1 - i]);
        } else if k + 1 == i + m {
            assert(s[k] == mid[m - 1] && s[k + 1] == bl[j]);
            assert(bl[j - 1].end() == bl[j].tag);
        } else {
            assert(s[k] == bl[k - i - m + j] && s[k + 1] == bl[k + 1 - i - m + j]);
        }
    }
    if i == 0 {
        assert(s[0] == mid[0]);
    } else {
        assert(s[0] == bl[0]);
    }
    if j == bl.len() {
        assert(s.last() == mid.last());
    } else {
        assert(s.last() == bl.last());
    }
}

/// Where the bytes outside the replaced run are untouched and the new blocks'
/// tags are in place, the tags still encode the chain.
pub proof fn lemma_replace_tags(
    bytes: Seq<u8>,
    after: Seq<u8>,
    bl: Seq<Block>,
    i: int,
    j: int,
    mid: Seq<Block>,
)
    requires
        linked(bl),
        tags_match(bytes, bl),
        covers(bl, i, j, mid),
        after.len() == bytes.len(),
        bl.last().end() <= bytes.len(),
        forall|p: int|
            0 <= p < bytes.len() && !(bl[i].tag <= p < bl[j - 1].end()) ==> after[p] == bytes[p],
        tags_match(after, mid),
    ensures
        tags_match(after, replace(bl, i, j, mid)),
{
    let s = replace(bl, i, j, mid);
    let m = mid.len() as int;
    assert forall|k: int| 0 <= k < s.len() implies word_at(after, (#[trigger] s[k]).tag as int)
        == s[k].word() by {
        if k < i {
            assert(s[k] == bl[k]);
            lemma_ordered(bl, k, i);
            lemma_ordered(bl, i, bl.len() - 1);
            lemma_word_frame(bytes, after, bl[k].tag as int);
        } else if k < i + m {
            assert(s[k] == mid[k - i]);
        } else {
            let q = k - i - m + j;
            assert(s[k] == bl[q]);
            lemma_ordered(bl, j - 1, q);
            lemma_ordered(bl, q, bl.len() - 1);
            lemma_word_frame(bytes, after, bl[q].tag as int);
        }
    }
}

/// A word is read from its eight bytes alone.
pub proof fn lemma_word_frame(bytes: Seq<u8>, after: Seq<u8>, at: int)
    requires
        0 <= at,
        at + 8 <= bytes.len(),
        after.len() == bytes.len(),
        forall|p: int| at <= p < at + 8 ==> after[p] == bytes[p],
    ensures
        word_at(after, at) == word_at(bytes, at),
{
    assert(after.subrange(at, at + 8) =~= bytes.subrange(at, at + 8));
}

/// Replacing a run keeps neighbours from both being free, where the new
/// blocks do so among themselves and towards the blocks on either side.
pub proof fn lemma_replace_coalesced(bl: Seq<Block>, i: int, j: int, mid: Seq<Block>)
    requires
        coalesced(bl),
        0 <= i < j <= bl.len(),
        mid.len() >= 1,
        coalesced(mid),
        i > 0 ==> bl[i - 1].allocated || mid[0].allocated,
        j < bl.len() ==> bl[j].allocated || mid.last().allocated,
    ensures
        coalesced(replace(bl, i, j, mid)),
{
    let s = replace(bl, i, j, mid);
    let m = mid.len() as int;
    assert forall|k: int, k1: int| 0 <= k && k1 == k + 1 && k1 < s.len() implies (
    #[trigger] s[k]).allocated || (#[trigger] s[k1]).allocated by {
        if k + 1 < i {
            assert(s[k] == bl[k] && s[k + 1] == bl[k + 1]);
        } else if k + 1 == i {
            assert(s[k] == bl[k] && s[k + 1] == mid[0]);
        } else if k + 1 < i + m {
            assert(s[k] == mid[k - i] && s[k + 1] == mid[k + 1 - i]);
        } else if k + 1 == i + m {
            assert(s[k] == mid[m - 1] && s[k + 1] == bl[j]);
        } else {
            assert(s[k] == bl[k - i - m + j] && s[k + 1] == bl[k + 1 - i - m + j]);
        }
    }
}

/// Two neighbouring free blocks taken as one: the second block's tag and
/// payload become payload of the first.
pub open spec fn merged(a: Block, b: Block) -> Block {
    Block { tag: a.tag, size: (a.size + 8 + b.size) as usize, allocated: false }
}

/// `bl` with blocks `i` and `i + 1` merged.
pub open spec fn merge_at(bl: Seq<Block>, i: int) -> Seq<Block> {
    replace(bl, i, i + 2, seq![merged(bl[i], bl[i + 1])])
}

/// Some block of `bl` has its tag at `t`.
pub open spec fn has_tag(bl: Seq<Block>, t: int) -> bool {
    exists|k: int| 0 <= k < bl.len() && (#[trigger] bl[k]).tag == t
}

/// Every tag of `a` is a tag of `b`.
pub open spec fn tags_within(a: Seq<Block>, b: Seq<Block>) -> bool {
    forall|k: int| 0 <= k < a.len() ==> has_tag(b, (#[trigger] a[k]).tag as int)
}

/// `a` and `b` hold the same allocated blocks.
pub open spec fn same_live(a: Seq<Block>, b: Seq<Block>) -> bool {
    forall|x: Block|
        #![trigger a.contains(x)]
        #![trigger b.contains(x)]
        x.allocated ==> (a.contains(x) <==> b.contains(x))
}

/// What merging two free neighbours does to the chain.
pub proof fn lemma_merge(bl: Seq<Block>, i: int)
    requires
        linked(bl),
        0 <= i,
        i + 1 < bl.len(),
        bl.last().end() <= usize::MAX,
        !bl[i].allocated,
        !bl[i + 1].allocated,
    ensures
        ({
            let s = merge_at(bl, i);
            let m = merged(bl[i], bl[i + 1]);
            &&& s.len() == bl.len() - 1
            &&& forall|k: int| 0 <= k < i ==> #[trigger] s[k] == bl[k]
            &&& s[i] == m
            &&& forall|k: int| i < k < s.len() ==> #[trigger] s[k] == bl[k + 1]
            &&& covers(bl, i, i + 2, seq![m])
            &&& m.size == bl[i].size + 8 + bl[i + 1].size
            &&& m.end() == bl[i + 1].end()
            &&& same_live(s, bl)
            &&& tags_within(s, bl)
        }),
{
    let s = merge_at(bl, i);
    let m = merged(bl[i], bl[i + 1]);
    lemma_ordered(bl, i + 1, bl.len() - 1);
    assert(bl[i].end() == bl[i + 1].tag);
    assert(bl[i].aligned() && bl[i + 1].aligned());
    assert(m.aligned());
    assert(seq![m][0] == m);
    assert forall|x: Block| x.allocated implies (s.contains(x) <==> bl.contains(x)) by {
        if bl.contains(x) {
            let k = choose|k: int| 0 <= k < bl.len() && bl[k] == x;
            if k < i {
                assert(s[k] == x);
            } else {
                assert(s[k - 1] == x);
            }
        }
        if s.contains(x) {
            let k = choose|k: int| 0 <= k < s.len() && s[k] == x;
            if k < i {
                assert(bl[k] == x);
            } else {
                assert(bl[k + 1] == x);
            }
        }
    }
    assert forall|k: int| 0 <= k < s.len() implies has_tag(bl, (#[trigger] s[k]).tag as int) by {
        if k <= i {
            assert(bl[k].tag == s[k].tag);
        } else {
            assert(bl[k + 1].tag == s[k].tag);
        }
    }
}

/// No payload byte lies in a tag.
pub proof fn lemma_payload_not_tag(bl: Seq<Block>, k: int, q: int)
    requires
        linked(bl),
        0 <= k < bl.len(),
        bl[k].start() <= q < bl[k].end(),
    ensures
        !in_tag(bl, q),
{
    assert forall|j: int| 0 <= j < bl.len() implies !((#[trigger] bl[j]).tag <= q < bl[j].tag + 8) by {
        if j < k {
            lemma_ordered(bl, j, k);
        } else if j > k {
            lemma_ordered(bl, k, j);
        }
    }
}

/// The largest free span is one number.
pub proof fn lemma_largest_unique(bl: Seq<Block>, a: int, b: int)
    requires
        is_largest(bl, a),
        is_largest(bl, b),
        0 <= a,
        0 <= b,
    ensures
        a == b,
{
}

/// Index of the block whose payload starts at `ptr`.
pub open spec fn index_of(bl: Seq<Block>, ptr: int) -> int {
    choose|k: int| 0 <= k < bl.len() && (#[trigger] bl[k]).start() == ptr
}

/// A block is found again by where its payload starts.
pub proof fn lemma_index_of(bl: Seq<Block>, j: int)
    requires
        linked(bl),
        0 <= j < bl.len(),
    ensures
        index_of(bl, bl[j].start()) == j,
{
    let k = index_of(bl, bl[j].start());
    assert(0 <= k < bl.len() && bl[k].start() == bl[j].start());
    if k < j {
        lemma_ordered(bl, k, j);
    } else if j < k {
        lemma_ordered(bl, j, k);
    }
}

/// Block `b` given back.
pub open spec fn freed(b: Block) -> Block {
    Block { tag: b.tag, size: b.size, allocated: false }
}

/// `bl` with block `k` given back.
pub open spec fn free_at(bl: Seq<Block>, k: int) -> Seq<Block> {
    replace(bl, k, k + 1, seq![freed(bl[k])])
}

/// Giving a block back takes it, and it alone, from the allocated blocks,
/// and moves no tag.
pub proof fn lemma_free_at(bl: Seq<Block>, k: int)
    requires
        linked(bl),
        0 <= k < bl.len(),
        bl[k].allocated,
    ensures
        ({
            let s = free_at(bl, k);
            &&& s =~= bl.update(k, freed(bl[k]))
            &&& covers(bl, k, k + 1, seq![freed(bl[k])])
            &&& forall|x: Block|
                #![trigger s.contains(x)]
                #![trigger bl.contains(x)]
                x.allocated ==> (s.contains(x) <==> bl.contains(x) && x.start() != bl[k].start())
            &&& forall|q: int| in_tag(s, q) <==> in_tag(bl, q)
            &&& forall|t: int| has_tag(s, t) <==> has_tag(bl, t)
        }),
{
    let s = free_at(bl, k);
    let u = bl.update(k, freed(bl[k]));
    assert(s =~= u);
    assert(bl[k].aligned());
    assert(seq![freed(bl[k])][0] == freed(bl[k]));
    assert forall|x: Block| x.allocated implies (s.contains(x) <==> bl.contains(x) && x.start()
        != bl[k].start()) by {
        if bl.contains(x) && x.start() != bl[k].start() {
            let j = choose|j: int| 0 <= j < bl.len() && bl[j] == x;
            assert(s[j] == x);
        }
        if s.contains(x) {
            let j = choose|j: int| 0 <= j < s.len() && s[j] == x;
            assert(j != k);
            assert(bl[j] == x);
            if j < k {
                lemma_ordered(bl, j, k);
            } else {
                lemma_ordered(bl, k, j);
            }
        }
    }
    assert forall|q: int| in_tag(s, q) <==> in_tag(bl, q) by {
        if in_tag(s, q) {
            let j = choose|j: int| 0 <= j < s.len() && (#[trigger] s[j]).tag <= q < s[j].tag + 8;
            assert(bl[j].tag == s[j].tag);
        }
        if in_tag(bl, q) {
            let j = choose|j: int| 0 <= j < bl.len() && (#[trigger] bl[j]).tag <= q < bl[j].tag + 8;
            assert(s[j].tag == bl[j].tag);
        }
    }
    assert forall|t: int| has_tag(s, t) <==> has_tag(bl, t) by {
        if has_tag(s, t) {
            let j = choose|j: int| 0 <= j < s.len() && (#[trigger] s[j]).tag == t;
            assert(bl[j].tag == s[j].tag);
        }
        if has_tag(bl, t) {
            let j = choose|j: int| 0 <= j < bl.len() && (#[trigger] bl[j]).tag == t;
            assert(s[j].tag == bl[j].tag);
        }
    }
}

/// Total payload of the free blocks of `bl`.
pub open spec fn free_bytes(bl: Seq<Block>) -> int
    decreases bl.len(),
{
    if bl.len() == 0 {
        0
    } else {
        free_bytes(bl.drop_last()) + if bl.last().allocated {
            0int
        } else {
            bl.last().size as int
        }
    }
}

/// Reads the word stored at `at`.
pub fn load_word(buf: &Vec<u8>, at: usize) -> (w: u64)
    requires
        at + 8 <= buf@.len(),
    ensures
        w == word_at(buf@, at as int),
{
    let n: usize = buf.len();
    u64_from_le_bytes(slice_subrange(buf.as_slice(), at, at + 8))
}

/// Writes `w` at `at` and leaves every other byte alone.
pub fn store_word(buf: &mut Vec<u8>, at: usize, w: u64)
    requires
        at + 8 <= old(buf)@.len(),
    ensures
        final(buf)@.len() == old(buf)@.len(),
        word_at(final(buf)@, at as int) == w,
        forall|p: int|
            0 <= p < old(buf)@.len() && !(at <= p < at + 8) ==> final(buf)@[p] == old(buf)@[p],
{
    let b = u64_to_le_bytes(w);
    let n: usize = buf.len();
    let mut k: usize = 0;
    while k < 8
        invariant
            k <= 8,
            b@.len() == 8,
            at + 8 <= n,
            at + 8 <= buf@.len(),
            buf@.len() == old(buf)@.len(),
            forall|q: int| 0 <= q < k ==> buf@[at + q] == b@[q],
            forall|p: int|
                0 <= p < old(buf)@.len() && !(at <= p < at + 8) ==> buf@[p] == old(buf)@[p],
        decreases 8 - k,
    {
        buf.set(at + k, b[k]);
        k += 1;
    }
    proof {
        lemma_auto_spec_u64_to_from_le_bytes();
        assert(buf@.subrange(at as int, at + 8) =~= b@);
    }
}

} // verus!
