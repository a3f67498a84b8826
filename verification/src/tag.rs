//! The boundary tag: one word holding a block's size and allocation flag.

use vstd::prelude::*;

verus! {

/// Bytes in one page.
pub const PAGE_SIZE: usize = 4096;

/// Bytes taken by one boundary tag.
pub const TAG_SIZE: usize = 8;

/// Number of pages needed to hold `u` bytes.
pub open spec fn pages_for(u: int) -> int {
    (u + 4095) / 4096
}

/// Number of pages needed to hold `u` bytes.
pub fn pg_size(u: usize) -> (r: usize)
    ensures
        r == pages_for(u as int),
{
    if u % PAGE_SIZE == 0 {
        u / PAGE_SIZE
    } else {
        u / PAGE_SIZE + 1
    }
}

/// Where a run of `pages` pages lies inside the free block whose tag sits at
/// `at` and whose payload is `size` bytes long: the offset of the tag that
/// introduces the run and the offset of the tag that follows it. The run is
/// pushed as far towards the end of the block as page alignment allows.
#[verifier::opaque]
pub open spec fn carve(at: int, size: int, pages: int) -> Option<(int, int)> {
    let first = at + 8;
    let pre = (4096 - first % 4096) % 4096;
    let nbytes = pages * 4096;
    let next = first + size;
    let end = next - next % 4096;
    if size < nbytes + pre {
        None
    } else {
        Some((end - nbytes - 8, end))
    }
}

/// A boundary tag. The lowest bit of the word is set when the block is
/// allocated; the remaining bits are the size of the payload in bytes.
#[derive(Clone, Copy, Debug)]
pub struct Tag(pub usize);

impl Tag {
    /// The payload size that the word encodes.
    pub open spec fn spec_size(self) -> usize {
        (self.0 - self.0 % 2) as usize
    }

    /// Whether the word encodes an allocated block.
    pub open spec fn spec_allocated(self) -> bool {
        self.0 % 2 == 1
    }

    /// A tag for a free block of `size` bytes.
    pub fn new(size: usize) -> (t: Tag)
        requires
            size % 2 == 0,
        ensures
            t.0 == size,
            t.spec_size() == size,
            !t.spec_allocated(),
    {
        Tag(size)
    }

    /// Offset of the first payload byte of the block whose tag sits at `at`.
    pub fn get_start(&self, at: usize) -> (r: usize)
        requires
            at + 8 <= usize::MAX,
        ensures
            r == at + 8,
    {
        at + TAG_SIZE
    }

    /// Whether the block is handed out.
    pub fn is_allocated(&self) -> (r: bool)
        ensures
            r == self.spec_allocated(),
    {
        self.0 % 2 != 0
    }

    /// Whether the block is free.
    pub fn is_free(&self) -> (r: bool)
        ensures
            r == !self.spec_allocated(),
    {
        !self.is_allocated()
    }

    /// Sets the flag and keeps the size.
    pub fn set_allocated(&mut self)
        ensures
            final(self).spec_allocated(),
            final(self).spec_size() == old(self).spec_size(),
            final(self).0 == old(self).spec_size() + 1,
    {
        if self.0 % 2 == 0 {
            *self = Tag(self.0 + 1);
        }
    }

    /// Rewrites the word as the bare size, which clears the flag.
    pub fn set_free(&mut self)
        ensures
            !final(self).spec_allocated(),
            final(self).spec_size() == old(self).spec_size(),
            final(self).0 == old(self).spec_size(),
    {
        *self = Tag(self.size());
    }

    /// Size of the payload in bytes.
    pub fn size(&self) -> (r: usize)
        ensures
            r == self.spec_size(),
    {
        self.0 - self.0 % 2
    }

    /// Rewrites the size and keeps the flag.
    pub fn set_size(&mut self, size: usize)
        requires
            size % 2 == 0,
        ensures
            final(self).spec_size() == size,
            final(self).spec_allocated() == old(self).spec_allocated(),
            final(self).0 == size + if old(self).spec_allocated() { 1int } else { 0int },
    {
        if self.is_allocated() {
            *self = Tag(size + 1);
        } else {
            *self = Tag(size);
        }
    }

    /// Offset of the tag that follows the block whose tag sits at `at`. The
    /// arena's extent is not consulted.
    pub fn next(&self, at: usize) -> (r: usize)
        requires
            at + 8 + self.spec_size() <= usize::MAX,
        ensures
            r == at + 8 + self.spec_size(),
    {
        at + TAG_SIZE + self.size()
    }

    /// Places `requested_pages` pages inside this free block, whose tag sits
    /// at `at`, as near to the block's end as page alignment allows.
    pub fn get_page_aligned_part(&self, at: usize, requested_pages: usize) -> (r: Option<
        (usize, usize),
    >)
        requires
            !self.spec_allocated(),
            at + 8 + self.spec_size() <= usize::MAX,
        ensures
            match carve(at as int, self.spec_size() as int, requested_pages as int) {
                None => r is None,
                Some(c) => r == Some((c.0 as usize, c.1 as usize)) && 0 <= c.0 <= c.1 <= usize::MAX,
            },
    {
        reveal(carve);
        let size: usize = self.size();
        let first: usize = at + TAG_SIZE;
        let pre_bytes: usize = (PAGE_SIZE - first % PAGE_SIZE) % PAGE_SIZE;
        if requested_pages > size / PAGE_SIZE {
            return None;
        }
        let nbytes: usize = requested_pages * PAGE_SIZE;
        if size - nbytes < pre_bytes {
            None
        } else {
            let next: usize = first + size;
            let end: usize = next - next % PAGE_SIZE;
            Some((end - nbytes - TAG_SIZE, end))
        }
    }
}

} // verus!
