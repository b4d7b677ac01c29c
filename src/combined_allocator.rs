//! The heap: pages carved on demand from a fixed region, and a cache of
//! released addresses consulted before any page.
use vstd::prelude::*;
use crate::page::{
    align_up, block_len, covers, disjoint, end_of, fits, free_list_canonical, has_free_slot, is_first_free,
    lemma_align_up, routes_small, Page, PageClass, PAGE_SIZE, SMALL_BLOCK_SIZE,
};

verus! {

/// Size of the kernel heap region.
pub const HEAP_SIZE: usize = 200 * 1024;

/// Largest size whose released blocks go to the recycle cache.
pub const MAX_CACHEABLE_SIZE: usize = 1024;

/// The heap allocator.
///
/// `cache` holds `(address, size)` pairs of released blocks, the most
/// recent last; they stay recorded as live in their pages.
pub struct CombinedAllocator {
    pub heap_start: usize,
    pub heap_end: usize,
    /// Start of the next page to carve.
    pub heap_current: usize,
    pub pages: Vec<Page>,
    pub cache: Vec<(usize, usize)>,
}

pub open spec fn cache_match(e: (usize, usize), size: int, align: int) -> bool {
    e.1 == size && (e.0 as int) % align == 0
}

pub open spec fn is_top_match(c: Seq<(usize, usize)>, size: int, align: int, k: int) -> bool {
    &&& 0 <= k < c.len()
    &&& cache_match(c[k], size, align)
    &&& forall|j: int| k < j < c.len() ==> !cache_match(#[trigger] c[j], size, align)
}

pub open spec fn has_cache_match(c: Seq<(usize, usize)>, size: int, align: int) -> bool {
    exists|k: int| 0 <= k < c.len() && cache_match(#[trigger] c[k], size, align)
}

/// The most recently cached entry that the request can reuse.
pub open spec fn top_match(c: Seq<(usize, usize)>, size: int, align: int) -> int {
    choose|k: int| is_top_match(c, size, align, k)
}

pub open spec fn is_first_serving(pages: Seq<Page>, size: int, align: int, i: int) -> bool {
    &&& 0 <= i < pages.len()
    &&& pages[i].serves(size, align)
    &&& forall|j: int| 0 <= j < i ==> !(#[trigger] pages[j]).serves(size, align)
}

pub open spec fn some_page_serves(pages: Seq<Page>, size: int, align: int) -> bool {
    exists|i: int| 0 <= i < pages.len() && (#[trigger] pages[i]).serves(size, align)
}

/// The oldest page that can take the request.
pub open spec fn first_serving(pages: Seq<Page>, size: int, align: int) -> int {
    choose|i: int| is_first_serving(pages, size, align, i)
}

/// Requests the allocator accepts: a non-zero alignment small enough that
/// aligning an address of the region cannot overflow.
pub open spec fn valid_request(heap_end: int, size: int, align: int) -> bool {
    &&& 0 < align
    &&& heap_end + align <= usize::MAX
}

/// The class of page that serves requests of this shape.
pub open spec fn class_for(size: int, align: int) -> PageClass {
    if routes_small(size, align) {
        PageClass::Small
    } else {
        PageClass::Large
    }
}

proof fn lemma_top_match(c: Seq<(usize, usize)>, size: int, align: int, k: int)
    requires
        is_top_match(c, size, align, k),
    ensures
        top_match(c, size, align) == k,
{
    let t = top_match(c, size, align);
    assert(is_top_match(c, size, align, t));
    if t < k {
        assert(!cache_match(c[k], size, align));
    } else if k < t {
        assert(!cache_match(c[t], size, align));
    }
}

proof fn lemma_first_serving(pages: Seq<Page>, size: int, align: int, i: int)
    requires
        is_first_serving(pages, size, align, i),
    ensures
        first_serving(pages, size, align) == i,
{
    let t = first_serving(pages, size, align);
    assert(is_first_serving(pages, size, align, t));
    if t < i {
        assert(!pages[t].serves(size, align));
    } else if i < t {
        assert(!pages[i].serves(size, align));
    }
}

proof fn lemma_page_index(heap_start: int, i: int, a: int)
    requires
        0 <= i,
        heap_start + i * PAGE_SIZE <= a < heap_start + i * PAGE_SIZE + PAGE_SIZE,
    ensures
        (a - heap_start) / PAGE_SIZE as int == i,
{
    vstd::arithmetic::div_mod::lemma_fundamental_div_mod(a - heap_start, PAGE_SIZE as int);
    vstd::arithmetic::div_mod::lemma_mod_bound(a - heap_start, PAGE_SIZE as int);
}

impl CombinedAllocator {
    pub open spec fn wf(&self) -> bool {
        let pages = self.pages@;
        &&& 0 < self.heap_start
        &&& self.heap_start % PAGE_SIZE == 0
        &&& self.heap_start <= self.heap_current <= self.heap_end
        &&& self.heap_end + 2 * PAGE_SIZE <= usize::MAX
        &&& self.heap_current == self.heap_start + pages.len() * PAGE_SIZE
        &&& forall|i: int|
            0 <= i < pages.len() ==> (#[trigger] pages[i]).wf() && pages[i].start
                == self.heap_start + i * PAGE_SIZE
        &&& forall|k: int|
            0 <= k < self.cache@.len() ==> self.heap_start <= (#[trigger] self.cache@[k]).0 && self.cache@[k].0
                + self.cache@[k].1 <= self.heap_current
        &&& forall|k: int|
            0 <= k < self.cache@.len() ==> (#[trigger] self.cache@[k]).1 <= MAX_CACHEABLE_SIZE
                && self.is_live(self.cache@[k].0 as int, self.cache@[k].1 as int)
    }

    /// Room is left in the region for one more page.
    pub open spec fn can_grow(&self) -> bool {
        self.heap_current + PAGE_SIZE <= self.heap_end
    }

    /// A fresh page at the growth cursor can take the request.
    pub open spec fn fresh_serves(&self, size: int, align: int) -> bool {
        routes_small(size, align) || align_up(self.heap_current as int, align) - self.heap_current
            + block_len(size) <= PAGE_SIZE
    }

    /// Address that a fresh page at the growth cursor hands out.
    pub open spec fn fresh_addr(&self, size: int, align: int) -> int {
        if routes_small(size, align) {
            self.heap_current as int
        } else {
            align_up(self.heap_current as int, align)
        }
    }

    /// The request is served by one of the existing pages.
    pub open spec fn serves_from_pages(&self, size: int, align: int) -> bool {
        &&& valid_request(self.heap_end as int, size, align)
        &&& !has_cache_match(self.cache@, size, align)
        &&& some_page_serves(self.pages@, size, align)
    }

    /// The request is served by carving a new page.
    pub open spec fn grows(&self, size: int, align: int) -> bool {
        &&& valid_request(self.heap_end as int, size, align)
        &&& !has_cache_match(self.cache@, size, align)
        &&& !some_page_serves(self.pages@, size, align)
        &&& self.can_grow()
    }

    /// What `allocate` returns: a cached block of the same size and a fitting
    /// alignment, else the oldest page that can take the request, else a
    /// new page; 0 when none of these can.
    pub open spec fn alloc_result(&self, size: int, align: int) -> int {
        if !valid_request(self.heap_end as int, size, align) {
            0
        } else if has_cache_match(self.cache@, size, align) {
            self.cache@[top_match(self.cache@, size, align)].0 as int
        } else if some_page_serves(self.pages@, size, align) {
            self.pages@[first_serving(self.pages@, size, align)].addr_for(size, align)
        } else if self.can_grow() && self.fresh_serves(size, align) {
            self.fresh_addr(size, align)
        } else {
            0
        }
    }

    /// Index of the page whose range holds `ptr`.
    pub open spec fn page_index(&self, ptr: int) -> int {
        (ptr - self.heap_start) / PAGE_SIZE as int
    }

    /// `(ptr, size)` lies in a carved page that records it as handed out.
    pub open spec fn is_live(&self, ptr: int, size: int) -> bool {
        &&& self.heap_start <= ptr < self.heap_current
        &&& self.pages@[self.page_index(ptr)].holds(ptr, size)
    }

    /// What `deallocate(ptr, size)` leaves: a pair that is not live changes
    /// nothing; a live block of a cacheable size goes to the cache (once)
    /// and stays live in its page; a larger one returns to its page's free
    /// list.
    pub open spec fn dealloc_post(&self, before: &CombinedAllocator, ptr: int, size: int) -> bool {
        &&& self.heap_start == before.heap_start
        &&& self.heap_end == before.heap_end
        &&& self.heap_current == before.heap_current
        &&& self.pages@.len() == before.pages@.len()
        &&& if !before.is_live(ptr, size) {
            &&& self.pages@ == before.pages@
            &&& self.cache@ == before.cache@
        } else if size <= MAX_CACHEABLE_SIZE {
            &&& self.pages@ == before.pages@
            &&& self.cache@ == if before.cache@.contains((ptr as usize, size as usize)) {
                before.cache@
            } else {
                before.cache@.push((ptr as usize, size as usize))
            }
        } else {
            let idx = before.page_index(ptr);
            &&& self.cache@ == before.cache@
            &&& forall|j: int| 0 <= j < self.pages@.len() && j != idx ==> self.pages@[j] == before.pages@[j]
            &&& self.pages@[idx].released_from(&before.pages@[idx], ptr - before.pages@[idx].start, size)
        }
    }

    /// An empty heap over `[heap_start, heap_start + heap_size)`.
    pub fn new(heap_start: usize, heap_size: usize) -> (h: CombinedAllocator)
        requires
            0 < heap_start,
            heap_start % PAGE_SIZE == 0,
            heap_start + heap_size + 2 * PAGE_SIZE <= usize::MAX,
        ensures
            h.wf(),
            h.heap_start == heap_start,
            h.heap_end == heap_start + heap_size,
            h.heap_current == heap_start,
            h.pages@.len() == 0,
            h.cache@.len() == 0,
    {
        CombinedAllocator {
            heap_start,
            heap_end: heap_start + heap_size,
            heap_current: heap_start,
            pages: Vec::new(),
            cache: Vec::new(),
        }
    }

    /// Carves the next page of the region for `class`; returns its index.
    fn allocate_page(&mut self, class: PageClass) -> (r: Option<usize>)
        requires
            old(self).wf(),
        ensures
            final(self).wf(),
            final(self).heap_start == old(self).heap_start,
            final(self).heap_end == old(self).heap_end,
            final(self).cache@ == old(self).cache@,
            old(self).can_grow() ==> r == Some(old(self).pages@.len() as usize) && final(self).pages@.len()
                == old(self).pages@.len() + 1 && final(self).pages@.take(
                old(self).pages@.len() as int,
            ) == old(self).pages@ && final(self).heap_current == old(self).heap_current
                + PAGE_SIZE && final(self).pages@.last().is_fresh(old(self).heap_current as int, class),
            !old(self).can_grow() ==> r.is_none() && *final(self) == *old(self),
    {
        let cur = self.heap_current;
        if cur + PAGE_SIZE <= self.heap_end {
            let ghost old_pages = self.pages@;
            let page = Page::new(cur, class);
            let idx = self.pages.len();
            self.pages.push(page);
            self.heap_current = cur + PAGE_SIZE;
            assert(self.pages@.take(old_pages.len() as int) =~= old_pages);
            Some(idx)
        } else {
            None
        }
    }

    /// Allocates `size` bytes aligned to `align`. Returns the address, or 0
    /// when the request cannot be served.
    ///
    /// A cached block is reused only for a request of its own size whose
    /// alignment it meets. Otherwise the request goes to the slots when it
    /// fits one and every slot address meets the alignment, else to the
    /// large-block path; pages are asked in creation order, and one new page
    /// is carved when none can take it.
    pub fn allocate(&mut self, size: usize, align: usize) -> (r: usize)
        requires
            old(self).wf(),
        ensures
            final(self).wf(),
            r == old(self).alloc_result(size as int, align as int),
            r != 0 ==> align > 0 && r % align == 0 && final(self).heap_start <= r && r + size
                <= final(self).heap_end,
            r != 0 ==> final(self).is_live(r as int, size as int),
            forall|p: int, z: int| #[trigger] old(self).is_live(p, z) ==> final(self).is_live(p, z),
            r != 0 && !has_cache_match(old(self).cache@, size as int, align as int) ==> forall|z: int|
                !#[trigger] old(self).is_live(r as int, z),
            final(self).heap_start == old(self).heap_start,
            final(self).heap_end == old(self).heap_end,
            old(self).grows(size as int, align as int) ==> final(self).pages@.len() == old(self).pages@.len() + 1 && final(self).heap_current == old(self).heap_current + PAGE_SIZE,
            !old(self).grows(size as int, align as int) ==> final(self).pages@.len() == old(self).pages@.len() && final(self).heap_current == old(self).heap_current,
            valid_request(old(self).heap_end as int, size as int, align as int) && has_cache_match(
                old(self).cache@,
                size as int,
                align as int,
            ) ==> final(self).cache@ == old(self).cache@.remove(
                top_match(old(self).cache@, size as int, align as int),
            ) && final(self).pages@ == old(self).pages@,
            !(valid_request(old(self).heap_end as int, size as int, align as int) && has_cache_match(
                old(self).cache@,
                size as int,
                align as int,
            )) ==> final(self).cache@ == old(self).cache@,
            old(self).serves_from_pages(size as int, align as int) ==> ({
                let i = first_serving(old(self).pages@, size as int, align as int);
                &&& final(self).pages@.len() == old(self).pages@.len()
                &&& forall|j: int|
                    0 <= j < old(self).pages@.len() && j != i ==> final(self).pages@[j] == old(self).pages@[j]
                &&& final(self).pages@[i].allocated_from(&old(self).pages@[i], size as int, align as int)
            }),
            old(self).grows(size as int, align as int) ==> final(self).pages@.take(
                old(self).pages@.len() as int,
            ) == old(self).pages@ && exists|q: Page|
                #[trigger] q.is_fresh(old(self).heap_current as int, class_for(size as int, align as int))
                    && if old(self).fresh_serves(size as int, align as int) {
                    final(self).pages@.last().allocated_from(&q, size as int, align as int)
                } else {
                    final(self).pages@.last().same_as(&q)
                },
            !valid_request(old(self).heap_end as int, size as int, align as int) ==> final(self).pages@ == old(self).pages@,
            r == 0 && !old(self).grows(size as int, align as int) ==> final(self).pages@ == old(self).pages@ && final(self).cache@ == old(self).cache@ && final(self).heap_current == old(self).heap_current && final(self).heap_start == old(self).heap_start && final(self).heap_end
                == old(self).heap_end,
    {
        if align == 0 || align > usize::MAX - self.heap_end {
            return 0;
        }
        let small = size <= SMALL_BLOCK_SIZE && SMALL_BLOCK_SIZE % align == 0;
        let ghost old_cache = self.cache@;
        let mut k = self.cache.len();
        while k > 0
            invariant
                self.wf(),
                *self == *old(self),
                k <= self.cache@.len(),
                self.cache@ == old_cache,
                0 < align,
                self.heap_end + align <= usize::MAX,
                small == routes_small(size as int, align as int),
                forall|j: int|
                    k <= j < self.cache@.len() ==> !cache_match(
                        #[trigger] self.cache@[j],
                        size as int,
                        align as int,
                    ),
            decreases k,
        {
            k -= 1;
            let (addr, csize) = self.cache[k];
            if csize == size && addr % align == 0 {
                proof {
                    assert(is_top_match(old_cache, size as int, align as int, k as int));
                    assert(has_cache_match(old_cache, size as int, align as int));
                    assert(valid_request(self.heap_end as int, size as int, align as int));
                    lemma_top_match(old_cache, size as int, align as int, k as int);
                }
                self.cache.remove(k);
                proof {
                    assert forall|j: int| 0 <= j < self.cache@.len() implies self.heap_start
                        <= (#[trigger] self.cache@[j]).0 && self.cache@[j].0 + self.cache@[j].1
                        <= self.heap_current by {
                        if j >= k {
                            assert(self.cache@[j] == old_cache[j + 1]);
                        }
                    }
                    assert forall|j: int| 0 <= j < self.cache@.len() implies (#[trigger] self.cache@[j]).1
                        <= MAX_CACHEABLE_SIZE && self.is_live(self.cache@[j].0 as int, self.cache@[j].1 as int) by {
                        if j >= k {
                            assert(self.cache@[j] == old_cache[j + 1]);
                        } else {
                            assert(self.cache@[j] == old_cache[j]);
                        }
                    }
                    assert(old_cache[k as int] == (addr, csize));
                }
                return addr;
            }
        }
        let ghost old_pages = self.pages@;
        let n = self.pages.len();
        let mut i: usize = 0;
        while i < n
            invariant
                self.wf(),
                self.pages@ == old_pages,
                self.cache == old(self).cache,
                self.heap_start == old(self).heap_start,
                self.heap_end == old(self).heap_end,
                self.heap_current == old(self).heap_current,
                old_pages == old(self).pages@,
                n == old_pages.len(),
                i <= n,
                0 < align,
                self.heap_end + align <= usize::MAX,
                small == routes_small(size as int, align as int),
                !has_cache_match(self.cache@, size as int, align as int),
                forall|j: int| 0 <= j < i ==> !(#[trigger] old_pages[j]).serves(size as int, align as int),
            decreases n - i,
        {
            let r = self.pages[i].try_alloc(size, align);
            match r {
                Some(a) => {
                    proof {
                        assert(is_first_serving(old_pages, size as int, align as int, i as int));
                        lemma_first_serving(old_pages, size as int, align as int, i as int);
                        assert(some_page_serves(old_pages, size as int, align as int));
                        lemma_page_index(self.heap_start as int, i as int, a as int);
                        assert forall|j: int| 0 <= j < self.pages@.len() implies (
                        #[trigger] self.pages@[j]).wf() && self.pages@[j].start == self.heap_start
                            + j * PAGE_SIZE by {
                            if j != i {
                                assert(self.pages@[j] == old_pages[j]);
                            }
                        }
                        assert forall|m: int| 0 <= m < self.cache@.len() implies (
                        #[trigger] self.cache@[m]).1 <= MAX_CACHEABLE_SIZE && self.is_live(
                            self.cache@[m].0 as int,
                            self.cache@[m].1 as int,
                        ) by {
                            let e = self.cache@[m];
                            let pj = self.page_index(e.0 as int);
                            assert(old(self).is_live(e.0 as int, e.1 as int));
                            if pj == i {
                                assert(old_pages[pj].holds(e.0 as int, e.1 as int));
                            } else {
                                assert(self.pages@[pj] == old_pages[pj]);
                            }
                        }
                        assert forall|p: int, z: int| #[trigger] old(self).is_live(p, z) implies self.is_live(
                            p,
                            z,
                        ) by {
                            let pj = self.page_index(p);
                            if pj == i {
                                assert(old_pages[pj].holds(p, z));
                            } else {
                                assert(self.pages@[pj] == old_pages[pj]);
                            }
                        }
                        assert forall|z: int| !#[trigger] old(self).is_live(a as int, z) by {
                            assert(self.page_index(a as int) == i);
                        }
                    }
                    return a;
                },
                None => {
                    proof {
                        assert(self.pages@ =~= old_pages);
                    }
                },
            }
            i += 1;
        }
        let class = if small {
            PageClass::Small
        } else {
            PageClass::Large
        };
        let ghost before = *self;
        match self.allocate_page(class) {
            Some(idx) => {
                let ghost grown = self.pages@;
                let r = self.pages[idx].try_alloc(size, align);
                proof {
                    let p = grown[idx as int];
                    assert(p == grown.last());
                    if small {
                        assert(is_first_free(p.slots@, 0));
                        crate::page::lemma_first_free_unique(p.slots@, 0);
                        assert(has_free_slot(p.slots@));
                    } else {
                        assert(!p.has_fit(block_len(size as int), align as int));
                    }
                    assert forall|j: int| 0 <= j < self.pages@.len() implies (
                    #[trigger] self.pages@[j]).wf() && self.pages@[j].start == self.heap_start + j
                        * PAGE_SIZE by {
                        if j != idx {
                            assert(self.pages@[j] == grown[j]);
                        }
                        if j < idx {
                            assert(grown.take(idx as int)[j] == grown[j]);
                        }
                    }
                    assert forall|m: int| 0 <= m < self.cache@.len() implies (
                    #[trigger] self.cache@[m]).1 <= MAX_CACHEABLE_SIZE && self.is_live(
                        self.cache@[m].0 as int,
                        self.cache@[m].1 as int,
                    ) by {
                        let e = self.cache@[m];
                        let pj = self.page_index(e.0 as int);
                        assert(before.is_live(e.0 as int, e.1 as int));
                        assert(pj < idx);
                        assert(grown.take(idx as int)[pj] == grown[pj]);
                        assert(self.pages@[pj] == grown[pj]);
                    }
                    assert forall|p: int, z: int| #[trigger] before.is_live(p, z) implies self.is_live(p, z) by {
                        let pj = self.page_index(p);
                        assert(pj < idx);
                        assert(grown.take(idx as int)[pj] == grown[pj]);
                        assert(self.pages@[pj] == grown[pj]);
                    }
                }
                proof {
                    let q = grown[idx as int];
                    assert(q.is_fresh(before.heap_current as int, class_for(size as int, align as int)));
                    assert(self.pages@.take(idx as int) =~= before.pages@);
                    assert(self.pages@.last() == self.pages@[idx as int]);
                }
                match r {
                    Some(a) => {
                        proof {
                            lemma_page_index(self.heap_start as int, idx as int, a as int);
                        }
                        a
                    },
                    None => 0,
                }
            },
            None => 0,
        }
    }

    /// Releases the block `(ptr, size)`.
    ///
    /// A pair that is not a live block is ignored. A live block of a
    /// cacheable size goes to the cache, once, and keeps its place in its
    /// page, so it is never handed out twice. A larger one goes back to its
    /// page's free list and not to the cache.
    pub fn deallocate(&mut self, ptr: usize, size: usize)
        requires
            old(self).wf(),
        ensures
            final(self).wf(),
            final(self).dealloc_post(old(self), ptr as int, size as int),
    {
        if ptr < self.heap_start || ptr >= self.heap_current {
            return;
        }
        let idx = (ptr - self.heap_start) / PAGE_SIZE;
        proof {
            vstd::arithmetic::div_mod::lemma_fundamental_div_mod(
                ptr - self.heap_start,
                PAGE_SIZE as int,
            );
            vstd::arithmetic::div_mod::lemma_mod_bound(ptr - self.heap_start, PAGE_SIZE as int);
            if idx >= self.pages@.len() {
                assert(idx * PAGE_SIZE >= self.pages@.len() * PAGE_SIZE) by (nonlinear_arith)
                    requires idx >= self.pages@.len();
            }
            assert(self.pages@[idx as int].wf());
        }
        let live = self.pages[idx].holds_block(ptr, size);
        if !live {
            return;
        }
        if size <= MAX_CACHEABLE_SIZE {
            let ghost old_cache = self.cache@;
            let n = self.cache.len();
            let mut j: usize = 0;
            while j < n
                invariant
                    self.wf(),
                    *self == *old(self),
                    old(self).is_live(ptr as int, size as int),
                    size <= MAX_CACHEABLE_SIZE,
                    n == self.cache@.len(),
                    j <= n,
                    forall|m: int| 0 <= m < j ==> #[trigger] self.cache@[m] != (ptr, size),
                decreases n - j,
            {
                if self.cache[j].0 == ptr && self.cache[j].1 == size {
                    assert(self.cache@[j as int] == (ptr, size));
                    assert(self.cache@.contains((ptr, size)));
                    return;
                }
                j += 1;
            }
            proof {
                let p = self.pages@[idx as int];
                let off = ptr - p.start;
                if p.class == PageClass::Small {
                    assert(off + size <= PAGE_SIZE) by (nonlinear_arith)
                        requires
                            off % 256 == 0,
                            0 <= off < 4096,
                            size <= 256,
                    ;
                } else {
                    let e = (off as usize, block_len(size as int) as usize);
                    let k = choose|k: int| 0 <= k < p.allocations@.len() && p.allocations@[k] == e;
                    assert(p.allocations@[k] == e);
                }
                assert(idx * PAGE_SIZE + PAGE_SIZE <= self.pages@.len() * PAGE_SIZE) by (nonlinear_arith)
                    requires idx < self.pages@.len();
            }
            self.cache.push((ptr, size));
            proof {
                assert forall|m: int| 0 <= m < self.cache@.len() implies self.heap_start
                    <= (#[trigger] self.cache@[m]).0 && self.cache@[m].0 + self.cache@[m].1
                    <= self.heap_current by {
                    if m < old_cache.len() {
                        assert(self.cache@[m] == old_cache[m]);
                    }
                }
                assert(!old_cache.contains((ptr, size)));
            }
            return;
        }
        let ghost old_pages = self.pages@;
        self.pages[idx].dealloc_large(ptr, size);
        proof {
            assert forall|j: int| 0 <= j < self.pages@.len() implies (#[trigger] self.pages@[j]).wf()
                && self.pages@[j].start == self.heap_start + j * PAGE_SIZE by {
                if j != idx {
                    assert(self.pages@[j] == old_pages[j]);
                }
            }
            let p0 = old_pages[idx as int];
            let p1 = self.pages@[idx as int];
            assert forall|m: int| 0 <= m < self.cache@.len() implies (#[trigger] self.cache@[m]).1
                <= MAX_CACHEABLE_SIZE && self.is_live(self.cache@[m].0 as int, self.cache@[m].1 as int) by {
                let e = self.cache@[m];
                let pj = self.page_index(e.0 as int);
                assert(old(self).is_live(e.0 as int, e.1 as int));
                if pj == idx {
                    if p0.class == PageClass::Large {
                        let oe = ((e.0 - p0.start) as usize, block_len(e.1 as int) as usize);
                        let q = choose|q: int| 0 <= q < p0.allocations@.len() && p0.allocations@[q] == oe;
                        let k = choose|k: int|
                            0 <= k < p0.allocations@.len() && p0.allocations@[k] == ((ptr - p0.start) as usize, size)
                                && p1.allocations@ == p0.allocations@.remove(k);
                        assert(q != k);
                        let nq = if q < k { q } else { q - 1 };
                        assert(p1.allocations@[nq] == oe);
                    }
                } else {
                    assert(self.pages@[pj] == old_pages[pj]);
                }
            }
        }
    }
}


/// Where a live block ends: inside its page.
proof fn lemma_live_in_page(h: CombinedAllocator, p: usize, z: usize)
    requires
        h.wf(),
        h.is_live(p as int, z as int),
    ensures
        ({
            let i = h.page_index(p as int);
            &&& 0 <= i < h.pages@.len()
            &&& h.pages@[i].start <= p
            &&& p + z <= h.pages@[i].start + PAGE_SIZE
        }),
{
    let i = h.page_index(p as int);
    vstd::arithmetic::div_mod::lemma_fundamental_div_mod(p - h.heap_start, PAGE_SIZE as int);
    vstd::arithmetic::div_mod::lemma_mod_bound(p - h.heap_start, PAGE_SIZE as int);
    if i >= h.pages@.len() {
        assert(i * PAGE_SIZE >= h.pages@.len() * PAGE_SIZE) by (nonlinear_arith)
            requires i >= h.pages@.len();
    }
    let pg = h.pages@[i];
    assert(pg.wf());
    let off = p - pg.start;
    if pg.class == PageClass::Small {
        assert(off + z <= PAGE_SIZE) by (nonlinear_arith)
            requires
                off % 256 == 0,
                0 <= off < 4096,
                z <= 256,
        ;
    } else {
        let e = (off as usize, block_len(z as int) as usize);
        let k = choose|k: int| 0 <= k < pg.allocations@.len() && pg.allocations@[k] == e;
        assert(pg.allocations@[k] == e);
    }
}

/// Two live blocks at different addresses never share a byte: not within
/// one page, and not across pages.
pub proof fn lemma_live_blocks_disjoint(h: CombinedAllocator, p1: usize, z1: usize, p2: usize, z2: usize)
    requires
        h.wf(),
        h.is_live(p1 as int, z1 as int),
        h.is_live(p2 as int, z2 as int),
        p1 != p2,
    ensures
        p1 + z1 <= p2 || p2 + z2 <= p1,
{
    lemma_live_in_page(h, p1, z1);
    lemma_live_in_page(h, p2, z2);
    let i1 = h.page_index(p1 as int);
    let i2 = h.page_index(p2 as int);
    if i1 == i2 {
        let pg = h.pages@[i1];
        assert(pg.wf());
        let o1 = p1 - pg.start;
        let o2 = p2 - pg.start;
        if pg.class == PageClass::Small {
            vstd::arithmetic::div_mod::lemma_fundamental_div_mod(o1, 256);
            vstd::arithmetic::div_mod::lemma_fundamental_div_mod(o2, 256);
            assert(o1 + 256 <= o2 || o2 + 256 <= o1) by (nonlinear_arith)
                requires
                    o1 == 256 * (o1 / 256),
                    o2 == 256 * (o2 / 256),
                    o1 != o2,
            ;
        } else {
            let e1 = (o1 as usize, block_len(z1 as int) as usize);
            let e2 = (o2 as usize, block_len(z2 as int) as usize);
            let k1 = choose|k: int| 0 <= k < pg.allocations@.len() && pg.allocations@[k] == e1;
            let k2 = choose|k: int| 0 <= k < pg.allocations@.len() && pg.allocations@[k] == e2;
            assert(pg.allocations@[k1] == e1);
            assert(pg.allocations@[k2] == e2);
            assert(disjoint(pg.allocations@[k1], pg.allocations@[k2]));
        }
    } else {
        assert(h.pages@[i1].wf() && h.pages@[i2].wf());
    }
}

/// A block that `allocate` serves from a page, and not from the cache,
/// shares no byte with any block that was live before the call: earlier
/// blocks stay live, none of them sat at the new address, and live blocks
/// at different addresses are disjoint.
pub proof fn lemma_new_block_disjoint(
    h0: CombinedAllocator,
    h1: CombinedAllocator,
    r: usize,
    size: usize,
    p: usize,
    z: usize,
)
    requires
        h0.wf(),
        h1.wf(),
        h1.is_live(r as int, size as int),
        forall|q: int, y: int| #[trigger] h0.is_live(q, y) ==> h1.is_live(q, y),
        forall|y: int| !#[trigger] h0.is_live(r as int, y),
        h0.is_live(p as int, z as int),
    ensures
        r + size <= p || p + z <= r,
{
    assert(h1.is_live(p as int, z as int));
    assert(p != r);
    lemma_live_blocks_disjoint(h1, r, size, p, z);
}

/// The free list of every page is sorted by offset, and no block ends
/// where the next one starts: released blocks are always merged.
pub proof fn lemma_free_blocks_coalesced(h: CombinedAllocator, p: int, i: int)
    requires
        h.wf(),
        0 <= p < h.pages@.len(),
        0 <= i,
        i + 1 < h.pages@[p].free_blocks@.len(),
    ensures
        end_of(h.pages@[p].free_blocks@[i]) < h.pages@[p].free_blocks@[i + 1].0,
{
    assert(h.pages@[p].wf());
    assert(free_list_canonical(h.pages@[p].free_blocks@));
}

/// With the region carved to its end, no page able to take the request
/// and no cached block for it, `allocate` fails and carves nothing.
pub proof fn lemma_exhaustion(h: CombinedAllocator, size: int, align: int)
    requires
        h.wf(),
        !h.can_grow(),
        forall|i: int| 0 <= i < h.pages@.len() ==> !(#[trigger] h.pages@[i]).serves(size, align),
        !has_cache_match(h.cache@, size, align),
    ensures
        h.alloc_result(size, align) == 0,
        !h.grows(size, align),
{
}

/// In a canonical free list, a range whose every byte is free lies in one block.
proof fn lemma_contiguous_cover(fb: Seq<(usize, usize)>, off: int, size: int) -> (i: int)
    requires
        free_list_canonical(fb),
        0 < size,
        forall|x: int| off <= x < off + size ==> covers(fb, x),
    ensures
        0 <= i < fb.len(),
        fb[i].0 <= off,
        off + size <= end_of(fb[i]),
{
    assert(covers(fb, off));
    let i = choose|i: int| 0 <= i < fb.len() && (#[trigger] fb[i]).0 <= off < end_of(fb[i]);
    if end_of(fb[i]) < off + size {
        let x = end_of(fb[i]);
        assert(covers(fb, x));
        let c = choose|c: int| 0 <= c < fb.len() && (#[trigger] fb[c]).0 <= x < end_of(fb[c]);
        if c < i {
            assert(end_of(fb[c]) < fb[i].0);
        } else if i < c {
            assert(end_of(fb[i]) < fb[c].0);
        }
    }
    i
}

proof fn lemma_align_up_le(x: int, y: int, a: int)
    requires
        0 < a,
        0 <= x <= y,
        y % a == 0,
    ensures
        align_up(x, a) <= y,
{
    if x % a != 0 {
        vstd::arithmetic::div_mod::lemma_fundamental_div_mod(x, a);
        vstd::arithmetic::div_mod::lemma_fundamental_div_mod(y, a);
        assert(x + (a - x % a) <= y) by (nonlinear_arith)
            requires
                x == a * (x / a) + x % a,
                y == a * (y / a),
                0 < x % a < a,
                x <= y,
                0 < a,
        ;
    }
}

/// A live block released right after it was handed out can be handed out
/// again at the same size and alignment without carving a new page: the
/// release carves nothing, and the next request is served from the cache
/// or from the block's own page.
pub proof fn lemma_round_trip(
    h1: CombinedAllocator,
    h2: CombinedAllocator,
    r: usize,
    size: usize,
    align: usize,
)
    requires
        h1.wf(),
        valid_request(h1.heap_end as int, size as int, align as int),
        r % align == 0,
        h1.is_live(r as int, size as int),
        h2.wf(),
        h2.dealloc_post(&h1, r as int, size as int),
    ensures
        h2.heap_current == h1.heap_current,
        h2.alloc_result(size as int, align as int) != 0,
        !h2.grows(size as int, align as int),
{
    let idx = h1.page_index(r as int);
    let sz = size as int;
    let al = align as int;
    if size <= MAX_CACHEABLE_SIZE {
        if !h1.cache@.contains((r, size)) {
            assert(h2.cache@[h2.cache@.len() - 1] == (r, size));
        }
        assert(h2.cache@.contains((r, size)));
        let k = choose|k: int| 0 <= k < h2.cache@.len() && h2.cache@[k] == (r, size);
        assert(cache_match(h2.cache@[k], sz, al));
        assert(has_cache_match(h2.cache@, sz, al));
        let t = top_match(h2.cache@, sz, al);
        lemma_has_top_match(h2.cache@, sz, al, k);
        assert(h2.heap_start <= h2.cache@[t].0);
    } else {
        vstd::arithmetic::div_mod::lemma_fundamental_div_mod(r - h1.heap_start, PAGE_SIZE as int);
        vstd::arithmetic::div_mod::lemma_mod_bound(r - h1.heap_start, PAGE_SIZE as int);
        if idx >= h1.pages@.len() {
            assert(idx * PAGE_SIZE >= h1.pages@.len() * PAGE_SIZE) by (nonlinear_arith)
                requires idx >= h1.pages@.len();
        }
        let p1 = h1.pages@[idx];
        let p2 = h2.pages@[idx];
        assert(p1.wf());
        assert(p2.wf());
        assert(p1.class == PageClass::Large);
        let off = r - p1.start;
        let fb = p2.free_blocks@;
        let b = lemma_contiguous_cover(fb, off, sz);
        lemma_align_up_le(p2.start + fb[b].0, r as int, al);
        assert(fits(p2.start as int, fb[b], sz, al));
        assert(p2.has_fit(sz, al));
        assert(p2.serves(sz, al));
        assert(some_page_serves(h2.pages@, sz, al));
        if !has_cache_match(h2.cache@, sz, al) {
            let i = first_serving(h2.pages@, sz, al);
            lemma_has_first_serving(h2.pages@, sz, al, idx);
            let q = h2.pages@[i];
            assert(q.wf());
            if q.has_fit(sz, al) {
                let w = choose|w: int|
                    0 <= w < q.free_blocks@.len() && fits(q.start as int, #[trigger] q.free_blocks@[w], sz, al);
                crate::page::lemma_lowest_fit(q, sz, al, w);
                lemma_align_up(q.start + q.free_blocks@[q.first_fit(sz, al)].0, al);
            } else {
                lemma_align_up(q.start + q.bump, al);
            }
            assert(q.start >= h2.heap_start);
        } else {
            let k = choose|k: int| 0 <= k < h2.cache@.len() && cache_match(#[trigger] h2.cache@[k], sz, al);
            lemma_has_top_match(h2.cache@, sz, al, k);
        }
    }
}

proof fn lemma_has_top_match(c: Seq<(usize, usize)>, size: int, align: int, k: int)
    requires
        0 <= k < c.len(),
        cache_match(c[k], size, align),
    ensures
        is_top_match(c, size, align, top_match(c, size, align)),
    decreases c.len() - k,
{
    if forall|j: int| k < j < c.len() ==> !cache_match(#[trigger] c[j], size, align) {
        assert(is_top_match(c, size, align, k));
    } else {
        let v = choose|j: int| k < j < c.len() && cache_match(#[trigger] c[j], size, align);
        lemma_has_top_match(c, size, align, v);
    }
}

proof fn lemma_has_first_serving(pages: Seq<Page>, size: int, align: int, w: int)
    requires
        0 <= w < pages.len(),
        pages[w].serves(size, align),
    ensures
        is_first_serving(pages, size, align, first_serving(pages, size, align)),
    decreases w,
{
    if forall|j: int| 0 <= j < w ==> !(#[trigger] pages[j]).serves(size, align) {
        assert(is_first_serving(pages, size, align, w));
    } else {
        let v = choose|j: int| 0 <= j < w && (#[trigger] pages[j]).serves(size, align);
        lemma_has_first_serving(pages, size, align, v);
    }
}

} // verus!
