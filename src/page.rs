//! One page of the heap and its two sub-allocators.
use vstd::prelude::*;

verus! {

/// Size of a page, the unit by which the heap grows.
pub const PAGE_SIZE: usize = 4096;

/// Size of a small-block slot; requests up to this size use the slots.
pub const SMALL_BLOCK_SIZE: usize = 256;

/// Number of small-block slots that fit in one page.
pub const SMALL_SLOTS: usize = PAGE_SIZE / SMALL_BLOCK_SIZE;

/// Which sub-allocator a page serves; fixed when the page is created.
#[derive(Clone, Copy, Debug, PartialEq, Eq, Structural)]
pub enum PageClass {
    Small,
    Large,
}

/// One page of heap address space.
///
/// Offsets in `allocations` and `free_blocks` are relative to `start`;
/// each entry is `(offset, size)`.
pub struct Page {
    pub start: usize,
    pub class: PageClass,
    /// Offset of the next bump allocation.
    pub bump: usize,
    /// Live large blocks.
    pub allocations: Vec<(usize, usize)>,
    /// Released large blocks, sorted by offset and fully coalesced.
    pub free_blocks: Vec<(usize, usize)>,
    /// Occupancy of the small-block slots, one entry per slot.
    pub slots: Vec<bool>,
}

pub open spec fn align_up(x: int, a: int) -> int {
    if x % a == 0 {
        x
    } else {
        x + (a - x % a)
    }
}

pub open spec fn end_of(b: (usize, usize)) -> int {
    b.0 as int + b.1 as int
}

/// The two ranges share no byte.
pub open spec fn disjoint(a: (usize, usize), b: (usize, usize)) -> bool {
    end_of(a) <= b.0 || end_of(b) <= a.0
}

/// Sorted by offset, and no block touches or overlaps a later one.
pub open spec fn free_list_canonical(fb: Seq<(usize, usize)>) -> bool {
    forall|i: int, j: int| 0 <= i < j < fb.len() ==> end_of(#[trigger] fb[i]) < (#[trigger] fb[j]).0
}

/// Offset `x` lies in one of the blocks.
pub open spec fn covers(fb: Seq<(usize, usize)>, x: int) -> bool {
    exists|i: int| 0 <= i < fb.len() && (#[trigger] fb[i]).0 <= x < end_of(fb[i])
}

pub open spec fn is_first_free(s: Seq<bool>, i: int) -> bool {
    &&& 0 <= i < s.len()
    &&& !s[i]
    &&& forall|j: int| 0 <= j < i ==> #[trigger] s[j]
}

pub open spec fn has_free_slot(s: Seq<bool>) -> bool {
    exists|i: int| 0 <= i < s.len() && !(#[trigger] s[i])
}

pub open spec fn first_free(s: Seq<bool>) -> int {
    choose|i: int| is_first_free(s, i)
}

/// Number of occupied slots.
pub open spec fn count_set(s: Seq<bool>) -> nat
    decreases s.len(),
{
    if s.len() == 0 {
        0
    } else {
        count_set(s.drop_last()) + if s.last() { 1nat } else { 0nat }
    }
}

/// The occupancy with every occupied slot packed towards slot 0.
pub open spec fn compacted(s: Seq<bool>) -> Seq<bool> {
    Seq::new(s.len(), |j: int| j < count_set(s))
}

/// Block `b` of a page at `start` can hold `size` bytes at an address
/// aligned to `align`.
pub open spec fn fits(start: int, b: (usize, usize), size: int, align: int) -> bool {
    align_up(start + b.0, align) + size <= start + end_of(b)
}

pub proof fn lemma_align_up(x: int, a: int)
    requires
        a > 0,
        x >= 0,
    ensures
        align_up(x, a) % a == 0,
        x <= align_up(x, a) < x + a,
{
    if x % a != 0 {
        assert((x + (a - x % a)) % a == 0) by {
            vstd::arithmetic::div_mod::lemma_fundamental_div_mod(x, a);
            vstd::arithmetic::div_mod::lemma_mod_multiples_basic(x / a + 1, a);
            assert(x + (a - x % a) == (x / a + 1) * a) by (nonlinear_arith)
                requires x == a * (x / a) + x % a;
        }
    }
}

/// Computes `align_up(x, a)`.
fn align_up_exec(x: usize, a: usize) -> (r: usize)
    requires
        a > 0,
        x + a <= usize::MAX,
    ensures
        r == align_up(x as int, a as int),
        r % a == 0,
        x <= r < x + a,
{
    proof {
        lemma_align_up(x as int, a as int);
    }
    let rem = x % a;
    if rem == 0 {
        x
    } else {
        x + (a - rem)
    }
}

proof fn lemma_covers_concat(a: Seq<(usize, usize)>, b: Seq<(usize, usize)>, x: int)
    ensures
        covers(a + b, x) == (covers(a, x) || covers(b, x)),
{
    let ab = a + b;
    if covers(ab, x) {
        let i = choose|i: int| 0 <= i < ab.len() && (#[trigger] ab[i]).0 <= x < end_of(ab[i]);
        if i < a.len() {
            assert(a[i] == ab[i]);
        } else {
            assert(b[i - a.len()] == ab[i]);
        }
    }
    if covers(a, x) {
        let i = choose|i: int| 0 <= i < a.len() && (#[trigger] a[i]).0 <= x < end_of(a[i]);
        assert(ab[i] == a[i]);
    }
    if covers(b, x) {
        let i = choose|i: int| 0 <= i < b.len() && (#[trigger] b[i]).0 <= x < end_of(b[i]);
        assert(ab[i + a.len()] == b[i]);
    }
}

/// Replacing the blocks `lo..hi` of a canonical list by blocks that sit
/// strictly between the neighbours keeps the list canonical.
proof fn lemma_splice_canonical(fb: Seq<(usize, usize)>, lo: int, hi: int, mid: Seq<(usize, usize)>)
    requires
        free_list_canonical(fb),
        forall|i: int| 0 <= i < fb.len() ==> 0 < (#[trigger] fb[i]).1,
        0 <= lo <= hi <= fb.len(),
        free_list_canonical(mid),
        forall|m: int|
            0 <= m < mid.len() ==> (lo > 0 ==> end_of(fb[lo - 1]) < (#[trigger] mid[m]).0) && (hi
                < fb.len() ==> end_of(mid[m]) < fb[hi].0),
    ensures
        free_list_canonical(fb.take(lo) + mid + fb.skip(hi)),
{
    let a = fb.take(lo);
    let b = fb.skip(hi);
    let r = a + mid + b;
    assert forall|i: int, j: int| 0 <= i < j < r.len() implies end_of(#[trigger] r[i]) < (
    #[trigger] r[j]).0 by {
        if i < lo {
            assert(r[i] == fb[i]);
            if j < lo {
                assert(r[j] == fb[j]);
            } else if j < lo + mid.len() {
                assert(r[j] == mid[j - lo]);
                if i < lo - 1 {
                    assert(end_of(fb[i]) < fb[lo - 1].0);
                }
            } else {
                assert(r[j] == fb[j - lo - mid.len() + hi]);
            }
        } else if i < lo + mid.len() {
            assert(r[i] == mid[i - lo]);
            if j < lo + mid.len() {
                assert(r[j] == mid[j - lo]);
            } else {
                assert(r[j] == fb[j - lo - mid.len() + hi]);
                if j - lo - mid.len() + hi > hi {
                    assert(end_of(fb[hi]) < fb[j - lo - mid.len() + hi].0);
                }
            }
        } else {
            assert(r[i] == fb[i - lo - mid.len() + hi]);
            assert(r[j] == fb[j - lo - mid.len() + hi]);
        }
    }
}

/// Two non-empty ranges that are not disjoint share the byte at the larger start.
proof fn lemma_overlap_point(a: (usize, usize), b: (usize, usize))
    requires
        0 < a.1,
        0 < b.1,
        !disjoint(a, b),
    ensures
        ({
            let x = if a.0 <= b.0 { b.0 as int } else { a.0 as int };
            a.0 <= x < end_of(a) && b.0 <= x < end_of(b)
        }),
{
}

/// Length of the large block that serves a request of `size` bytes: a
/// request of zero bytes still takes one, so that its address is its own.
pub open spec fn block_len(size: int) -> int {
    if size == 0 {
        1
    } else {
        size
    }
}

/// Requests of this shape use the small-block slots: they fit in a slot,
/// and every slot address meets the alignment.
pub open spec fn routes_small(size: int, align: int) -> bool {
    size <= SMALL_BLOCK_SIZE && SMALL_BLOCK_SIZE as int % align == 0
}

proof fn lemma_slot_aligned(start: int, i: int, align: int)
    requires
        start >= 0,
        start % PAGE_SIZE as int == 0,
        0 <= i,
        align > 0,
        SMALL_BLOCK_SIZE as int % align == 0,
    ensures
        (start + i * SMALL_BLOCK_SIZE) % align == 0,
{
    let q = start / PAGE_SIZE as int;
    let m = SMALL_BLOCK_SIZE as int / align;
    vstd::arithmetic::div_mod::lemma_fundamental_div_mod(start, PAGE_SIZE as int);
    vstd::arithmetic::div_mod::lemma_fundamental_div_mod(SMALL_BLOCK_SIZE as int, align);
    assert(start + i * SMALL_BLOCK_SIZE == ((q * 16 + i) * m) * align) by (nonlinear_arith)
        requires
            start == PAGE_SIZE as int * q,
            SMALL_BLOCK_SIZE as int == align * m,
            PAGE_SIZE as int == 4096,
            SMALL_BLOCK_SIZE as int == 256,
    ;
    assert(q * 16 + i >= 0 && m >= 0) by (nonlinear_arith)
        requires
            start == PAGE_SIZE as int * q,
            start >= 0,
            i >= 0,
            SMALL_BLOCK_SIZE as int == align * m,
            align > 0,
    ;
    vstd::arithmetic::div_mod::lemma_mod_multiples_basic((q * 16 + i) * m, align);
}

proof fn lemma_lowest_free(s: Seq<bool>, w: int)
    requires
        0 <= w < s.len(),
        !s[w],
    ensures
        is_first_free(s, first_free(s)),
    decreases w,
{
    if forall|j: int| 0 <= j < w ==> #[trigger] s[j] {
        assert(is_first_free(s, w));
    } else {
        let v = choose|j: int| 0 <= j < w && !(#[trigger] s[j]);
        lemma_lowest_free(s, v);
    }
}

pub proof fn lemma_first_free_unique(s: Seq<bool>, i: int)
    requires
        is_first_free(s, i),
    ensures
        first_free(s) == i,
{
    let k = first_free(s);
    assert(is_first_free(s, k));
    if k < i {
        assert(s[k]);
    } else if i < k {
        assert(s[i]);
    }
}

/// Takes `[a_off, a_off + size)` out of block `i`, keeping what is left
/// before and after it as free blocks.
#[verifier::spinoff_prover]
#[verifier::rlimit(60)]
fn carve_block(fb: &mut Vec<(usize, usize)>, i: usize, a_off: usize, size: usize)
    requires
        free_list_canonical(old(fb)@),
        forall|k: int| 0 <= k < old(fb)@.len() ==> 0 < (#[trigger] old(fb)@[k]).1,
        i < old(fb)@.len(),
        0 < size,
        old(fb)@[i as int].0 <= a_off,
        a_off + size <= end_of(old(fb)@[i as int]) <= usize::MAX,
    ensures
        free_list_canonical(final(fb)@),
        forall|k: int| 0 <= k < final(fb)@.len() ==> 0 < (#[trigger] final(fb)@[k]).1,
        forall|x: int|
            covers(final(fb)@, x) == (covers(old(fb)@, x) && !(a_off <= x < a_off + size)),
{
    let ghost old_fb = fb@;
    let (o, s) = fb[i];
    let e = o + s;
    let tail = a_off + size;
    let ghost mid: Seq<(usize, usize)>;
    if a_off > o {
        fb.set(i, (o, a_off - o));
        if tail < e {
            let n = fb.len();
            assert(i < n);
            fb.insert(i + 1, (tail, e - tail));
            proof {
                mid = seq![(o, (a_off - o) as usize), (tail, (e - tail) as usize)];
            }
        } else {
            proof {
                mid = seq![(o, (a_off - o) as usize)];
            }
        }
    } else {
        if tail < e {
            fb.set(i, (tail, e - tail));
            proof {
                mid = seq![(tail, (e - tail) as usize)];
            }
        } else {
            fb.remove(i);
            proof {
                mid = Seq::empty();
            }
        }
    }
    proof {
        let lo = i as int;
        let hi = i + 1;
        assert(fb@ =~= old_fb.take(lo) + mid + old_fb.skip(hi));
        lemma_splice_canonical(old_fb, lo, hi, mid);
        assert(old_fb =~= old_fb.take(lo) + old_fb.subrange(lo, hi) + old_fb.skip(hi));
        assert forall|x: int|
            covers(fb@, x) == (covers(old_fb, x) && !(a_off <= x < a_off + size)) by {
            lemma_covers_concat(old_fb.take(lo) + mid, old_fb.skip(hi), x);
            lemma_covers_concat(old_fb.take(lo), mid, x);
            lemma_covers_concat(old_fb.take(lo) + old_fb.subrange(lo, hi), old_fb.skip(hi), x);
            lemma_covers_concat(old_fb.take(lo), old_fb.subrange(lo, hi), x);
            let one = old_fb.subrange(lo, hi);
            assert(one[0] == old_fb[lo]);
            if covers(old_fb.take(lo), x) {
                let k = choose|k: int|
                    0 <= k < old_fb.take(lo).len() && (#[trigger] old_fb.take(lo)[k]).0 <= x
                        < end_of(old_fb.take(lo)[k]);
                assert(old_fb.take(lo)[k] == old_fb[k]);
            }
            if covers(old_fb.skip(hi), x) {
                let k = choose|k: int|
                    0 <= k < old_fb.skip(hi).len() && (#[trigger] old_fb.skip(hi)[k]).0 <= x
                        < end_of(old_fb.skip(hi)[k]);
                assert(old_fb.skip(hi)[k] == old_fb[k + hi]);
            }
            if covers(one, x) {
                let k = choose|k: int| 0 <= k < one.len() && (#[trigger] one[k]).0 <= x < end_of(one[k]);
                assert(k == 0);
                if !(a_off <= x < a_off + size) {
                    if x < a_off {
                        assert(mid[0].0 <= x < end_of(mid[0]));
                    } else if a_off > o {
                        assert(mid[1].0 <= x < end_of(mid[1]));
                    } else {
                        assert(mid[0].0 <= x < end_of(mid[0]));
                    }
                }
            }
            if covers(mid, x) {
                let k = choose|k: int| 0 <= k < mid.len() && (#[trigger] mid[k]).0 <= x < end_of(mid[k]);
                assert(one[0].0 <= x < end_of(one[0]));
            }
        }
    }
}

proof fn lemma_merge_covers(
    fb: Seq<(usize, usize)>,
    lo: int,
    hi: int,
    off: int,
    size: int,
    merged: (usize, usize),
)
    requires
        0 <= lo <= hi <= fb.len(),
        hi <= lo + 2,
        forall|j: int| lo <= j < hi ==> merged.0 <= (#[trigger] fb[j]).0 && end_of(fb[j]) <= end_of(merged),
        merged.0 <= off,
        off + size <= end_of(merged),
        merged.0 < off ==> lo < hi && fb[lo].0 == merged.0 && end_of(fb[lo]) == off,
        off + size < end_of(merged) ==> lo < hi && fb[hi - 1].0 == off + size && end_of(fb[hi - 1])
            == end_of(merged),
    ensures
        forall|x: int|
            covers(fb.take(lo) + seq![merged] + fb.skip(hi), x) == (covers(fb, x) || off <= x < off
                + size),
{
    let mid = seq![merged];
    let one = fb.subrange(lo, hi);
    assert(fb =~= fb.take(lo) + one + fb.skip(hi));
    assert forall|x: int|
        covers(fb.take(lo) + mid + fb.skip(hi), x) == (covers(fb, x) || off <= x < off + size) by {
        lemma_covers_concat(fb.take(lo) + mid, fb.skip(hi), x);
        lemma_covers_concat(fb.take(lo), mid, x);
        lemma_covers_concat(fb.take(lo) + one, fb.skip(hi), x);
        lemma_covers_concat(fb.take(lo), one, x);
        if covers(one, x) {
            let j = choose|j: int| 0 <= j < one.len() && (#[trigger] one[j]).0 <= x < end_of(one[j]);
            assert(one[j] == fb[lo + j]);
            assert(mid[0].0 <= x < end_of(mid[0]));
        }
        if covers(mid, x) && !(off <= x < off + size) {
            if x < off {
                assert(one[0] == fb[lo]);
                assert(one[0].0 <= x < end_of(one[0]));
            } else {
                assert(one[hi - lo - 1] == fb[hi - 1]);
                assert(one[hi - lo - 1].0 <= x < end_of(one[hi - lo - 1]));
            }
        }
        if off <= x < off + size {
            assert(mid[0].0 <= x < end_of(mid[0]));
        }
    }
}

/// Puts `[off, off + size)` back into a canonical free list, merging it
/// with the blocks that end where it starts or start where it ends.
#[verifier::spinoff_prover]
#[verifier::rlimit(60)]
pub fn merge_free_blocks(fb: &mut Vec<(usize, usize)>, off: usize, size: usize)
    requires
        free_list_canonical(old(fb)@),
        forall|k: int|
            0 <= k < old(fb)@.len() ==> 0 < (#[trigger] old(fb)@[k]).1 && end_of(old(fb)@[k])
                <= PAGE_SIZE,
        0 < size,
        off + size <= PAGE_SIZE,
        forall|k: int| 0 <= k < old(fb)@.len() ==> disjoint(#[trigger] old(fb)@[k], (off, size)),
    ensures
        free_list_canonical(final(fb)@),
        forall|k: int| 0 <= k < final(fb)@.len() ==> 0 < (#[trigger] final(fb)@[k]).1,
        forall|x: int| covers(final(fb)@, x) == (covers(old(fb)@, x) || off <= x < off + size),
{
    let ghost old_fb = fb@;
    let n = fb.len();
    let mut k: usize = 0;
    while k < n && fb[k].0 < off
        invariant
            fb@ == old_fb,
            n == fb.len(),
            k <= n,
            forall|j: int| 0 <= j < k ==> (#[trigger] fb@[j]).0 < off,
        decreases n - k,
    {
        k += 1;
    }
    let left = k > 0 && fb[k - 1].0 + fb[k - 1].1 == off;
    let right = k < n && off + size == fb[k].0;
    let lo: usize = if left { k - 1 } else { k };
    let hi: usize = if right { k + 1 } else { k };
    let first = if left { fb[k - 1].0 } else { off };
    let last = if right { fb[k].0 + fb[k].1 } else { off + size };
    let merged = (first, last - first);
    if lo < hi {
        fb.set(lo, merged);
        if hi - lo == 2 {
            fb.remove(lo + 1);
        }
    } else {
        fb.insert(k, merged);
    }
    proof {
        let lo = lo as int;
        let hi = hi as int;
        let mid = seq![merged];
        assert(fb@ =~= old_fb.take(lo) + mid + old_fb.skip(hi));
        if lo > 0 {
            if left {
                assert(end_of(old_fb[lo - 1]) < old_fb[k - 1].0);
            } else {
                assert(disjoint(old_fb[k - 1], (off, size)));
            }
        }
        if hi < n {
            if right {
                assert(end_of(old_fb[k as int]) < old_fb[hi].0);
            } else {
                assert(disjoint(old_fb[k as int], (off, size)));
            }
        }
        lemma_splice_canonical(old_fb, lo, hi, mid);
        if left {
            assert(old_fb[lo].0 == first);
        }
        if right {
            assert(end_of(old_fb[hi - 1]) == last);
        }
        lemma_merge_covers(old_fb, lo, hi, off as int, size as int, merged);
        assert forall|x: int| covers(fb@, x) == (covers(old_fb, x) || off <= x < off + size) by {
            assert(covers(old_fb.take(lo) + mid + old_fb.skip(hi), x) == (covers(old_fb, x) || off
                <= x < off + size));
        }
    }
}

pub proof fn lemma_lowest_fit(p: Page, size: int, align: int, w: int)
    requires
        0 <= w < p.free_blocks@.len(),
        fits(p.start as int, p.free_blocks@[w], size, align),
    ensures
        p.is_first_fit(size, align, p.first_fit(size, align)),
    decreases w,
{
    if forall|j: int| 0 <= j < w ==> !fits(p.start as int, #[trigger] p.free_blocks@[j], size, align) {
        assert(p.is_first_fit(size, align, w));
    } else {
        let v = choose|j: int| 0 <= j < w && fits(p.start as int, #[trigger] p.free_blocks@[j], size, align);
        lemma_lowest_fit(p, size, align, v);
    }
}

impl Page {
    pub open spec fn wf(&self) -> bool {
        let fb = self.free_blocks@;
        let al = self.allocations@;
        &&& self.start % PAGE_SIZE == 0
        &&& self.start + 2 * PAGE_SIZE <= usize::MAX
        &&& self.bump <= PAGE_SIZE
        &&& self.slots@.len() == SMALL_SLOTS
        &&& free_list_canonical(fb)
        &&& forall|i: int| 0 <= i < fb.len() ==> 0 < (#[trigger] fb[i]).1 && end_of(fb[i]) <= self.bump
        &&& forall|i: int| 0 <= i < al.len() ==> 0 < (#[trigger] al[i]).1 && end_of(al[i]) <= self.bump
        &&& forall|i: int, j: int|
            0 <= i < al.len() && 0 <= j < al.len() && i != j ==> disjoint(
                #[trigger] al[i],
                #[trigger] al[j],
            )
        &&& forall|i: int, j: int|
            0 <= i < al.len() && 0 <= j < fb.len() ==> disjoint(#[trigger] al[i], #[trigger] fb[j])
    }

    /// Address that the next small-block allocation hands out.
    pub open spec fn small_addr(&self) -> int {
        self.start + first_free(self.slots@) * SMALL_BLOCK_SIZE
    }

    pub open spec fn is_first_fit(&self, size: int, align: int, i: int) -> bool {
        &&& 0 <= i < self.free_blocks@.len()
        &&& fits(self.start as int, self.free_blocks@[i], size, align)
        &&& forall|j: int|
            0 <= j < i ==> !fits(self.start as int, #[trigger] self.free_blocks@[j], size, align)
    }

    /// Some free block can take the request.
    pub open spec fn has_fit(&self, size: int, align: int) -> bool {
        exists|i: int|
            0 <= i < self.free_blocks@.len() && fits(
                self.start as int,
                #[trigger] self.free_blocks@[i],
                size,
                align,
            )
    }

    pub open spec fn first_fit(&self, size: int, align: int) -> int {
        choose|i: int| self.is_first_fit(size, align, i)
    }

    /// Offset at which a bump allocation with this alignment starts.
    pub open spec fn bump_offset(&self, align: int) -> int {
        align_up(self.start + self.bump, align) - self.start
    }

    pub open spec fn can_bump(&self, size: int, align: int) -> bool {
        self.bump_offset(align) + size <= PAGE_SIZE
    }

    /// The large-block path of this page can take the request.
    pub open spec fn large_serves(&self, size: int, align: int) -> bool {
        self.has_fit(size, align) || self.can_bump(size, align)
    }

    /// Address that a large-block allocation hands out: the first free
    /// block that fits, else the bump cursor.
    pub open spec fn large_addr(&self, size: int, align: int) -> int {
        if self.has_fit(size, align) {
            align_up(self.start + self.free_blocks@[self.first_fit(size, align)].0, align)
        } else {
            self.start + self.bump_offset(align)
        }
    }

    /// The two pages hold the same bookkeeping.
    pub open spec fn same_as(&self, other: &Page) -> bool {
        &&& self.start == other.start
        &&& self.class == other.class
        &&& self.bump == other.bump
        &&& self.allocations@ == other.allocations@
        &&& self.free_blocks@ == other.free_blocks@
        &&& self.slots@ == other.slots@
    }

    /// `(ptr, size)` is a block that this page has handed out and not
    /// taken back.
    pub open spec fn holds(&self, ptr: int, size: int) -> bool {
        let off = ptr - self.start;
        if self.class == PageClass::Small {
            &&& size <= SMALL_BLOCK_SIZE
            &&& off % SMALL_BLOCK_SIZE as int == 0
            &&& 0 <= off < PAGE_SIZE
            &&& self.slots@[off / SMALL_BLOCK_SIZE as int]
        } else {
            self.allocations@.contains((off as usize, block_len(size) as usize))
        }
    }

    /// This page is `before` with the live large block `(off, size)` moved
    /// to the free list.
    pub open spec fn released_from(&self, before: &Page, off: int, size: int) -> bool {
        &&& self.start == before.start
        &&& self.class == before.class
        &&& self.bump == before.bump
        &&& self.slots@ == before.slots@
        &&& exists|k: int|
            0 <= k < before.allocations@.len() && before.allocations@[k] == (off as usize, size as usize)
                && self.allocations@ == before.allocations@.remove(k)
        &&& forall|x: int|
            covers(self.free_blocks@, x) == (covers(before.free_blocks@, x) || off <= x < off + size)
    }

    /// This page is `before` after serving the request on its routed path.
    pub open spec fn allocated_from(&self, before: &Page, size: int, align: int) -> bool {
        &&& self.start == before.start
        &&& self.class == before.class
        &&& if routes_small(size, align) {
            &&& self.slots@ == before.slots@.update(first_free(before.slots@), true)
            &&& self.bump == before.bump
            &&& self.allocations@ == before.allocations@
            &&& self.free_blocks@ == before.free_blocks@
        } else {
            let n = block_len(size);
            let off = before.large_addr(n, align) - before.start;
            &&& self.slots@ == before.slots@
            &&& self.allocations@ == before.allocations@.push((off as usize, n as usize))
            &&& if before.has_fit(n, align) {
                &&& self.bump == before.bump
                &&& forall|x: int|
                    covers(self.free_blocks@, x) == (covers(before.free_blocks@, x) && !(off <= x < off
                        + n))
            } else {
                &&& self.bump == off + n
                &&& self.free_blocks@ == before.free_blocks@
            }
        }
    }

    /// A page as created at `start` for `class`, before any request.
    pub open spec fn is_fresh(&self, start: int, class: PageClass) -> bool {
        &&& self.start == start
        &&& self.class == class
        &&& self.bump == 0
        &&& self.allocations@.len() == 0
        &&& self.free_blocks@.len() == 0
        &&& self.slots@ == Seq::new(SMALL_SLOTS as nat, |j: int| false)
    }

    /// This page can take the request on the path it is routed to.
    pub open spec fn serves(&self, size: int, align: int) -> bool {
        if routes_small(size, align) {
            self.class == PageClass::Small && has_free_slot(self.slots@)
        } else {
            self.class == PageClass::Large && self.large_serves(block_len(size), align)
        }
    }

    /// Address that this page hands out for the request.
    pub open spec fn addr_for(&self, size: int, align: int) -> int {
        if routes_small(size, align) {
            self.small_addr()
        } else {
            self.large_addr(block_len(size), align)
        }
    }

    /// An empty page at `start`.
    pub fn new(start: usize, class: PageClass) -> (p: Page)
        requires
            start % PAGE_SIZE == 0,
            start + 2 * PAGE_SIZE <= usize::MAX,
        ensures
            p.wf(),
            p.start == start,
            p.class == class,
            p.bump == 0,
            p.allocations@ == Seq::<(usize, usize)>::empty(),
            p.free_blocks@ == Seq::<(usize, usize)>::empty(),
            p.slots@ == Seq::new(SMALL_SLOTS as nat, |j: int| false),
    {
        let mut slots: Vec<bool> = Vec::new();
        let mut i: usize = 0;
        while i < SMALL_SLOTS
            invariant
                i <= SMALL_SLOTS,
                slots@ == Seq::new(i as nat, |j: int| false),
            decreases SMALL_SLOTS - i,
        {
            slots.push(false);
            i += 1;
            assert(slots@ =~= Seq::new(i as nat, |j: int| false));
        }
        Page {
            start,
            class,
            bump: 0,
            allocations: Vec::new(),
            free_blocks: Vec::new(),
            slots,
        }
    }

    /// Packs the occupied slots towards slot 0, keeping their number.
    pub fn compact_small_block_bitmap(slots: &mut Vec<bool>)
        ensures
            final(slots)@ == compacted(old(slots)@),
    {
        let n = slots.len();
        let mut count: usize = 0;
        let mut i: usize = 0;
        while i < n
            invariant
                n == slots.len(),
                i <= n,
                count == count_set(slots@.take(i as int)),
                count <= i,
            decreases n - i,
        {
            proof {
                assert(slots@.take(i + 1).drop_last() =~= slots@.take(i as int));
            }
            if slots[i] {
                count += 1;
            }
            i += 1;
        }
        assert(slots@.take(n as int) =~= slots@);
        let ghost target = compacted(slots@);
        let mut j: usize = 0;
        while j < n
            invariant
                n == slots.len(),
                j <= n,
                target.len() == n,
                forall|k: int| 0 <= k < target.len() ==> target[k] == (k < count),
                forall|k: int| 0 <= k < j ==> slots@[k] == target[k],
            decreases n - j,
        {
            slots.set(j, j < count);
            j += 1;
        }
        assert(slots@ =~= target);
    }

    /// Takes the lowest free slot, if any, and returns its address.
    pub fn alloc_small(&mut self) -> (r: Option<usize>)
        requires
            old(self).wf(),
        ensures
            final(self).wf(),
            final(self).start == old(self).start,
            final(self).class == old(self).class,
            final(self).bump == old(self).bump,
            final(self).allocations@ == old(self).allocations@,
            final(self).free_blocks@ == old(self).free_blocks@,
            has_free_slot(old(self).slots@) ==> (r matches Some(a) && a == old(self).small_addr())
                && final(self).slots@ == old(self).slots@.update(first_free(old(self).slots@), true),
            !has_free_slot(old(self).slots@) ==> r.is_none() && *final(self) == *old(self),
    {
        let mut i: usize = 0;
        while i < SMALL_SLOTS
            invariant
                self.wf(),
                i <= SMALL_SLOTS,
                *self == *old(self),
                forall|j: int| 0 <= j < i ==> self.slots@[j],
            decreases SMALL_SLOTS - i,
        {
            if !self.slots[i] {
                proof {
                    lemma_first_free_unique(self.slots@, i as int);
                }
                self.slots.set(i, true);
                return Some(self.start + i * SMALL_BLOCK_SIZE);
            }
            i += 1;
        }
        None
    }

    /// First free block that fits, else the bump cursor; records the block
    /// as live and returns its address.
    #[verifier::spinoff_prover]
    pub fn alloc_large(&mut self, size: usize, align: usize) -> (r: Option<usize>)
        requires
            old(self).wf(),
            0 < size,
            0 < align,
            old(self).start + PAGE_SIZE + align <= usize::MAX,
        ensures
            final(self).wf(),
            final(self).start == old(self).start,
            final(self).class == old(self).class,
            final(self).slots@ == old(self).slots@,
            ({
                let addr = old(self).large_addr(size as int, align as int);
                let off = addr - old(self).start;
                if old(self).large_serves(size as int, align as int) {
                    &&& r matches Some(a) && a == addr
                    &&& final(self).allocations@ == old(self).allocations@.push(
                        (off as usize, size),
                    )
                    &&& old(self).has_fit(size as int, align as int) ==> final(self).bump
                        == old(self).bump && forall|x: int|
                        covers(final(self).free_blocks@, x) == (covers(
                            old(self).free_blocks@,
                            x,
                        ) && !(off <= x < off + size))
                    &&& !old(self).has_fit(size as int, align as int) ==> final(self).bump
                        == off + size && final(self).free_blocks@ == old(self).free_blocks@
                } else {
                    &&& r.is_none()
                    &&& *final(self) == *old(self)
                }
            }),
            r matches Some(a) ==> forall|k: int|
                0 <= k < old(self).allocations@.len() ==> (#[trigger] old(self).allocations@[k]).0 != a - old(self).start,
    {
        let n = self.free_blocks.len();
        let mut i: usize = 0;
        while i < n
            invariant
                self.wf(),
                *self == *old(self),
                n == self.free_blocks@.len(),
                i <= n,
                0 < size,
                0 < align,
                self.start + PAGE_SIZE + align <= usize::MAX,
                forall|j: int|
                    0 <= j < i ==> !fits(
                        self.start as int,
                        #[trigger] self.free_blocks@[j],
                        size as int,
                        align as int,
                    ),
            decreases n - i,
        {
            let (off, bsize) = self.free_blocks[i];
            let base = self.start + off;
            let aligned = align_up_exec(base, align);
            let end = base + bsize;
            if aligned <= end && size <= end - aligned {
                let ghost old_fb = self.free_blocks@;
                let ghost old_al = self.allocations@;
                let a_off = aligned - self.start;
                proof {
                    assert(self.is_first_fit(size as int, align as int, i as int));
                    let k = self.first_fit(size as int, align as int);
                    assert(self.is_first_fit(size as int, align as int, k));
                    if k < i {
                        assert(!fits(self.start as int, old_fb[k], size as int, align as int));
                    } else if i < k {
                        assert(!fits(self.start as int, old_fb[i as int], size as int, align as int));
                    }
                    assert(self.has_fit(size as int, align as int));
                }
                carve_block(&mut self.free_blocks, i, a_off, size);
                self.allocations.push((a_off, size));
                proof {
                    let blk = old_fb[i as int];
                    let na = (a_off, size);
                    let fb = self.free_blocks@;
                    let al = self.allocations@;
                    assert forall|j: int| 0 <= j < fb.len() implies 0 < (#[trigger] fb[j]).1
                        && end_of(fb[j]) <= self.bump by {
                        assert(covers(fb, end_of(fb[j]) - 1));
                        let k = choose|k: int|
                            0 <= k < old_fb.len() && (#[trigger] old_fb[k]).0 <= end_of(fb[j]) - 1
                                < end_of(old_fb[k]);
                    }
                    assert forall|p: int, q: int|
                        0 <= p < al.len() && 0 <= q < fb.len() implies disjoint(
                        #[trigger] al[p],
                        #[trigger] fb[q],
                    ) by {
                        if !disjoint(al[p], fb[q]) {
                            lemma_overlap_point(al[p], fb[q]);
                            let x = if al[p].0 <= fb[q].0 { fb[q].0 as int } else { al[p].0 as int };
                            assert(covers(fb, x));
                            if p < old_al.len() {
                                assert(al[p] == old_al[p]);
                                let k = choose|k: int|
                                    0 <= k < old_fb.len() && (#[trigger] old_fb[k]).0 <= x
                                        < end_of(old_fb[k]);
                                assert(disjoint(old_al[p], old_fb[k]));
                            }
                        }
                    }
                    assert forall|p: int, q: int|
                        0 <= p < al.len() && 0 <= q < al.len() && p != q implies disjoint(
                        #[trigger] al[p],
                        #[trigger] al[q],
                    ) by {
                        if p < old_al.len() && q < old_al.len() {
                            assert(disjoint(old_al[p], old_al[q]));
                        } else if p < old_al.len() {
                            assert(disjoint(old_al[p], blk));
                        } else {
                            assert(disjoint(old_al[q], blk));
                        }
                    }
                    assert forall|k: int| 0 <= k < old_al.len() implies (#[trigger] old_al[k]).0 != a_off by {
                        assert(disjoint(old_al[k], blk));
                    }
                }
                return Some(aligned);
            }
            i += 1;
        }
        proof {
            assert(!self.has_fit(size as int, align as int));
        }
        let base = self.start + self.bump;
        let aligned = align_up_exec(base, align);
        let a_off = aligned - self.start;
        if a_off <= PAGE_SIZE && size <= PAGE_SIZE - a_off {
            let ghost old_al = self.allocations@;
            self.bump = a_off + size;
            self.allocations.push((a_off, size));
            proof {
                let al = self.allocations@;
                let fb = self.free_blocks@;
                assert forall|p: int, q: int|
                    0 <= p < al.len() && 0 <= q < fb.len() implies disjoint(
                    #[trigger] al[p],
                    #[trigger] fb[q],
                ) by {
                    if p < old_al.len() {
                        assert(al[p] == old_al[p]);
                    }
                }
                assert forall|p: int, q: int|
                    0 <= p < al.len() && 0 <= q < al.len() && p != q implies disjoint(
                    #[trigger] al[p],
                    #[trigger] al[q],
                ) by {
                    if p < old_al.len() && q < old_al.len() {
                        assert(disjoint(old_al[p], old_al[q]));
                    }
                }
            }
            Some(aligned)
        } else {
            None
        }
    }

    /// Releases the live block `(ptr - start, size)` into the free list;
    /// a pair that is not live leaves the page unchanged.
    #[verifier::spinoff_prover]
    pub fn dealloc_large(&mut self, ptr: usize, size: usize)
        requires
            old(self).wf(),
            old(self).start <= ptr,
        ensures
            final(self).wf(),
            final(self).start == old(self).start,
            final(self).class == old(self).class,
            final(self).slots@ == old(self).slots@,
            final(self).bump == old(self).bump,
            old(self).allocations@.contains(((ptr - old(self).start) as usize, size))
                ==> final(self).released_from(old(self), ptr - old(self).start, size as int),
            !old(self).allocations@.contains(((ptr - old(self).start) as usize, size))
                ==> final(self).same_as(old(self)),
    {
        let off = ptr - self.start;
        let n = self.allocations.len();
        let mut i: usize = 0;
        while i < n
            invariant
                self.wf(),
                *self == *old(self),
                off == ptr - self.start,
                n == self.allocations@.len(),
                i <= n,
                forall|j: int| 0 <= j < i ==> #[trigger] self.allocations@[j] != (off, size),
            decreases n - i,
        {
            if self.allocations[i].0 == off && self.allocations[i].1 == size {
                let ghost old_al = self.allocations@;
                let ghost old_fb = self.free_blocks@;
                proof {
                    assert forall|k: int| 0 <= k < old_fb.len() implies disjoint(
                        #[trigger] old_fb[k],
                        (off, size),
                    ) by {
                        assert(disjoint(old_al[i as int], old_fb[k]));
                    }
                }
                self.allocations.remove(i);
                merge_free_blocks(&mut self.free_blocks, off, size);
                proof {
                    let al = self.allocations@;
                    let fb = self.free_blocks@;
                    assert(old_al[i as int] == (off, size));
                    assert forall|j: int| 0 <= j < fb.len() implies 0 < (#[trigger] fb[j]).1
                        && end_of(fb[j]) <= self.bump by {
                        assert(covers(fb, end_of(fb[j]) - 1));
                        if covers(old_fb, end_of(fb[j]) - 1) {
                            let k = choose|k: int|
                                0 <= k < old_fb.len() && (#[trigger] old_fb[k]).0 <= end_of(fb[j])
                                    - 1 < end_of(old_fb[k]);
                        }
                    }
                    assert forall|p: int, q: int|
                        0 <= p < al.len() && 0 <= q < fb.len() implies disjoint(
                        #[trigger] al[p],
                        #[trigger] fb[q],
                    ) by {
                        let op = if p < i { p } else { p + 1 };
                        assert(al[p] == old_al[op]);
                        if !disjoint(al[p], fb[q]) {
                            lemma_overlap_point(al[p], fb[q]);
                            let x = if al[p].0 <= fb[q].0 { fb[q].0 as int } else { al[p].0 as int };
                            assert(covers(fb, x));
                            if covers(old_fb, x) {
                                let k = choose|k: int|
                                    0 <= k < old_fb.len() && (#[trigger] old_fb[k]).0 <= x
                                        < end_of(old_fb[k]);
                                assert(disjoint(old_al[op], old_fb[k]));
                            } else {
                                assert(disjoint(old_al[op], old_al[i as int]));
                            }
                        }
                    }
                    assert forall|p: int, q: int|
                        0 <= p < al.len() && 0 <= q < al.len() && p != q implies disjoint(
                        #[trigger] al[p],
                        #[trigger] al[q],
                    ) by {
                        let op = if p < i { p } else { p + 1 };
                        let oq = if q < i { q } else { q + 1 };
                        assert(al[p] == old_al[op]);
                        assert(al[q] == old_al[oq]);
                        assert(disjoint(old_al[op], old_al[oq]));
                    }
                    assert forall|j: int| 0 <= j < al.len() implies 0 < (#[trigger] al[j]).1
                        && end_of(al[j]) <= self.bump by {
                        let oj = if j < i { j } else { j + 1 };
                        assert(al[j] == old_al[oj]);
                    }
                    assert(old_al.contains((off, size)));
                }
                return;
            }
            i += 1;
        }
        proof {
            assert(!self.allocations@.contains((off, size)));
        }
    }

    /// Serves the request on the path it is routed to, if this page is of
    /// that class and has room.
    pub fn try_alloc(&mut self, size: usize, align: usize) -> (r: Option<usize>)
        requires
            old(self).wf(),
            0 < align,
            old(self).start + PAGE_SIZE + align <= usize::MAX,
        ensures
            final(self).wf(),
            final(self).start == old(self).start,
            final(self).class == old(self).class,
            old(self).serves(size as int, align as int) ==> (r matches Some(a) && a == old(self).addr_for(size as int, align as int)),
            !old(self).serves(size as int, align as int) ==> r.is_none() && *final(self) == *old(self),
            r matches Some(a) ==> final(self).holds(a as int, size as int),
            r matches Some(a) ==> forall|z: int| !#[trigger] old(self).holds(a as int, z),
            old(self).serves(size as int, align as int) ==> final(self).allocated_from(
                old(self),
                size as int,
                align as int,
            ),
            forall|p: int, z: int| #[trigger] old(self).holds(p, z) ==> final(self).holds(p, z),
            old(self).class == PageClass::Small ==> final(self).allocations@ == old(self).allocations@
                && final(self).free_blocks@ == old(self).free_blocks@,
            old(self).class == PageClass::Large ==> final(self).slots@ == old(self).slots@,
            r matches Some(a) ==> a % align == 0 && old(self).start <= a && a + size <= old(self).start + PAGE_SIZE,
    {
        let small = size <= SMALL_BLOCK_SIZE && SMALL_BLOCK_SIZE % align == 0;
        if small {
            if self.class != PageClass::Small {
                return None;
            }
            let ghost s0 = self.slots@;
            let r = self.alloc_small();
            proof {
                if has_free_slot(s0) {
                    let i = first_free(s0);
                    let w = choose|w: int| 0 <= w < s0.len() && !(#[trigger] s0[w]);
                    lemma_lowest_free(s0, w);
                    lemma_slot_aligned(self.start as int, i, align as int);
                    assert((i * SMALL_BLOCK_SIZE) % SMALL_BLOCK_SIZE as int == 0
                        && (i * SMALL_BLOCK_SIZE) / SMALL_BLOCK_SIZE as int == i) by (nonlinear_arith)
                        requires 0 <= i, SMALL_BLOCK_SIZE == 256;
                    assert(self.slots@[i]);
                }
                assert forall|p: int, z: int| #[trigger] old(self).holds(p, z) implies self.holds(p, z) by {
                    let j = (p - self.start) / SMALL_BLOCK_SIZE as int;
                    assert(self.slots@[j]);
                }
                if has_free_slot(s0) {
                    let i = first_free(s0);
                    assert(!s0[i]);
                }
            }
            r
        } else {
            if self.class != PageClass::Large {
                return None;
            }
            let ghost p0 = *self;
            let n: usize = if size == 0 { 1 } else { size };
            let r = self.alloc_large(n, align);
            proof {
                if p0.large_serves(n as int, align as int) {
                    if p0.has_fit(n as int, align as int) {
                        let i = p0.first_fit(n as int, align as int);
                        let w = choose|w: int|
                            0 <= w < p0.free_blocks@.len() && fits(
                                p0.start as int,
                                #[trigger] p0.free_blocks@[w],
                                n as int,
                                align as int,
                            );
                        lemma_lowest_fit(p0, n as int, align as int, w);
                        lemma_align_up(p0.start + p0.free_blocks@[i].0, align as int);
                    } else {
                        lemma_align_up(p0.start + p0.bump, align as int);
                    }
                    let e = self.allocations@[self.allocations@.len() - 1];
                    assert(self.allocations@.contains(e));
                }
                if r.is_some() {
                    let a = r->0;
                    assert forall|z: int| !#[trigger] p0.holds(a as int, z) by {
                        let e = ((a - p0.start) as usize, block_len(z) as usize);
                        if p0.allocations@.contains(e) {
                            let k = choose|k: int| 0 <= k < p0.allocations@.len() && p0.allocations@[k] == e;
                            assert(p0.allocations@[k].0 != a - p0.start);
                        }
                    }
                }
                assert forall|p: int, z: int| #[trigger] p0.holds(p, z) implies self.holds(p, z) by {
                    let e = ((p - p0.start) as usize, block_len(z) as usize);
                    if r.is_some() {
                        let k = choose|k: int| 0 <= k < p0.allocations@.len() && p0.allocations@[k] == e;
                        assert(self.allocations@[k] == e);
                    }
                }
            }
            r
        }
    }

    /// Tells whether `(ptr, size)` is a block this page has handed out.
    pub fn holds_block(&self, ptr: usize, size: usize) -> (r: bool)
        requires
            self.wf(),
            self.start <= ptr < self.start + PAGE_SIZE,
        ensures
            r == self.holds(ptr as int, size as int),
    {
        let off = ptr - self.start;
        if self.class == PageClass::Small {
            size <= SMALL_BLOCK_SIZE && off % SMALL_BLOCK_SIZE == 0 && self.slots[off / SMALL_BLOCK_SIZE]
        } else {
            let len: usize = if size == 0 { 1 } else { size };
            let n = self.allocations.len();
            let mut i: usize = 0;
            while i < n
                invariant
                    n == self.allocations@.len(),
                    i <= n,
                    self.class != PageClass::Small,
                    off == ptr - self.start,
                    len == block_len(size as int),
                    forall|j: int| 0 <= j < i ==> #[trigger] self.allocations@[j] != (off, len),
                decreases n - i,
            {
                if self.allocations[i].0 == off && self.allocations[i].1 == len {
                    assert(self.allocations@[i as int] == (off, len));
                    assert(self.allocations@.contains((off, len)));
                    return true;
                }
                i += 1;
            }
            false
        }
    }

    /// Frees the slot holding `ptr`, then packs the occupied slots.
    pub fn dealloc_small(&mut self, ptr: usize)
        requires
            old(self).wf(),
            old(self).start <= ptr < old(self).start + PAGE_SIZE,
        ensures
            final(self).wf(),
            final(self).start == old(self).start,
            final(self).class == old(self).class,
            final(self).bump == old(self).bump,
            final(self).allocations@ == old(self).allocations@,
            final(self).free_blocks@ == old(self).free_blocks@,
            final(self).slots@ == compacted(
                old(self).slots@.update((ptr - old(self).start) / SMALL_BLOCK_SIZE as int, false),
            ),
    {
        let slot = (ptr - self.start) / SMALL_BLOCK_SIZE;
        self.slots.set(slot, false);
        Self::compact_small_block_bitmap(&mut self.slots);
    }
}

} // verus!
