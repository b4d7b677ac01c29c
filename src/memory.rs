//! Physical frames handed back by the kernel and handed out again, within
//! the regions of the boot memory map.
use vstd::prelude::*;

verus! {

/// Size of a physical frame.
pub const FRAME_SIZE: u64 = 4096;

/// Start of the frame that holds `addr`.
pub open spec fn frame_of(addr: int) -> int {
    addr - addr % FRAME_SIZE as int
}

/// `frame` is the frame of one of the addresses visited in `region`: its
/// start, then every `FRAME_SIZE` bytes below its end.
pub open spec fn region_visits(region: (u64, u64), k: int) -> bool {
    0 <= k && region.0 + k * FRAME_SIZE < region.1
}

/// `s` without any occurrence of `f`, order kept.
pub open spec fn remove_all(s: Seq<u64>, f: u64) -> Seq<u64>
    decreases s.len(),
{
    if s.len() == 0 {
        s
    } else if s.last() == f {
        remove_all(s.drop_last(), f)
    } else {
        remove_all(s.drop_last(), f).push(s.last())
    }
}

/// Hands out frames that were released into it, searching the regions of
/// the memory map in order.
pub struct BootInfoFrameAllocator {
    /// `(start, end)` of each region of the memory map.
    pub regions: Vec<(u64, u64)>,
    /// Start addresses of the released frames.
    pub free_frames: Vec<u64>,
}

impl BootInfoFrameAllocator {
    /// `(i, k)`: the `k`-th address visited in region `i` lies in a free frame.
    pub open spec fn free_at(&self, i: int, k: int) -> bool {
        &&& 0 <= i < self.regions@.len()
        &&& region_visits(self.regions@[i], k)
        &&& self.free_frames@.contains(
            frame_of(self.regions@[i].0 + k * FRAME_SIZE) as u64,
        )
    }

    /// An allocator over `regions` with no free frame yet.
    pub fn init(regions: Vec<(u64, u64)>) -> (a: BootInfoFrameAllocator)
        ensures
            a.regions@ == regions@,
            a.free_frames@.len() == 0,
    {
        BootInfoFrameAllocator { regions, free_frames: Vec::new() }
    }

    /// Tells whether `frame` is among the free frames.
    pub fn is_frame_free(&self, frame: u64) -> (r: bool)
        ensures
            r == self.free_frames@.contains(frame),
    {
        let n = self.free_frames.len();
        let mut i: usize = 0;
        while i < n
            invariant
                n == self.free_frames@.len(),
                i <= n,
                forall|j: int| 0 <= j < i ==> self.free_frames@[j] != frame,
            decreases n - i,
        {
            if self.free_frames[i] == frame {
                assert(self.free_frames@[i as int] == frame);
                return true;
            }
            i += 1;
        }
        false
    }

    /// Takes `frame` out of the free frames.
    pub fn mark_frame_allocated(&mut self, frame: u64)
        ensures
            final(self).free_frames@ == remove_all(old(self).free_frames@, frame),
            final(self).regions@ == old(self).regions@,
    {
        let n = self.free_frames.len();
        let mut kept: Vec<u64> = Vec::new();
        let mut i: usize = 0;
        while i < n
            invariant
                n == self.free_frames@.len(),
                i <= n,
                kept@ == remove_all(self.free_frames@.take(i as int), frame),
                self.free_frames@ == old(self).free_frames@,
                self.regions@ == old(self).regions@,
            decreases n - i,
        {
            let f = self.free_frames[i];
            proof {
                assert(self.free_frames@.take(i + 1).drop_last() =~= self.free_frames@.take(i as int));
            }
            if f != frame {
                kept.push(f);
            }
            i += 1;
        }
        assert(self.free_frames@.take(n as int) =~= self.free_frames@);
        self.free_frames = kept;
    }

    /// Hands out the first free frame met while walking the regions in
    /// order, each from its start in steps of `FRAME_SIZE`; `None` when no
    /// visited address lies in a free frame.
    pub fn allocate_frame(&mut self) -> (r: Option<u64>)
        ensures
            final(self).regions@ == old(self).regions@,
            r matches Some(f) ==> exists|i: int, k: int|
                #![trigger old(self).free_at(i, k)]
                old(self).free_at(i, k) && f == frame_of(old(self).regions@[i].0 + k * FRAME_SIZE)
                    && forall|i2: int, k2: int|
                    (i2 < i || (i2 == i && k2 < k)) ==> !#[trigger] old(self).free_at(i2, k2),
            r matches Some(f) ==> final(self).free_frames@ == remove_all(old(self).free_frames@, f),
            r is None ==> forall|i: int, k: int| !#[trigger] old(self).free_at(i, k),
            r is None ==> final(self).free_frames@ == old(self).free_frames@,
    {
        let nr = self.regions.len();
        let mut i: usize = 0;
        while i < nr
            invariant
                nr == self.regions@.len(),
                i <= nr,
                self.regions@ == old(self).regions@,
                self.free_frames@ == old(self).free_frames@,
                forall|i2: int, k2: int| i2 < i ==> !#[trigger] old(self).free_at(i2, k2),
            decreases nr - i,
        {
            let (start, end) = self.regions[i];
            let mut addr = start;
            let mut done = start >= end;
            let ghost mut k: int = 0;
            while !done
                invariant
                    nr == self.regions@.len(),
                    i < nr,
                    (start, end) == self.regions@[i as int],
                    self.regions@ == old(self).regions@,
                    self.free_frames@ == old(self).free_frames@,
                    forall|i2: int, k2: int| i2 < i ==> !#[trigger] old(self).free_at(i2, k2),
                    0 <= k,
                    done ==> start + k * FRAME_SIZE >= end,
                    !done ==> addr == start + k * FRAME_SIZE && addr < end,
                    start <= addr <= end || done,
                    forall|k2: int| k2 < k ==> !#[trigger] old(self).free_at(i as int, k2),
                decreases end - addr + if done { 0int } else { 1int },
            {
                let frame = addr - addr % FRAME_SIZE;
                if self.is_frame_free(frame) {
                    proof {
                        assert(old(self).free_at(i as int, k));
                        assert forall|i2: int, k2: int|
                            (i2 < i || (i2 == i && k2 < k)) implies !#[trigger] old(self).free_at(
                            i2,
                            k2,
                        ) by {}
                    }
                    self.mark_frame_allocated(frame);
                    return Some(frame);
                }
                if end - addr <= FRAME_SIZE {
                    done = true;
                    proof {
                        k = k + 1;
                    }
                } else {
                    addr = addr + FRAME_SIZE;
                    proof {
                        k = k + 1;
                    }
                }
            }
            proof {
                assert forall|i2: int, k2: int| i2 < i + 1 implies !#[trigger] old(self).free_at(i2, k2) by {
                    if i2 == i && k2 >= k {
                        assert(start + k2 * FRAME_SIZE >= end);
                    }
                }
            }
            i += 1;
        }
        None
    }

    /// Returns `frame` to the free frames if its start lies in a region of
    /// the memory map; tells whether it did.
    pub fn deallocate_frame(&mut self, frame: u64) -> (known: bool)
        ensures
            final(self).regions@ == old(self).regions@,
            known == exists|i: int|
                0 <= i < old(self).regions@.len() && (#[trigger] old(self).regions@[i]).0 <= frame
                    < old(self).regions@[i].1,
            known ==> final(self).free_frames@ == old(self).free_frames@.push(frame),
            !known ==> final(self).free_frames@ == old(self).free_frames@,
    {
        let nr = self.regions.len();
        let mut i: usize = 0;
        while i < nr
            invariant
                nr == self.regions@.len(),
                i <= nr,
                self.regions@ == old(self).regions@,
                self.free_frames@ == old(self).free_frames@,
                forall|j: int| 0 <= j < i ==> !((#[trigger] self.regions@[j]).0 <= frame < self.regions@[j].1),
            decreases nr - i,
        {
            let (start, end) = self.regions[i];
            if start <= frame && frame < end {
                self.free_frames.push(frame);
                return true;
            }
            i += 1;
        }
        false
    }
}

} // verus!
