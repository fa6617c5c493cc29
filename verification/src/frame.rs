//! Physical memory as the page tables see it: a contiguous run of page
//! frames, each of 512 eight-byte words, handed out one by one by a frame
//! allocator that clears every frame it hands out.
use vstd::prelude::*;
use crate::address::{PhysPageNum, PPN_LIMIT};

verus! {

/// Number of eight-byte words in a page frame.
pub const WORDS_PER_FRAME: u64 = 512;

/// The managed frames `base .. base + frames`, the first `next` of which
/// have been handed out, and the words they hold.
pub struct PhysMemory {
    base: u64,
    frames: u64,
    next: u64,
    words: Vec<u64>,
}

impl PhysMemory {
    /// First managed frame.
    pub closed spec fn base(&self) -> u64 {
        self.base
    }

    /// Number of managed frames.
    pub closed spec fn frame_count(&self) -> u64 {
        self.frames
    }

    /// Number of frames handed out so far.
    pub closed spec fn used(&self) -> u64 {
        self.next
    }

    /// Number of frames still free.
    pub open spec fn free_frames(&self) -> int {
        self.frame_count() - self.used()
    }

    /// The frame that the next allocation hands out.
    pub open spec fn next_frame(&self) -> u64 {
        (self.base() + self.used()) as u64
    }

    /// Whether `ppn` is a frame that has been handed out.
    pub open spec fn allocated(&self, ppn: u64) -> bool {
        self.base() <= ppn < self.base() + self.used()
    }

    /// Word `k` of frame `ppn` (0 for a frame outside the managed run).
    pub closed spec fn word(&self, ppn: u64, k: u64) -> u64 {
        if self.base <= ppn < self.base + self.frames {
            self.words@[(ppn - self.base) * 512 + k]
        } else {
            0
        }
    }

    /// Well-formedness: one block of 512 words per managed frame, and every
    /// managed frame number fits the 44 bits of a page-table entry.
    pub closed spec fn wf(&self) -> bool {
        &&& self.words.len() == self.frames * 512
        &&& self.next <= self.frames
        &&& self.base + self.frames <= PPN_LIMIT
    }

    /// `self` is `old` with nothing changed but word `k` of frame `ppn`, which holds `v`.
    pub open spec fn is_write_of(&self, old: PhysMemory, ppn: u64, k: u64, v: u64) -> bool {
        &&& self.wf()
        &&& self.base() == old.base()
        &&& self.frame_count() == old.frame_count()
        &&& self.used() == old.used()
        &&& forall|p: u64, j: u64|
            j < 512 ==> #[trigger] self.word(p, j) == (if p == ppn && j == k {
                v
            } else {
                old.word(p, j)
            })
    }

    /// `self` is `old` after handing out frame `f`, cleared.
    pub open spec fn is_alloc_of(&self, old: PhysMemory, f: u64) -> bool {
        &&& self.wf()
        &&& f == old.next_frame()
        &&& self.base() == old.base()
        &&& self.frame_count() == old.frame_count()
        &&& self.used() == old.used() + 1
        &&& forall|p: u64, j: u64|
            j < 512 ==> #[trigger] self.word(p, j) == (if p == f {
                0
            } else {
                old.word(p, j)
            })
    }

    /// `self` is `old` after handing out frame `f`, cleared, and storing `v`
    /// into word `k` of frame `ppn`, which was already handed out.
    pub open spec fn is_link_of(&self, old: PhysMemory, f: u64, ppn: u64, k: u64, v: u64) -> bool {
        &&& self.wf()
        &&& f == old.next_frame()
        &&& old.allocated(ppn)
        &&& self.base() == old.base()
        &&& self.frame_count() == old.frame_count()
        &&& self.used() == old.used() + 1
        &&& forall|p: u64, j: u64|
            j < 512 ==> #[trigger] self.word(p, j) == (if p == ppn && j == k {
                v
            } else if p == f {
                0
            } else {
                old.word(p, j)
            })
    }

    /// The bounds that well-formedness gives.
    pub proof fn lemma_wf_bounds(&self)
        requires
            self.wf(),
        ensures
            self.used() <= self.frame_count(),
            self.base() + self.frame_count() <= PPN_LIMIT,
            self.next_frame() == self.base() + self.used(),
    {
    }

    proof fn lemma_index(&self, ppn: u64, k: u64)
        requires
            self.wf(),
            self.base <= ppn < self.base + self.frames,
            k < 512,
        ensures
            0 <= (ppn - self.base) * 512 + k < self.words.len(),
    {
    }

    /// Memory of `frames` cleared frames starting at frame `base`, none
    /// handed out yet.
    pub fn new(base: u64, frames: u64) -> (r: PhysMemory)
        requires
            base + frames <= PPN_LIMIT,
            frames * 512 <= usize::MAX,
        ensures
            r.wf(),
            r.base() == base,
            r.frame_count() == frames,
            r.used() == 0,
            forall|p: u64, k: u64| k < 512 ==> #[trigger] r.word(p, k) == 0,
    {
        let n: usize = (frames * 512) as usize;
        let mut words: Vec<u64> = Vec::new();
        while words.len() < n
            invariant
                words.len() <= n,
                forall|i: int| 0 <= i < words.len() ==> words@[i] == 0,
            decreases n - words.len(),
        {
            words.push(0);
        }
        PhysMemory { base, frames, next: 0, words }
    }

    /// Reads word `k` of frame `ppn`.
    pub fn read(&self, ppn: PhysPageNum, k: u64) -> (r: u64)
        requires
            self.wf(),
            self.allocated(ppn.0),
            k < 512,
        ensures
            r == self.word(ppn.0, k),
    {
        proof {
            self.lemma_index(ppn.0, k);
        }
        self.words[((ppn.0 - self.base) * 512 + k) as usize]
    }

    /// Writes `v` into word `k` of frame `ppn`.
    pub fn write(&mut self, ppn: PhysPageNum, k: u64, v: u64)
        requires
            old(self).wf(),
            old(self).allocated(ppn.0),
            k < 512,
        ensures
            final(self).is_write_of(*old(self), ppn.0, k, v),
    {
        proof {
            self.lemma_index(ppn.0, k);
        }
        let i: usize = ((ppn.0 - self.base) * 512 + k) as usize;
        self.words.set(i, v);
        assert forall|p: u64, j: u64| j < 512 implies #[trigger] self.word(p, j) == (if p == ppn.0 && j == k {
            v
        } else {
            old(self).word(p, j)
        }) by {
            if !(p == ppn.0 && j == k) {
                assert((p - self.base) * 512 + j != (ppn.0 - self.base) * 512 + k);
            }
        }
    }

    /// Hands out the next free frame, cleared; `None` when every frame is
    /// in use.
    pub fn alloc_frame(&mut self) -> (r: Option<PhysPageNum>)
        requires
            old(self).wf(),
        ensures
            old(self).free_frames() > 0 ==> r == Some(PhysPageNum(old(self).next_frame())),
            old(self).free_frames() == 0 ==> r is None && *final(self) == *old(self),
            r matches Some(f) ==> final(self).is_alloc_of(*old(self), f.0),
    {
        if self.next >= self.frames {
            return None;
        }
        let f = self.base + self.next;
        let start: usize = (self.next * 512) as usize;
        let ghost old_mem = *self;
        let mut k: usize = 0;
        while k < 512
            invariant
                0 <= k <= 512,
                self.base == old_mem.base,
                self.frames == old_mem.frames,
                self.next == old_mem.next,
                self.next < self.frames,
                f == self.base + self.next,
                start == self.next * 512,
                self.words.len() == old_mem.words.len(),
                self.wf(),
                forall|i: int|
                    0 <= i < self.words.len() ==> #[trigger] self.words@[i] == (if start <= i < start + k {
                        0
                    } else {
                        old_mem.words@[i]
                    }),
            decreases 512 - k,
        {
            self.words.set(start + k, 0);
            k = k + 1;
        }
        self.next = self.next + 1;
        assert forall|p: u64, j: u64| j < 512 implies #[trigger] self.word(p, j) == (if p == f {
            0
        } else {
            old_mem.word(p, j)
        }) by {
            let i = (p - self.base) * 512 + j;
            if p == f {
                assert(i == start + j);
            } else if self.base <= p < self.base + self.frames {
                assert(!(start <= i < start + 512));
            }
        }
        Some(PhysPageNum(f))
    }
}

} // verus!
