//! Sv39 page-table entries and three-level page tables.
use vstd::prelude::*;
use crate::address::{
    PhysPageNum, VirtPageNum, VirtAddr, PAGE_SIZE, PPN_LIMIT, VPN_LIMIT, VA_LOW_HALF_END, VA_HIGH_HALF_START,
    VA_SIGN_EXTENSION, vpn_index,
};
use crate::frame::PhysMemory;
use crate::walk::{
    walk, walkable, tree_shaped, mappings, has_l1, has_l2, l1_table, l2_table, frames_needed, on_path, same_path, created_tables, path_links,
    is_table, lemma_tables_grow, lemma_empty_root, lemma_create_l1, lemma_create_l2, lemma_write_leaf, lemma_vpn_index_facts,
};

verus! {

/// Flag bits of a page-table entry; the associated constants are the bit
/// of each flag.
#[derive(Clone, Copy, Debug, PartialEq, Eq, Structural)]
pub struct PTEFlags {
    pub bits: u8,
}

impl PTEFlags {
    /// Valid.
    pub const V: u8 = 1;
    /// Readable.
    pub const R: u8 = 2;
    /// Writable.
    pub const W: u8 = 4;
    /// Executable.
    pub const X: u8 = 8;
    /// Accessible from user mode.
    pub const U: u8 = 16;
    /// Global.
    pub const G: u8 = 32;
    /// Accessed.
    pub const A: u8 = 64;
    /// Dirty.
    pub const D: u8 = 128;

    /// No flag set.
    pub fn empty() -> (r: PTEFlags)
        ensures
            r.bits == 0,
    {
        PTEFlags { bits: 0 }
    }

    /// The raw flag bits.
    pub fn bits(&self) -> (r: u8)
        ensures
            r == self.bits,
    {
        self.bits
    }

    /// The flags whose bits are `bits`; every one of the eight bits names a
    /// flag, so this never fails.
    pub fn from_bits(bits: u8) -> (r: Option<PTEFlags>)
        ensures
            r == Some(PTEFlags { bits }),
    {
        Some(PTEFlags { bits })
    }

    /// The flags set in `self` or in `other`.
    pub fn union(self, other: PTEFlags) -> (r: PTEFlags)
        ensures
            r.bits == self.bits | other.bits,
    {
        PTEFlags { bits: self.bits | other.bits }
    }

    /// The flags set in both `self` and `other`.
    pub fn intersection(self, other: PTEFlags) -> (r: PTEFlags)
        ensures
            r.bits == self.bits & other.bits,
    {
        PTEFlags { bits: self.bits & other.bits }
    }

    /// Whether no flag is set.
    pub fn is_empty(&self) -> (r: bool)
        ensures
            r == (self.bits == 0),
    {
        self.bits == 0
    }
}

/// The physical page number that the entry `bits` points to: bits 10..54.
pub open spec fn pte_ppn(bits: u64) -> u64 {
    (bits >> 10u64) & 0xfff_ffff_ffffu64
}

/// The flag bits of the entry `bits`: its low byte.
pub open spec fn pte_flags(bits: u64) -> u8 {
    (bits & 0xffu64) as u8
}

/// Whether the entry `bits` has its valid bit set.
pub open spec fn pte_valid(bits: u64) -> bool {
    bits & 1u64 == 1u64
}

/// The entry that points to `ppn` with the flag bits `flags`.
pub open spec fn pte_encode(ppn: u64, flags: u8) -> u64 {
    (ppn << 10u64) | (flags as u64)
}

/// An entry built from a page number of at most 44 bits and a flag byte
/// gives both back, and is valid exactly when the flags hold `V`.
pub proof fn lemma_pte_encode_decode(ppn: u64, flags: u8)
    requires
        ppn < PPN_LIMIT,
    ensures
        pte_ppn(pte_encode(ppn, flags)) == ppn,
        pte_flags(pte_encode(ppn, flags)) == flags,
        pte_valid(pte_encode(ppn, flags)) == (flags & 1u8 == 1u8),
{
    let f: u64 = flags as u64;
    assert(f < 256);
    assert(ppn < 0x1000_0000_0000u64 && f < 256 ==> ((ppn << 10u64) | f) >> 10u64 & 0xfff_ffff_ffffu64 == ppn) by (bit_vector);
    assert(f < 256 ==> ((ppn << 10u64) | f) & 0xffu64 == f) by (bit_vector);
    assert(f < 256 ==> (((ppn << 10u64) | f) & 1u64 == 1u64) == (f & 1u64 == 1u64)) by (bit_vector);
    assert((flags & 1u8 == 1u8) == ((flags as u64) & 1u64 == 1u64)) by (bit_vector);
}

/// A clear entry is not valid, and a flag byte holding only `V` has the
/// valid bit.
pub proof fn lemma_clear_and_link_flags()
    ensures
        !pte_valid(0u64),
        1u8 & 1u8 == 1u8,
{
    assert(!(0u64 & 1u64 == 1u64) && 1u8 & 1u8 == 1u8) by (bit_vector);
}

/// The Sv39 entry layout in arithmetic terms: the flags are the low byte,
/// the valid flag is bit 0, the page number is the 44 bits from bit 10 on,
/// and an entry is built as `ppn * 1024 + flags`.
pub proof fn lemma_pte_layout(bits: u64, ppn: u64, flags: u8)
    ensures
        pte_flags(bits) == bits % 256,
        pte_valid(bits) == (bits % 2 == 1),
        pte_ppn(bits) == bits / 1024 % 0x1000_0000_0000,
        ppn < PPN_LIMIT ==> pte_encode(ppn, flags) == ppn * 1024 + flags,
{
    assert((bits & 0xffu64) == bits % 256) by (bit_vector);
    assert((bits & 0xffu64) as u8 == bits % 256) by (bit_vector);
    assert((bits & 1u64 == 1u64) == (bits % 2 == 1)) by (bit_vector);
    assert((bits >> 10u64) & 0xfff_ffff_ffffu64 == bits / 1024 % 0x1000_0000_0000u64) by (bit_vector);
    let f = flags as u64;
    assert(f < 256);
    assert(ppn < 0x1000_0000_0000u64 && f < 256 ==> (ppn << 10u64) | f == ppn * 1024 + f) by (bit_vector);
}

/// A page-table entry: a physical page number and eight flag bits.
#[derive(Clone, Copy, Debug, PartialEq, Eq, Structural)]
pub struct PageTableEntry {
    pub bits: u64,
}

impl PageTableEntry {
    /// The entry that points to `ppn` with `flags`.
    pub fn new(ppn: PhysPageNum, flags: PTEFlags) -> (r: PageTableEntry)
        ensures
            r.bits == pte_encode(ppn.0, flags.bits),
    {
        PageTableEntry { bits: ppn.0 << 10 | flags.bits as u64 }
    }

    /// The entry with every bit clear.
    pub fn empty() -> (r: PageTableEntry)
        ensures
            r.bits == 0,
            !pte_valid(r.bits),
    {
        proof {
            lemma_clear_and_link_flags();
        }
        PageTableEntry { bits: 0 }
    }

    /// The physical page number this entry points to.
    pub fn ppn(&self) -> (r: PhysPageNum)
        ensures
            r.0 == pte_ppn(self.bits),
    {
        let b = self.bits;
        let p = (b >> 10) & (PPN_LIMIT - 1);
        assert(((b >> 10u64) & 0xfff_ffff_ffffu64) % 0x1000_0000_0000u64 == (b >> 10u64) & 0xfff_ffff_ffffu64) by (bit_vector);
        PhysPageNum::from_word(p)
    }

    /// The flags of this entry.
    pub fn flags(&self) -> (r: PTEFlags)
        ensures
            r.bits == pte_flags(self.bits),
    {
        let b = self.bits;
        assert(b as u8 == (b & 0xffu64) as u8) by (bit_vector);
        PTEFlags::from_bits(self.bits as u8).unwrap()
    }

    /// Whether the page this entry points to is valid.
    pub fn is_valid(&self) -> (r: bool)
        ensures
            r == pte_valid(self.bits),
    {
        let b = self.bits;
        assert((((b & 0xffu64) as u8) & 1u8 != 0u8) == (b & 1u64 == 1u64)) by (bit_vector);
        !self.flags().intersection(PTEFlags { bits: PTEFlags::V }).is_empty()
    }

    /// Whether the page this entry points to is readable.
    pub fn readable(&self) -> (r: bool)
        ensures
            r == (self.bits & 2u64 == 2u64),
    {
        let b = self.bits;
        assert((((b & 0xffu64) as u8) & 2u8 != 0u8) == (b & 2u64 == 2u64)) by (bit_vector);
        !self.flags().intersection(PTEFlags { bits: PTEFlags::R }).is_empty()
    }

    /// Whether the page this entry points to is writable.
    pub fn writable(&self) -> (r: bool)
        ensures
            r == (self.bits & 4u64 == 4u64),
    {
        let b = self.bits;
        assert((((b & 0xffu64) as u8) & 4u8 != 0u8) == (b & 4u64 == 4u64)) by (bit_vector);
        !self.flags().intersection(PTEFlags { bits: PTEFlags::W }).is_empty()
    }

    /// Whether the page this entry points to is executable.
    pub fn executable(&self) -> (r: bool)
        ensures
            r == (self.bits & 8u64 == 8u64),
    {
        let b = self.bits;
        assert((((b & 0xffu64) as u8) & 8u8 != 0u8) == (b & 8u64 == 8u64)) by (bit_vector);
        !self.flags().intersection(PTEFlags { bits: PTEFlags::X }).is_empty()
    }
}

} // verus!

verus! {

/// A page table: the frame of its root table, and the frames of the tables
/// it created (its own root among them when it created the root).
pub struct PageTable {
    root_ppn: PhysPageNum,
    frames: Vec<PhysPageNum>,
}

/// The root frame named by the `satp` value `satp`: its low 44 bits.
pub open spec fn token_root(satp: u64) -> u64 {
    satp % PPN_LIMIT
}

impl PageTable {
    /// The frame of the root table.
    pub closed spec fn root(&self) -> u64 {
        self.root_ppn.0
    }

    /// The frames this table created, in the order it created them.
    pub closed spec fn frames(&self) -> Seq<PhysPageNum> {
        self.frames@
    }

    /// A table with a fresh, cleared root frame: it maps nothing.
    pub fn new(mem: &mut PhysMemory) -> (r: PageTable)
        requires
            old(mem).wf(),
            old(mem).free_frames() > 0,
        ensures
            final(mem).is_alloc_of(*old(mem), r.root()),
            r.root() == old(mem).next_frame(),
            r.frames() == seq![PhysPageNum(r.root())],
            tree_shaped(*final(mem), r.root()),
            mappings(*final(mem), r.root()) == Map::<u64, u64>::empty(),
    {
        proof {
            old(mem).lemma_wf_bounds();
        }
        let frame = mem.alloc_frame().unwrap();
        proof {
            lemma_empty_root(*mem, frame.0);
        }
        PageTable { root_ppn: frame, frames: vec![frame] }
    }

    /// The table whose root frame is named by the `satp` value `satp`; it
    /// owns no frame.
    pub fn from_token(satp: u64) -> (r: PageTable)
        ensures
            r.root() == token_root(satp),
            r.frames() == Seq::<PhysPageNum>::empty(),
    {
        assert(satp & 0xfff_ffff_ffffu64 == satp % 0x1000_0000_0000u64) by (bit_vector);
        PageTable { root_ppn: PhysPageNum::from_word(satp & (PPN_LIMIT - 1)), frames: Vec::new() }
    }

    /// The location (table frame, index) of the leaf entry for `vpn`, or
    /// `None` when an entry on the way is not valid.
    fn find_pte(&self, mem: &PhysMemory, vpn: VirtPageNum) -> (r: Option<(PhysPageNum, u64)>)
        requires
            walkable(*mem, self.root()),
        ensures
            match r {
                None => walk(*mem, self.root(), vpn.0) is None,
                Some((t, k)) => {
                    &&& has_l2(*mem, self.root(), vpn_index(vpn.0, 0), vpn_index(vpn.0, 1))
                    &&& t.0 == l2_table(*mem, self.root(), vpn_index(vpn.0, 0), vpn_index(vpn.0, 1))
                    &&& k == vpn_index(vpn.0, 2)
                },
            },
    {
        let idxs = vpn.indexes();
        let mut ppn = self.root_ppn;
        let mut i: usize = 0;
        while i < 3
            invariant
                i <= 2,
                walkable(*mem, self.root()),
                idxs@.len() == 3,
                forall|l: int| 0 <= l < 3 ==> idxs@[l] == vpn_index(vpn.0, l) && idxs@[l] < 512,
                i == 0 ==> ppn.0 == self.root(),
                i == 1 ==> has_l1(*mem, self.root(), idxs@[0]) && ppn.0 == l1_table(
                    *mem,
                    self.root(),
                    idxs@[0],
                ),
                i == 2 ==> has_l2(*mem, self.root(), idxs@[0], idxs@[1]) && ppn.0 == l2_table(
                    *mem,
                    self.root(),
                    idxs@[0],
                    idxs@[1],
                ),
            decreases 3 - i,
        {
            let pte = PageTableEntry { bits: mem.read(ppn, idxs[i]) };
            if i == 2 {
                return Some((ppn, idxs[i]));
            }
            if !pte.is_valid() {
                return None;
            }
            ppn = pte.ppn();
            i = i + 1;
        }
        None
    }

    /// The location of the leaf entry for `vpn`, after creating, from
    /// fresh cleared frames, the tables that are missing on the way.
    fn find_pte_create(&mut self, mem: &mut PhysMemory, vpn: VirtPageNum) -> (r: (PhysPageNum, u64))
        requires
            tree_shaped(*old(mem), old(self).root()),
            old(mem).free_frames() >= frames_needed(*old(mem), old(self).root(), vpn.0),
        ensures
            final(self).root() == old(self).root(),
            tree_shaped(*final(mem), final(self).root()),
            has_l2(*final(mem), final(self).root(), vpn_index(vpn.0, 0), vpn_index(vpn.0, 1)),
            r.0.0 == l2_table(*final(mem), final(self).root(), vpn_index(vpn.0, 0), vpn_index(vpn.0, 1)),
            r.1 == vpn_index(vpn.0, 2),
            final(mem).base() == old(mem).base(),
            final(mem).frame_count() == old(mem).frame_count(),
            final(mem).used() == old(mem).used() + frames_needed(*old(mem), old(self).root(), vpn.0),
            forall|v: u64| #[trigger]
                walk(*final(mem), final(self).root(), v) == (if vpn_index(v, 0) == vpn_index(vpn.0, 0)
                    && vpn_index(v, 1) == vpn_index(vpn.0, 1) && walk(*old(mem), old(self).root(), v) is None {
                    Some(0u64)
                } else {
                    walk(*old(mem), old(self).root(), v)
                }),
            forall|p: u64, k: u64|
                k < 512 && !on_path(*final(mem), final(self).root(), vpn.0, p, k, 2) ==> #[trigger] final(mem).word(p, k) == (
                if old(mem).allocated(p) || !final(mem).allocated(p) {
                    old(mem).word(p, k)
                } else {
                    0
                }),
            forall|p: u64| #[trigger] is_table(*final(mem), final(self).root(), p) ==> is_table(
                *old(mem),
                old(self).root(),
                p,
            ) || !old(mem).allocated(p),
            final(self).frames().len() == old(self).frames().len() + frames_needed(*old(mem), old(self).root(), vpn.0),
            final(self).frames().subrange(0, old(self).frames().len() as int) == old(self).frames(),
            forall|j: int|
                old(self).frames().len() <= j < final(self).frames().len() ==> !old(mem).allocated(
                    #[trigger] final(self).frames()[j].0,
                ) && final(mem).allocated(final(self).frames()[j].0),
            final(self).frames() == old(self).frames() + created_tables(*old(mem), *final(mem), old(self).root(), vpn.0),
            path_links(*old(mem), *final(mem), old(self).root(), vpn.0),
            frames_needed(*old(mem), old(self).root(), vpn.0) == 0 ==> *final(mem) == *old(mem)
                && final(self).frames() == old(self).frames(),
    {
        let ghost m0 = *mem;
        let ghost f0 = self.frames@;
        let ghost root = self.root_ppn.0;
        let idxs = vpn.indexes();
        let mut ppn = self.root_ppn;
        let mut i: usize = 0;
        proof {
            m0.lemma_wf_bounds();
        }
        while i < 3
            invariant
                i <= 2,
                self.root_ppn.0 == root,
                root == old(self).root(),
                m0 == *old(mem),
                f0 == old(self).frames(),
                tree_shaped(*mem, root),
                idxs@.len() == 3,
                forall|l: int| 0 <= l < 3 ==> idxs@[l] == vpn_index(vpn.0, l) && idxs@[l] < 512,
                i == 0 ==> ppn.0 == root,
                i >= 1 ==> has_l1(*mem, root, idxs@[0]),
                i == 1 ==> ppn.0 == l1_table(*mem, root, idxs@[0]),
                i == 2 ==> has_l2(*mem, root, idxs@[0], idxs@[1]) && ppn.0 == l2_table(
                    *mem,
                    root,
                    idxs@[0],
                    idxs@[1],
                ),
                mem.base() == m0.base(),
                mem.frame_count() == m0.frame_count(),
                mem.used() >= m0.used(),
                mem.used() + frames_needed(*mem, root, vpn.0) == m0.used() + frames_needed(m0, root, vpn.0),
                mem.free_frames() >= frames_needed(*mem, root, vpn.0),
                forall|v: u64| #[trigger]
                    walk(*mem, root, v) == (if i == 2 && vpn_index(v, 0) == idxs@[0] && vpn_index(v, 1)
                        == idxs@[1] && walk(m0, root, v) is None {
                        Some(0u64)
                    } else {
                        walk(m0, root, v)
                    }),
                forall|p: u64, k: u64|
                    k < 512 && !on_path(*mem, root, vpn.0, p, k, i as int) ==> #[trigger] mem.word(p, k) == (
                    if m0.allocated(p) || !mem.allocated(p) {
                        m0.word(p, k)
                    } else {
                        0
                    }),
                forall|p: u64| #[trigger] is_table(*mem, root, p) ==> is_table(m0, root, p) || !m0.allocated(p),
                self.frames@.len() + frames_needed(*mem, root, vpn.0) == f0.len() + frames_needed(m0, root, vpn.0),
                self.frames@.subrange(0, f0.len() as int) == f0,
                self.frames@.len() >= f0.len(),
                (i == 0 || has_l1(m0, root, idxs@[0])) && (i <= 1 || has_l2(m0, root, idxs@[0], idxs@[1]))
                    ==> *mem == m0 && self.frames@ == f0,
                i >= 1 ==> (has_l1(m0, root, idxs@[0]) ==> mem.word(root, idxs@[0]) == m0.word(root, idxs@[0])),
                i >= 1 ==> (!has_l1(m0, root, idxs@[0]) ==> mem.word(root, idxs@[0]) == pte_encode(
                    l1_table(*mem, root, idxs@[0]),
                    1u8,
                )),
                i == 1 ==> has_l2(*mem, root, idxs@[0], idxs@[1]) == has_l2(m0, root, idxs@[0], idxs@[1]),
                i == 2 ==> path_links(m0, *mem, root, vpn.0),
                self.frames@ == f0 + (if i == 0 {
                    Seq::<PhysPageNum>::empty()
                } else if i == 1 {
                    if !has_l1(m0, root, idxs@[0]) {
                        seq![PhysPageNum(l1_table(*mem, root, idxs@[0]))]
                    } else {
                        Seq::<PhysPageNum>::empty()
                    }
                } else {
                    created_tables(m0, *mem, root, vpn.0)
                }),
                forall|j: int|
                    f0.len() <= j < self.frames@.len() ==> !m0.allocated(#[trigger] self.frames@[j].0)
                        && mem.allocated(self.frames@[j].0),
            decreases 3 - i,
        {
            let mut pte = PageTableEntry { bits: mem.read(ppn, idxs[i]) };
            if i == 2 {
                return (ppn, idxs[i]);
            }
            if !pte.is_valid() {
                let ghost m1 = *mem;
                proof {
                    m1.lemma_wf_bounds();
                }
                let frame = mem.alloc_frame().unwrap();
                let ghost ma = *mem;
                pte = PageTableEntry::new(frame, PTEFlags { bits: PTEFlags::V });
                mem.write(ppn, idxs[i], pte.bits);
                self.frames.push(frame);
                proof {
                    let m2 = *mem;
                    assert(m1.allocated(ppn.0));
                    assert forall|p: u64, j: u64| j < 512 implies #[trigger] m2.word(p, j) == (if p == ppn.0
                        && j == idxs@[i as int] {
                        pte.bits
                    } else if p == frame.0 {
                        0
                    } else {
                        m1.word(p, j)
                    }) by {
                        assert(m2.word(p, j) == (if p == ppn.0 && j == idxs@[i as int] {
                            pte.bits
                        } else {
                            ma.word(p, j)
                        }));
                        assert(ma.word(p, j) == (if p == frame.0 {
                            0
                        } else {
                            m1.word(p, j)
                        }));
                    }
                    assert(m2.is_link_of(m1, frame.0, ppn.0, idxs@[i as int], pte_encode(frame.0, 1u8)));
                    if i == 0 {
                        lemma_create_l1(m1, m2, root, idxs@[0], frame.0);
                    } else {
                        lemma_create_l2(m1, m2, root, idxs@[0], idxs@[1], frame.0);
                    }
                    lemma_tables_grow(m1, m2, root, frame.0);
                    assert(self.frames@.subrange(0, f0.len() as int) =~= f0);
                }
            }
            ppn = pte.ppn();
            i = i + 1;
        }
        proof {
            assert(false);
        }
        (ppn, 0)
    }

    /// Maps `vpn` to `ppn` with `flags` and the valid bit, creating the
    /// tables that are missing on the way. The page must not be mapped yet.
    pub fn map(&mut self, mem: &mut PhysMemory, vpn: VirtPageNum, ppn: PhysPageNum, flags: PTEFlags)
        requires
            tree_shaped(*old(mem), old(self).root()),
            !mappings(*old(mem), old(self).root()).contains_key(vpn.0 % VPN_LIMIT),
            old(mem).free_frames() >= frames_needed(*old(mem), old(self).root(), vpn.0),
        ensures
            final(self).root() == old(self).root(),
            tree_shaped(*final(mem), final(self).root()),
            mappings(*final(mem), final(self).root()) == mappings(*old(mem), old(self).root()).insert(
                vpn.0 % VPN_LIMIT,
                pte_encode(ppn.0, flags.bits | PTEFlags::V),
            ),
            walk(*final(mem), final(self).root(), vpn.0) == Some(pte_encode(ppn.0, flags.bits | PTEFlags::V)),
            forall|v: u64|
                !same_path(v, vpn.0) ==> #[trigger] walk(*final(mem), final(self).root(), v) == (
                if vpn_index(v, 0) == vpn_index(vpn.0, 0) && vpn_index(v, 1) == vpn_index(vpn.0, 1)
                    && walk(*old(mem), old(self).root(), v) is None {
                    Some(0u64)
                } else {
                    walk(*old(mem), old(self).root(), v)
                }),
            final(mem).base() == old(mem).base(),
            final(mem).frame_count() == old(mem).frame_count(),
            final(mem).used() == old(mem).used() + frames_needed(*old(mem), old(self).root(), vpn.0),
            forall|p: u64, k: u64|
                k < 512 && !on_path(*final(mem), final(self).root(), vpn.0, p, k, 3) ==> #[trigger] final(mem).word(p, k) == (
                if old(mem).allocated(p) || !final(mem).allocated(p) {
                    old(mem).word(p, k)
                } else {
                    0
                }),
            forall|p: u64| #[trigger] is_table(*final(mem), final(self).root(), p) ==> is_table(
                *old(mem),
                old(self).root(),
                p,
            ) || !old(mem).allocated(p),
            final(self).frames().len() == old(self).frames().len() + frames_needed(*old(mem), old(self).root(), vpn.0),
            final(self).frames().subrange(0, old(self).frames().len() as int) == old(self).frames(),
            forall|j: int|
                old(self).frames().len() <= j < final(self).frames().len() ==> !old(mem).allocated(
                    #[trigger] final(self).frames()[j].0,
                ) && final(mem).allocated(final(self).frames()[j].0),
            final(self).frames() == old(self).frames() + created_tables(*old(mem), *final(mem), old(self).root(), vpn.0),
            path_links(*old(mem), *final(mem), old(self).root(), vpn.0),
    {
        let ghost m0 = *mem;
        let ghost root = self.root_ppn.0;
        proof {
            lemma_vpn_index_facts(vpn.0, vpn.0);
        }
        let (table, index) = self.find_pte_create(mem, vpn);
        let ghost m1 = *mem;
        let pte = PageTableEntry::new(ppn, flags.union(PTEFlags { bits: PTEFlags::V }));
        mem.write(table, index, pte.bits);
        proof {
            let m2 = *mem;
            let val = pte.bits;
            let key = vpn.0 % VPN_LIMIT;
            let fl = flags.bits;
            let p = ppn.0;
            assert(((p << 10u64) | ((fl | 1u8) as u64)) & 1u64 == 1u64) by (bit_vector);
            lemma_vpn_index_facts(vpn.0, vpn.0);
            lemma_write_leaf(m1, m2, root, vpn_index(vpn.0, 0), vpn_index(vpn.0, 1), vpn_index(vpn.0, 2), val);
            lemma_tables_grow(m1, m2, root, root);
            let i0 = vpn_index(vpn.0, 0);
            let i1 = vpn_index(vpn.0, 1);
            assert(has_l1(m1, root, i0));
            assert(l2_table(m1, root, i0, i1) != root);
            assert(l2_table(m1, root, i0, i1) != l1_table(m1, root, i0));
            assert(m2.word(root, i0) == m1.word(root, i0));
            assert(m2.word(l1_table(m1, root, i0), i1) == m1.word(l1_table(m1, root, i0), i1));
            assert(created_tables(m0, m2, root, vpn.0) =~= created_tables(m0, m1, root, vpn.0));
            assert forall|v: u64| v < VPN_LIMIT implies (same_path(v, vpn.0) <==> v == key) by {
                lemma_vpn_index_facts(v, key);
                lemma_vpn_index_facts(vpn.0, key);
            }
            lemma_clear_and_link_flags();
            assert forall|v: u64| #[trigger] mappings(m2, root).contains_key(v) == mappings(m0, root).insert(
                key,
                val,
            ).contains_key(v) && (mappings(m2, root).contains_key(v) ==> mappings(m2, root)[v] == mappings(
                m0,
                root,
            ).insert(key, val)[v]) by {
                if v < VPN_LIMIT {
                    lemma_vpn_index_facts(v, vpn.0);
                    if v == key {
                        assert(same_path(v, vpn.0));
                        assert(walk(m2, root, v) == Some(val));
                    } else {
                        assert(!same_path(v, vpn.0));
                        assert(walk(m2, root, v) == walk(m1, root, v));
                    }
                }
            }
            assert(mappings(m2, root) =~= mappings(m0, root).insert(key, val));
        }
    }

    /// Removes the mapping of `vpn`, which must be mapped.
    pub fn unmap(&mut self, mem: &mut PhysMemory, vpn: VirtPageNum)
        requires
            tree_shaped(*old(mem), old(self).root()),
            mappings(*old(mem), old(self).root()).contains_key(vpn.0 % VPN_LIMIT),
        ensures
            *final(self) == *old(self),
            tree_shaped(*final(mem), final(self).root()),
            mappings(*final(mem), final(self).root()) == mappings(*old(mem), old(self).root()).remove(
                vpn.0 % VPN_LIMIT,
            ),
            walk(*final(mem), final(self).root(), vpn.0) == Some(0u64),
            forall|v: u64|
                !same_path(v, vpn.0) ==> #[trigger] walk(*final(mem), final(self).root(), v) == walk(
                    *old(mem),
                    old(self).root(),
                    v,
                ),
            final(mem).is_write_of(
                *old(mem),
                l2_table(*old(mem), old(self).root(), vpn_index(vpn.0, 0), vpn_index(vpn.0, 1)),
                vpn_index(vpn.0, 2),
                0,
            ),
    {
        let ghost m0 = *mem;
        let ghost root = self.root_ppn.0;
        let key: Ghost<u64> = Ghost(vpn.0 % VPN_LIMIT);
        proof {
            lemma_vpn_index_facts(vpn.0, vpn.0);
            lemma_vpn_index_facts(key@, key@);
            lemma_vpn_index_facts(vpn.0, key@);
        }
        let (table, index) = self.find_pte(mem, vpn).unwrap();
        mem.write(table, index, PageTableEntry::empty().bits);
        proof {
            let m2 = *mem;
            lemma_clear_and_link_flags();
            lemma_write_leaf(m0, m2, root, vpn_index(vpn.0, 0), vpn_index(vpn.0, 1), vpn_index(vpn.0, 2), 0);
            assert forall|v: u64| v < VPN_LIMIT implies (same_path(v, vpn.0) <==> v == key@) by {
                lemma_vpn_index_facts(v, key@);
            }
            assert forall|v: u64| #[trigger] mappings(m2, root).contains_key(v) == mappings(m0, root).remove(
                key@,
            ).contains_key(v) && (mappings(m2, root).contains_key(v) ==> mappings(m2, root)[v] == mappings(
                m0,
                root,
            )[v]) by {
                if v < VPN_LIMIT {
                    lemma_vpn_index_facts(v, vpn.0);
                    if v == key@ {
                        assert(same_path(v, vpn.0));
                        assert(walk(m2, root, v) == Some(0u64));
                    } else {
                        assert(!same_path(v, vpn.0));
                        assert(walk(m2, root, v) == walk(m0, root, v));
                    }
                }
            }
            assert(mappings(m2, root) =~= mappings(m0, root).remove(key@));
        }
    }

    /// The leaf entry that the walk for `vpn` reaches, or `None` when an
    /// entry on the way is not valid.
    pub fn translate(&self, mem: &PhysMemory, vpn: VirtPageNum) -> (r: Option<PageTableEntry>)
        requires
            walkable(*mem, self.root()),
        ensures
            match walk(*mem, self.root(), vpn.0) {
                None => r is None,
                Some(bits) => r == Some(PageTableEntry { bits }),
            },
    {
        proof {
            lemma_vpn_index_facts(vpn.0, vpn.0);
        }
        match self.find_pte(mem, vpn) {
            Some((table, index)) => Some(PageTableEntry { bits: mem.read(table, index) }),
            None => None,
        }
    }

    /// The `satp` value that selects this table: Sv39 mode (8) in the top
    /// four bits and the root frame in the low 44.
    pub fn token(&self) -> (r: u64)
        ensures
            r == 0x8000_0000_0000_0000u64 | self.root(),
    {
        assert(8u64 << 60u64 == 0x8000_0000_0000_0000u64) by (bit_vector);
        8u64 << 60 | self.root_ppn.0
    }
}

/// Bytes `start .. end` of the physical page `ppn`.
#[derive(Clone, Copy, Debug, PartialEq, Eq, Structural)]
pub struct PageSlice {
    pub ppn: PhysPageNum,
    pub start: u64,
    pub end: u64,
}

/// Number of pages that the bytes `ptr .. ptr + len` touch.
pub open spec fn slice_count(ptr: u64, len: u64) -> int {
    if len == 0 {
        0
    } else {
        (ptr + len - 1) / 4096 - ptr / 4096 + 1
    }
}

/// The part of the bytes `ptr .. ptr + len` that lies in the `k`-th page
/// they touch, as a run of bytes of the physical page that the walk from
/// `root` gives for that page.
pub open spec fn slice_at(m: PhysMemory, root: u64, ptr: u64, len: u64, k: int) -> PageSlice {
    let vpn = ptr / 4096 + k;
    let page_start = vpn * 4096;
    let lo = if ptr > page_start {
        ptr as int
    } else {
        page_start
    };
    let hi = if page_start + 4096 < ptr + len {
        page_start + 4096
    } else {
        ptr + len
    };
    PageSlice {
        ppn: PhysPageNum(pte_ppn(walk(m, root, vpn as u64)->0)),
        start: (lo - page_start) as u64,
        end: (hi - page_start) as u64,
    }
}

/// Total number of bytes in the runs `s`.
pub open spec fn total_len(s: Seq<PageSlice>) -> int
    decreases s.len(),
{
    if s.len() == 0 {
        0
    } else {
        total_len(s.drop_last()) + (s.last().end - s.last().start)
    }
}

/// Whether `s` is the list of runs for the bytes `ptr .. ptr + len`: one
/// per page touched, in address order, as `slice_at` gives them.
pub open spec fn is_byte_buffer(m: PhysMemory, root: u64, ptr: u64, len: u64, s: Seq<PageSlice>) -> bool {
    &&& s.len() == slice_count(ptr, len)
    &&& forall|k: int| 0 <= k < s.len() ==> #[trigger] s[k] == slice_at(m, root, ptr, len, k)
}

/// The list of runs for a buffer is fixed by the memory, the root and the
/// buffer: two calls with the same arguments give the same runs.
pub proof fn lemma_byte_buffer_deterministic(
    m: PhysMemory,
    root: u64,
    ptr: u64,
    len: u64,
    s1: Seq<PageSlice>,
    s2: Seq<PageSlice>,
)
    requires
        is_byte_buffer(m, root, ptr, len, s1),
        is_byte_buffer(m, root, ptr, len, s2),
    ensures
        s1 == s2,
{
    assert(s1 =~= s2);
}

/// The runs of a buffer, run by run: run `k` lies in the frame that the
/// walk gives for the buffer's `k`-th page (virtual page `ptr / 4096 + k`);
/// the first run starts at the buffer's offset in its page and every later
/// one at the start of its page; the last run ends just after the buffer's
/// last byte and every earlier one at the end of its page.
pub proof fn lemma_byte_buffer_runs(m: PhysMemory, root: u64, ptr: u64, len: u64, s: Seq<PageSlice>)
    requires
        is_byte_buffer(m, root, ptr, len, s),
        ptr + len <= u64::MAX,
    ensures
        forall|k: int|
            0 <= k < s.len() ==> (#[trigger] s[k]).ppn.0 == pte_ppn(walk(m, root, (ptr / 4096 + k) as u64)->0),
        forall|k: int| 0 <= k < s.len() ==> (#[trigger] s[k]).start == (if k == 0 {
            ptr % 4096
        } else {
            0
        }),
        forall|k: int| 0 <= k < s.len() ==> (#[trigger] s[k]).end == (if k == s.len() - 1 {
            (ptr + len - 1) % 4096 + 1
        } else {
            4096
        }),
{
    assert forall|k: int| 0 <= k < s.len() implies (#[trigger] s[k]).start == (if k == 0 {
        ptr % 4096
    } else {
        0
    }) && s[k].end == (if k == s.len() - 1 {
        (ptr + len - 1) % 4096 + 1
    } else {
        4096
    }) by {
        assert(s[k] == slice_at(m, root, ptr, len, k));
        let end = ptr + len;
        let page_start = (ptr / 4096 + k) * 4096;
        assert(len > 0);
        if k == s.len() - 1 {
            assert(ptr / 4096 + k == (end - 1) / 4096);
            assert(page_start <= end - 1 < page_start + 4096);
        } else {
            assert(ptr / 4096 + k + 1 <= (end - 1) / 4096);
            assert(page_start + 4096 <= end - 1);
        }
    }
}

/// A page number in the upper half and the same number with its sign
/// extension taken off select the same path; so do the addresses' bits.
proof fn lemma_sign_extension(v: u64, y: u64, x: u64)
    ensures
        v >= 0xf_ffff_f800_0000u64 ==> same_path(v, (v - 0xf_ffff_f800_0000u64) as u64),
        y < 0x80_0000_0000u64 ==> y | 0xffff_ff80_0000_0000u64 == y + 0xffff_ff80_0000_0000u64,
        x >= 0xffff_ff80_0000_0000u64 ==> x % 0x80_0000_0000u64 == x - 0xffff_ff80_0000_0000u64,
{
    assert(v >= 0xf_ffff_f800_0000u64 ==> (((v - 0xf_ffff_f800_0000u64) as u64) >> 18u64) & 511u64 == (v >> 18u64)
        & 511u64 && (((v - 0xf_ffff_f800_0000u64) as u64) >> 9u64) & 511u64 == (v >> 9u64) & 511u64
        && ((v - 0xf_ffff_f800_0000u64) as u64) & 511u64 == v & 511u64) by (bit_vector);
    assert(y < 0x80_0000_0000u64 ==> y | 0xffff_ff80_0000_0000u64 == y + 0xffff_ff80_0000_0000u64) by (bit_vector);
    assert(x >= 0xffff_ff80_0000_0000u64 ==> x % 0x80_0000_0000u64 == x - 0xffff_ff80_0000_0000u64) by (bit_vector);
}

/// The physical bytes behind the user buffer `ptr .. ptr + len` of the
/// address space whose `satp` value is `token`: one run per page touched,
/// in address order, each within its physical page. The buffer lies in the
/// lower or in the upper half of the address space.
pub fn translated_byte_buffer(mem: &PhysMemory, token: u64, ptr: u64, len: u64) -> (r: Vec<PageSlice>)
    requires
        len > 0 ==> walkable(*mem, token_root(token)),
        ptr + len <= u64::MAX,
        ptr + len <= VA_LOW_HALF_END || ptr >= VA_HIGH_HALF_START,
        forall|v: u64|
            len > 0 && ptr / 4096 <= v && v * 4096 < ptr + len ==> #[trigger] walk(*mem, token_root(token), v) is Some,
    ensures
        is_byte_buffer(*mem, token_root(token), ptr, len, r@),
        total_len(r@) == len,
        forall|k: int|
            0 <= k < r@.len() ==> (#[trigger] r@[k]).ppn.0 == pte_ppn(
                walk(*mem, token_root(token), (ptr / 4096 + k) as u64)->0,
            ),
        forall|k: int| 0 <= k < r@.len() ==> (#[trigger] r@[k]).start == (if k == 0 {
            ptr % 4096
        } else {
            0
        }),
        forall|k: int| 0 <= k < r@.len() ==> (#[trigger] r@[k]).end == (if k == r@.len() - 1 {
            (ptr + len - 1) % 4096 + 1
        } else {
            4096
        }),
{
    let page_table = PageTable::from_token(token);
    let ghost root = token_root(token);
    let ghost first = ptr / 4096;
    let ghost off: int = if ptr + len <= VA_LOW_HALF_END {
        0
    } else {
        VA_SIGN_EXTENSION as int
    };
    let mut start = ptr;
    let end = ptr + len;
    let mut v: Vec<PageSlice> = Vec::new();
    let ghost mut pos: int = ptr as int;
    while start < end
        invariant
            ptr <= pos <= end,
            start == pos || (pos == end && start >= end),
            page_table.root() == root,
            len > 0 ==> walkable(*mem, root),
            end == ptr + len,
            off == 0 ==> end <= VA_LOW_HALF_END,
            off != 0 ==> off == VA_SIGN_EXTENSION && ptr >= VA_HIGH_HALF_START,
            first == ptr / 4096,
            forall|w: u64|
                len > 0 && ptr / 4096 <= w && w * 4096 < ptr + len ==> #[trigger] walk(*mem, root, w) is Some,
            v@.len() == 0 ==> pos == ptr,
            v@.len() > 0 ==> pos == (if (first + v@.len()) * 4096 < end {
                (first + v@.len()) * 4096
            } else {
                end as int
            }),
            v@.len() > 0 ==> (first + v@.len() - 1) * 4096 < end && ptr < end,
            forall|k: int| 0 <= k < v@.len() ==> #[trigger] v@[k] == slice_at(*mem, root, ptr, len, k),
            total_len(v@) == pos - ptr,
        decreases end - pos,
    {
        let ghost k = v@.len() as int;
        let ghost page_start = (first + k) * 4096;
        proof {
            lemma_sign_extension((first + k) as u64, 0, start);
            lemma_sign_extension(0, 0, end);
        }
        let start_va = VirtAddr::from_word(start);
        let mut vpn = start_va.floor();
        assert(start_va.0 == start - off);
        assert(start / 4096 == first + k) by {
            if k > 0 {
                assert(start == page_start);
            }
        }
        assert(vpn.0 == first + k - off / 4096);
        assert(walk(*mem, root, vpn.0) == walk(*mem, root, (first + k) as u64)) by {
            if off != 0 {
                assert(same_path((first + k) as u64, vpn.0));
            }
        }
        let ppn = page_table.translate(mem, vpn).unwrap().ppn();
        vpn.step();
        let mut end_va: VirtAddr = vpn.to_virt_addr();
        end_va = end_va.min(VirtAddr::from_word(end));
        let slice = if end_va.page_offset() == 0 {
            PageSlice { ppn, start: start_va.page_offset(), end: PAGE_SIZE }
        } else {
            PageSlice { ppn, start: start_va.page_offset(), end: end_va.page_offset() }
        };
        let ghost hi = if page_start + 4096 < end {
            page_start + 4096
        } else {
            end as int
        };
        proof {
            assert(end_va.0 == hi - off);
            assert(start % 4096 == start - page_start);
            assert(page_start < hi <= page_start + 4096);
            assert(end_va.0 % 4096 == 0 <==> hi == page_start + 4096);
            assert(hi < page_start + 4096 ==> end_va.0 % 4096 == hi - page_start);
            assert(slice == slice_at(*mem, root, ptr, len, k));
            assert(v@.push(slice).drop_last() == v@);
            lemma_sign_extension(0, end_va.0, 0);
        }
        v.push(slice);
        start = end_va.to_word();
        proof {
            pos = hi;
        }
    }
    proof {
        let k = v@.len() as int;
        assert(pos == end);
        if k > 0 {
            assert(end <= (first + k) * 4096);
            assert((end - 1) / 4096 == first + k - 1);
            assert(len > 0);
            assert(slice_count(ptr, len) == (end - 1) / 4096 - first + 1);
        } else {
            assert(len == 0);
        }
        lemma_byte_buffer_runs(*mem, root, ptr, len, v@);
    }
    v
}

} // verus!
