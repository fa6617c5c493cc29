//! Sv39 addresses and page numbers.
//!
//! Addresses, page numbers and page-table words are 64-bit quantities on the
//! RISC-V 64 machines this kernel runs on; they are held as `u64` so that the
//! Sv39 masks (44- and 39-bit wide) can be stated and proved.
use vstd::prelude::*;

verus! {

/// Size of a page in bytes.
pub const PAGE_SIZE: u64 = 4096;
/// Number of bits of the offset inside a page.
pub const PAGE_SIZE_BITS: u64 = 12;
/// Width of a physical page number in Sv39.
pub const PPN_WIDTH_SV39: u64 = 44;
/// Width of a virtual address in Sv39.
pub const VA_WIDTH_SV39: u64 = 39;
/// Width of a virtual page number in Sv39.
pub const VPN_WIDTH_SV39: u64 = 27;

/// Largest physical page number plus one (`1 << 44`).
pub const PPN_LIMIT: u64 = 0x1000_0000_0000;
/// Largest virtual page number plus one (`1 << 27`).
pub const VPN_LIMIT: u64 = 0x800_0000;
/// Start of the upper half of the Sv39 address space, as a sign-extended
/// machine word (`-(1 << 38)`).
pub const VA_HIGH_HALF_START: u64 = 0xffff_ffc0_0000_0000;
/// The amount by which a sign-extended upper-half address exceeds its 39-bit
/// form (`-(1 << 39)`).
pub const VA_SIGN_EXTENSION: u64 = 0xffff_ff80_0000_0000;
/// Largest Sv39 virtual address plus one (`1 << 39`).
pub const VA_LIMIT: u64 = 0x80_0000_0000;
/// End of the lower half of the Sv39 address space (`1 << 38`): below it a
/// virtual address converts to and from a machine word unchanged.
pub const VA_LOW_HALF_END: u64 = 0x40_0000_0000;

/// A physical page number.
#[derive(Clone, Copy, Debug, PartialEq, Eq, Structural)]
pub struct PhysPageNum(pub u64);

/// A virtual page number.
#[derive(Clone, Copy, Debug, PartialEq, Eq, Structural)]
pub struct VirtPageNum(pub u64);

/// A virtual address.
#[derive(Clone, Copy, Debug, PartialEq, Eq, Structural)]
pub struct VirtAddr(pub u64);

/// Index into the page table of level `level` (0 is the root) that the
/// page number `vpn` selects: nine bits of it, the highest nine for the root.
pub open spec fn vpn_index(vpn: u64, level: int) -> u64 {
    if level == 0 {
        (vpn >> 18u64) & 511u64
    } else if level == 1 {
        (vpn >> 9u64) & 511u64
    } else {
        vpn & 511u64
    }
}

impl PhysPageNum {
    /// The page number held by the low 44 bits of `v`.
    pub fn from_word(v: u64) -> (r: PhysPageNum)
        ensures
            r.0 == v % PPN_LIMIT,
    {
        let r = v & (PPN_LIMIT - 1);
        assert(v & 0xfff_ffff_ffffu64 == v % 0x1000_0000_0000u64) by (bit_vector);
        PhysPageNum(r)
    }
}

impl VirtPageNum {
    /// The three page-table indexes of this page number, root level first.
    pub fn indexes(&self) -> (r: [u64; 3])
        ensures
            r@.len() == 3,
            r@[0] == vpn_index(self.0, 0),
            r@[1] == vpn_index(self.0, 1),
            r@[2] == vpn_index(self.0, 2),
            r@[0] < 512,
            r@[1] < 512,
            r@[2] < 512,
            r@[0] == self.0 / 0x40000 % 512,
            r@[1] == self.0 / 512 % 512,
            r@[2] == self.0 % 512,
    {
        proof {
            lemma_vpn_index_fields(self.0);
        }
        let mut vpn = self.0;
        let mut idx: [u64; 3] = [0u64; 3];
        let v0 = self.0;
        idx[2] = vpn & 511;
        vpn = vpn >> 9;
        idx[1] = vpn & 511;
        vpn = vpn >> 9;
        idx[0] = vpn & 511;
        assert((v0 >> 9u64) >> 9u64 == v0 >> 18u64) by (bit_vector);
        assert(v0 & 511u64 < 512) by (bit_vector);
        assert((v0 >> 9u64) & 511u64 < 512) by (bit_vector);
        assert((v0 >> 18u64) & 511u64 < 512) by (bit_vector);
        idx
    }

    /// Moves to the next page number.
    pub fn step(&mut self)
        requires
            old(self).0 < u64::MAX,
        ensures
            final(self).0 == old(self).0 + 1,
    {
        self.0 = self.0 + 1;
    }

    /// The virtual address at which this page starts.
    pub fn to_virt_addr(self) -> (r: VirtAddr)
        ensures
            r.0 == self.0 << 12u64,
            self.0 < 0x10_0000_0000_0000u64 ==> r.0 == self.0 * PAGE_SIZE,
    {
        let v = self.0;
        assert(v < 0x10_0000_0000_0000u64 ==> v << 12u64 == v * 4096) by (bit_vector);
        VirtAddr(v << PAGE_SIZE_BITS)
    }
}

impl VirtAddr {
    /// The virtual address held by the low 39 bits of `v`.
    pub fn from_word(v: u64) -> (r: VirtAddr)
        ensures
            r.0 == v % VA_LIMIT,
    {
        assert(v & 0x7f_ffff_ffffu64 == v % 0x80_0000_0000u64) by (bit_vector);
        VirtAddr(v & (VA_LIMIT - 1))
    }

    /// The address as a machine word: the lower half of the address space
    /// maps to itself, the upper half is sign-extended.
    pub fn to_word(self) -> (r: u64)
        ensures
            r == (if self.0 >= VA_LOW_HALF_END {
                self.0 | 0xffff_ff80_0000_0000u64
            } else {
                self.0
            }),
            self.0 < VA_LOW_HALF_END ==> r == self.0,
            r >= self.0,
    {
        assert(!0x7f_ffff_ffffu64 == 0xffff_ff80_0000_0000u64) by (bit_vector);
        let v = self.0;
        assert(v | !0x7f_ffff_ffffu64 >= v) by (bit_vector);
        if self.0 >= VA_LOW_HALF_END {
            self.0 | !(VA_LIMIT - 1)
        } else {
            self.0
        }
    }

    /// The page that holds this address.
    pub fn floor(&self) -> (r: VirtPageNum)
        ensures
            r.0 == self.0 / PAGE_SIZE,
    {
        VirtPageNum(self.0 / PAGE_SIZE)
    }

    /// The offset of this address inside its page.
    pub fn page_offset(&self) -> (r: u64)
        ensures
            r == self.0 % PAGE_SIZE,
            r < PAGE_SIZE,
    {
        let v = self.0;
        assert(v & 4095u64 == v % 4096u64) by (bit_vector);
        self.0 & (PAGE_SIZE - 1)
    }

    /// The smaller of two addresses.
    pub fn min(self, other: VirtAddr) -> (r: VirtAddr)
        ensures
            r.0 == (if self.0 <= other.0 { self.0 } else { other.0 }),
    {
        if self.0 <= other.0 {
            self
        } else {
            other
        }
    }
}

/// The table indexes of a page number are its three nine-bit fields: bits
/// 18..26 for the root table, 9..17 for the second level, 0..8 for the leaf
/// table; together they spell out the page number's low 27 bits.
pub proof fn lemma_vpn_index_fields(vpn: u64)
    ensures
        vpn_index(vpn, 0) == vpn / 0x40000 % 512,
        vpn_index(vpn, 1) == vpn / 512 % 512,
        vpn_index(vpn, 2) == vpn % 512,
        vpn % 0x800_0000 == vpn_index(vpn, 0) * 0x40000 + vpn_index(vpn, 1) * 512 + vpn_index(vpn, 2),
{
    assert((vpn >> 18u64) & 511u64 == vpn / 0x40000u64 % 512u64) by (bit_vector);
    assert((vpn >> 9u64) & 511u64 == vpn / 512u64 % 512u64) by (bit_vector);
    assert(vpn & 511u64 == vpn % 512u64) by (bit_vector);
    assert(vpn % 0x800_0000u64 == ((vpn >> 18u64) & 511u64) * 0x40000u64 + ((vpn >> 9u64) & 511u64) * 512u64
        + (vpn & 511u64)) by (bit_vector);
}

/// Two page numbers that agree on bits 18..26 use the same root entry, and
/// ones that differ there use different root entries.
pub proof fn lemma_root_index_is_high_field(v: u64, w: u64)
    ensures
        (vpn_index(v, 0) == vpn_index(w, 0)) <==> (v / 0x40000 % 512 == w / 0x40000 % 512),
{
    lemma_vpn_index_fields(v);
    lemma_vpn_index_fields(w);
}

} // verus!
