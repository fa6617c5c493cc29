//! The trap context: the registers saved on a trap into the kernel, and
//! the context with which a freshly loaded application starts.
use vstd::prelude::*;
use riscv::register::sstatus::{Sstatus, SPP};

verus! {

/// `riscv`'s `Sstatus::BITMASK`: the bits of `sstatus` that the crate's
/// `Sstatus` type keeps. The contract gives its value on the two kinds of
/// target the crate builds for (64-bit, and riscv32).
#[verifier::external_body]
fn sstatus_field_mask() -> (m: usize)
    ensures
        usize::BITS == 64 ==> m as u64 == 0x8000_0003_000d_e762u64,
        usize::BITS == 32 ==> m as u64 == 0x800d_e762u64,
{
    Sstatus::BITMASK
}

/// Builds an `Sstatus` from `bits` with `riscv`'s `Sstatus::from_bits`
/// (which keeps only the bits of `Sstatus::BITMASK`), sets its previous
/// privilege (SPP, bit 8) to user mode with `Sstatus::set_spp`, and gives
/// back `Sstatus::bits`. The contract claims that the result is `bits`
/// within the mask with bit 8 clear, on both kinds of target.
#[verifier::external_body]
fn sstatus_with_user_spp(bits: usize) -> (r: usize)
    ensures
        usize::BITS == 64 ==> r as u64 == (bits as u64) & 0x8000_0003_000d_e662u64,
        usize::BITS == 32 ==> r as u64 == (bits as u64) & 0x800d_e662u64,
{
    let mut s = Sstatus::from_bits(bits);
    s.set_spp(SPP::User);
    s.bits()
}

/// The supervisor status word `sstatus` with the previous privilege set to
/// user mode: `riscv` updates the bits its `Sstatus` type holds, and the
/// bits outside its field mask stay as they were read.
pub fn user_mode_sstatus(sstatus: usize) -> (r: usize)
    ensures
        r == sstatus & !0x100usize,
{
    let mask = sstatus_field_mask();
    let fields = sstatus_with_user_spp(sstatus);
    let r = (sstatus & !mask) | fields;
    assert(((mask as u64 == 0x8000_0003_000d_e762u64 && fields as u64 == (sstatus as u64)
        & 0x8000_0003_000d_e662u64) || (mask as u64 == 0x800d_e762u64 && fields as u64
        == (sstatus as u64) & 0x800d_e662u64)) ==> (sstatus & !mask) | fields == sstatus
        & !0x100usize) by (bit_vector);
    r
}

/// The registers saved on a trap: the 32 general registers, `sstatus` and
/// `sepc`, in this order.
pub struct TrapContext {
    /// General registers x0 .. x31.
    pub x: [usize; 32],
    /// Supervisor status word.
    pub sstatus: usize,
    /// Address at which execution resumes after the trap.
    pub sepc: usize,
}

/// The registers of a fresh application: all zero but the stack pointer
/// (x2), which is `sp`.
pub open spec fn initial_registers(sp: usize) -> Seq<usize> {
    Seq::new(32, |i: int| if i == 2 {
        sp
    } else {
        0usize
    })
}

impl TrapContext {
    /// Sets the stack pointer (x2) to `sp`.
    pub fn set_sp(&mut self, sp: usize)
        ensures
            final(self).x@ == old(self).x@.update(2, sp),
            final(self).sstatus == old(self).sstatus,
            final(self).sepc == old(self).sepc,
    {
        self.x[2] = sp;
    }

    /// The context in which an application starts at `entry` with its user
    /// stack at `sp`: registers clear but the stack pointer, and the
    /// supervisor status `sstatus` (as read from the register) with the
    /// previous privilege (bit 8) set to user and every other bit kept, so
    /// that returning from the trap
    /// enters the application in user mode.
    pub fn app_init_context(entry: usize, sp: usize, sstatus: usize) -> (r: TrapContext)
        ensures
            r.x@ == initial_registers(sp),
            r.sepc == entry,
            r.sstatus == sstatus & !0x100usize,
    {
        let sstatus = user_mode_sstatus(sstatus);
        let mut cx = TrapContext { x: [0usize; 32], sstatus, sepc: entry };
        cx.set_sp(sp);
        assert(cx.x@ =~= initial_registers(sp));
        cx
    }
}

} // verus!
