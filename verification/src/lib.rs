//! Verified core of a small RISC-V (Sv39) teaching kernel: page-table
//! entries and three-level page tables over a model of physical memory,
//! the batch application manager, the system-call tracer and the trap
//! context of a freshly started application.
use vstd::prelude::*;

pub mod address;
pub mod batch;
pub mod frame;
pub mod page_table;
pub mod syscall;
pub mod trap;
pub mod walk;

