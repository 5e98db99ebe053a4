//! The verified core of a two-stage network bootloader and its kernel stub.
//!
//! - `range`, `range_set`: inclusive address ranges and a fixed-capacity set
//!   of disjoint, non-adjacent free ranges that never allocates itself.
//! - `placement`: the rules that pick an address for a size/alignment
//!   request, hinted regions first, best fit otherwise.
//! - `physmem`: the physical allocator on top of one shared set, populated
//!   from the firmware's memory map.
//! - `laws`: what holds across several edits of a set.
//! - `elf`: parsing static ELF executables and flattening them to an image.
//! - `pxe`, `serial`: the checks and byte streams of the boot stage's PXE
//!   download and serial console.
use vstd::prelude::*;

pub mod elf;
pub mod error;
pub mod laws;
pub mod physmem;
pub mod placement;
pub mod pxe;
pub mod range;
pub mod range_set;
mod seq_facts;
pub mod serial;

verus! {

} // verus!
