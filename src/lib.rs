//! Memory-management core of a 64-bit kernel: physical frame allocation,
//! virtual region reservation, four-level page-table mapping and the address
//! space that composes them.

use vstd::prelude::*;

pub mod types;
pub mod vmm;
pub mod pmm;
pub mod address_space;
pub mod hhdm;
pub mod x86_64;
