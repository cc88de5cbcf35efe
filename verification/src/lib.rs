//! Write-ahead-log engine for a single-file database: frame and segment
//! record layout, the current appendable segment, the sealed tail, a
//! compacted-segment codec, read/write transactions, and the shared
//! coordinator that arbitrates them.

pub mod bytes;
pub mod compacted;
pub mod crc;
pub mod crypt;
pub mod error;
pub mod frame;
pub mod listen;
pub mod registry;
pub mod sealed;
pub mod segment;
pub mod shared;
pub mod tx;

use vstd::prelude::*;

verus! {

/// Size in bytes of one database page; every frame carries exactly one page.
pub const PAGE_SIZE: u32 = 4096;

} // verus!
