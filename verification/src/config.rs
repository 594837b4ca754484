//! Project-wide configuration values.

use vstd::prelude::*;

verus! {

/// Size in bytes of one physical page.
pub const PAGE_SIZE: usize = 0x1000;

/// Upper bound on the number of polls a block request waits for completion.
pub const WAIT_FOR_READY: usize = 1_000_000;

} // verus!
