//! How a worker disposed of a batch.
use vstd::prelude::*;

verus! {

pub const PROCESSED: u8 = 0;

pub const INVALID: u8 = 1;

pub const MAX_WORKING_SLOT_EXCEEDED: u8 = 2;

} // verus!
