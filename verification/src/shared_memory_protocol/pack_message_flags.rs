//! What a worker is asked to do with a batch: check it or execute it, with
//! modifiers in the higher bits.
use vstd::prelude::*;

pub mod check_flags;
pub mod execution_flags;

verus! {

pub const CHECK: u16 = 0;

pub const EXECUTE: u16 = 1;

} // verus!
