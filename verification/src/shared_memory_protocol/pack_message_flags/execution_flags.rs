//! Modifiers of an execution request.
use vstd::prelude::*;

verus! {

pub const DROP_ON_FAILURE: u16 = 1 << 1;

pub const ALL_OR_NOTHING: u16 = 1 << 2;

} // verus!
