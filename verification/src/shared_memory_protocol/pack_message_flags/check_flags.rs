//! Modifiers of a check request.
use vstd::prelude::*;

verus! {

pub const STATUS_CHECKS: u16 = 1 << 1;

pub const LOAD_FEE_PAYER_BALANCE: u16 = 1 << 2;

pub const LOAD_ADDRESS_LOOKUP_TABLES: u16 = 1 << 3;

} // verus!
