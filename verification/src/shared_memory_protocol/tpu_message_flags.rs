//! Flags of a transaction received by the ingress stage.
use vstd::prelude::*;

verus! {

pub const NONE: u8 = 0;

pub const IS_SIMPLE_VOTE: u8 = 1 << 0;

pub const FORWARDED: u8 = 1 << 1;

pub const FROM_STAKED_NODE: u8 = 1 << 2;

} // verus!
