//! The kinds of response a worker sends back, and their payloads.
use vstd::prelude::*;

use super::SharablePubkeys;

verus! {

pub const EXECUTION_RESPONSE: u8 = 0;

pub const CHECK_RESPONSE: u8 = 1;

/// The outcome of executing one transaction.
#[derive(Debug, Clone, Copy, PartialEq, Eq, Structural)]
pub struct ExecutionResponse {
    pub execution_slot: u64,
    pub not_included_reason: u8,
    pub cost_units: u64,
    pub fee_payer_balance: u64,
}

/// The outcome of checking one transaction.
#[derive(Debug, Clone, Copy, PartialEq, Eq, Structural)]
pub struct CheckResponse {
    pub parsing_and_sanitization_flags: u8,
    pub status_check_flags: u8,
    pub fee_payer_balance_flags: u8,
    pub resolve_flags: u8,
    pub included_slot: u64,
    pub balance_slot: u64,
    pub fee_payer_balance: u64,
    pub resolution_slot: u64,
    pub min_alt_deactivation_slot: u64,
    pub resolved_pubkeys: SharablePubkeys,
}

} // verus!
