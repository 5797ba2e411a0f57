//! Message layout of the shared-memory protocol between the transaction
//! ingress stage, the packing stage and the workers.
//!
//! Offsets locate data inside the shared region; counts give how many items
//! sit at an offset. Flag and code values live in the submodules.
use vstd::prelude::*;

pub mod pack_message_flags;
pub mod processed_codes;
pub mod tpu_message_flags;
pub mod worker_message_types;

verus! {

/// A serialized transaction: its offset in the shared region and its length
/// in bytes.
#[derive(Debug, Clone, Copy, PartialEq, Eq, Structural)]
pub struct SharableTransactionRegion {
    pub offset: usize,
    pub length: u32,
}

/// A run of public keys: its offset in the shared region and how many keys it
/// holds.
#[derive(Debug, Clone, Copy, PartialEq, Eq, Structural)]
pub struct SharablePubkeys {
    pub offset: usize,
    pub num_pubkeys: u32,
}

/// A batch of transactions: how many there are and where their regions start.
#[derive(Debug, Clone, Copy, PartialEq, Eq, Structural)]
pub struct SharableTransactionBatchRegion {
    pub num_transactions: u8,
    pub transactions_offset: usize,
}

/// The responses to a batch: their kind, how many there are and where they
/// start.
#[derive(Debug, Clone, Copy, PartialEq, Eq, Structural)]
pub struct TransactionResponseRegion {
    pub tag: u8,
    pub num_transaction_responses: u8,
    pub transaction_responses_offset: usize,
}

/// A transaction received by the ingress stage, with its flags and the
/// address it came from.
#[derive(Debug, Clone, Copy, PartialEq, Eq)]
pub struct TpuToPackMessage {
    pub transaction: SharableTransactionRegion,
    pub flags: u8,
    pub src_addr: [u8; 16],
}

/// The leader's progress through the current slot.
#[derive(Debug, Clone, Copy, PartialEq, Eq)]
pub struct ProgressMessage {
    pub leader_state: u8,
    pub current_slot_progress: u8,
    pub epoch: u64,
    pub current_slot: u64,
    pub next_leader_slot: u64,
    pub leader_range_end: u64,
    pub remaining_cost_units: u64,
    pub latest_blockhash: [u8; 32],
}

/// A batch sent to a worker, with what to do and the last slot it may be
/// worked on in.
#[derive(Debug, Clone, Copy, PartialEq, Eq, Structural)]
pub struct PackToWorkerMessage {
    pub flags: u16,
    pub max_working_slot: u64,
    pub batch: SharableTransactionBatchRegion,
}

/// A worker's answer to a batch.
#[derive(Debug, Clone, Copy, PartialEq, Eq, Structural)]
pub struct WorkerToPackMessage {
    pub batch: SharableTransactionBatchRegion,
    pub processed_code: u8,
    pub responses: TransactionResponseRegion,
}

} // verus!
