use agave_abiv2_memory_contexts::shared_memory_protocol::pack_message_flags::{
    check_flags, execution_flags, CHECK, EXECUTE,
};
use agave_abiv2_memory_contexts::shared_memory_protocol::worker_message_types::{
    CheckResponse, ExecutionResponse, CHECK_RESPONSE, EXECUTION_RESPONSE,
};
use agave_abiv2_memory_contexts::shared_memory_protocol::{
    processed_codes, tpu_message_flags, SharablePubkeys,
};

#[test]
fn flag_values_are_distinct_bits() {
    assert_eq!(tpu_message_flags::NONE, 0);
    assert_eq!(tpu_message_flags::IS_SIMPLE_VOTE, 1);
    assert_eq!(tpu_message_flags::FORWARDED, 2);
    assert_eq!(tpu_message_flags::FROM_STAKED_NODE, 4);
    assert_eq!(CHECK, 0);
    assert_eq!(EXECUTE, 1);
    assert_eq!(execution_flags::DROP_ON_FAILURE, 2);
    assert_eq!(execution_flags::ALL_OR_NOTHING, 4);
    assert_eq!(check_flags::STATUS_CHECKS, 2);
    assert_eq!(check_flags::LOAD_FEE_PAYER_BALANCE, 4);
    assert_eq!(check_flags::LOAD_ADDRESS_LOOKUP_TABLES, 8);
}

#[test]
fn codes_and_response_types() {
    assert_eq!(processed_codes::PROCESSED, 0);
    assert_eq!(processed_codes::INVALID, 1);
    assert_eq!(processed_codes::MAX_WORKING_SLOT_EXCEEDED, 2);
    assert_eq!(EXECUTION_RESPONSE, 0);
    assert_eq!(CHECK_RESPONSE, 1);
    let execution = ExecutionResponse {
        execution_slot: 5,
        not_included_reason: 0,
        cost_units: 100,
        fee_payer_balance: 7,
    };
    let check = CheckResponse {
        parsing_and_sanitization_flags: 0,
        status_check_flags: 1,
        fee_payer_balance_flags: 0,
        resolve_flags: 0,
        included_slot: 1,
        balance_slot: 2,
        fee_payer_balance: 3,
        resolution_slot: 4,
        min_alt_deactivation_slot: 5,
        resolved_pubkeys: SharablePubkeys {
            offset: 0x10,
            num_pubkeys: 2,
        },
    };
    assert_eq!(execution, execution.clone());
    assert_eq!(check.resolved_pubkeys.num_pubkeys, 2);
}
