use agave_abiv2_memory_contexts::runtime_memory_contexts::{
    BpfAllocator, MemoryContext, MemoryContextError, MemoryContexts, SerializedAccountMetadata,
    VmMapping, VmRegion, ACCOUNT_REGION_START,
};
use solana_rent::Rent;
use solana_sbpf::{program::SBPFVersion, vm::Config};
use solana_transaction_context::{InstructionAccount, TransactionContext};

const WINDOW_END: usize = ACCOUNT_REGION_START + 256;

fn read_only_regions(count: usize) -> Vec<VmRegion> {
    (0..count)
        .map(|i| VmRegion {
            vm_addr: (i as u64) << 32,
            writable: false,
        })
        .collect()
}

/// The writable flags of the mapping the innermost frame runs in.
fn flags(contexts: &MemoryContexts) -> Vec<bool> {
    match contexts.memory_mapping() {
        Ok(mapping) => mapping.regions.iter().map(|r| r.writable).collect(),
        Err(_) => Vec::new(),
    }
}

fn abi_v2_contexts_with_window() -> MemoryContexts {
    let mut contexts = MemoryContexts::new();
    contexts.create_abi_v2_mappings(read_only_regions(WINDOW_END + 2), Config::default(), SBPFVersion::V0);
    contexts.push_placeholder();
    contexts.set_abi_v2().unwrap();
    contexts
}

fn sample_context(len: u64) -> MemoryContext {
    MemoryContext::new(
        BpfAllocator::new(len),
        vec![SerializedAccountMetadata {
            vm_addr: 1,
            original_data_len: 2,
            vm_data_addr: 3,
            vm_key_addr: 4,
            vm_lamports_addr: 5,
            vm_owner_addr: 6,
        }],
        VmMapping::new(read_only_regions(3), Config::default(), SBPFVersion::V0),
    )
}

#[test]
fn empty_contexts_report_call_depth() {
    let mut contexts = MemoryContexts::new();
    assert!(!contexts.abi_v2_regions_exist());
    assert_eq!(
        contexts.memory_context_abi_v1().err(),
        Some(MemoryContextError::CallDepth)
    );
    assert_eq!(
        contexts.memory_context_mut_abi_v1().err(),
        Some(MemoryContextError::CallDepth)
    );
    assert_eq!(contexts.memory_mapping().err(), Some(MemoryContextError::CallDepth));
    assert_eq!(
        contexts.memory_mapping_mut().err(),
        Some(MemoryContextError::CallDepth)
    );
    assert_eq!(contexts.set_abi_v2(), Err(MemoryContextError::CallDepth));
    assert_eq!(
        contexts.set_memory_context_abi_v1(sample_context(1)),
        Err(MemoryContextError::CallDepth)
    );
    assert_eq!(
        contexts.apply_instruction_account_permissions(&[(0, true)]),
        Err(MemoryContextError::CallDepth)
    );
    contexts.pop();
    assert!(contexts.memory_mapping().is_err());
}

#[test]
fn placeholder_frame_is_not_set_up() {
    let mut contexts = MemoryContexts::new();
    contexts.push_placeholder();
    assert_eq!(
        contexts.memory_context_abi_v1().err(),
        Some(MemoryContextError::ProgramEnvironmentSetupFailure)
    );
    assert_eq!(
        contexts.memory_context_mut_abi_v1().err(),
        Some(MemoryContextError::ProgramEnvironmentSetupFailure)
    );
    assert_eq!(
        contexts.memory_mapping().err(),
        Some(MemoryContextError::ProgramEnvironmentSetupFailure)
    );
    assert_eq!(
        contexts.memory_mapping_mut().err(),
        Some(MemoryContextError::ProgramEnvironmentSetupFailure)
    );
}

#[test]
fn abi_v1_frame_owns_its_context_and_mapping() {
    let mut contexts = MemoryContexts::new();
    contexts.push_placeholder();
    assert_eq!(contexts.set_memory_context_abi_v1(sample_context(32)), Ok(()));
    let context = contexts.memory_context_abi_v1().ok().unwrap();
    assert_eq!(context.allocator.len, 32);
    assert_eq!(context.allocator.pos, 0);
    assert_eq!(context.accounts_metadata[0].vm_owner_addr, 6);
    assert_eq!(contexts.memory_mapping().ok().unwrap().regions.len(), 3);
    contexts.memory_context_mut_abi_v1().ok().unwrap().allocator.pos = 8;
    assert_eq!(contexts.memory_context_abi_v1().ok().unwrap().allocator.pos, 8);
    contexts.memory_mapping_mut().ok().unwrap().regions[1].writable = true;
    assert!(contexts.memory_mapping().ok().unwrap().regions[1].writable);
    assert!(!contexts.abi_v2_regions_exist());
}

#[test]
fn abi_v2_frame_shares_the_abi_v2_mapping() {
    let mut contexts = abi_v2_contexts_with_window();
    assert!(contexts.abi_v2_regions_exist());
    assert_eq!(
        contexts.memory_context_abi_v1().err(),
        Some(MemoryContextError::InvalidAccountData)
    );
    assert_eq!(
        contexts.memory_context_mut_abi_v1().err(),
        Some(MemoryContextError::ProgramEnvironmentSetupFailure)
    );
    assert_eq!(
        contexts.memory_mapping().ok().unwrap().regions.len(),
        WINDOW_END + 2
    );
    contexts.memory_mapping_mut().ok().unwrap().regions[0].writable = true;
    assert!(contexts.memory_mapping().ok().unwrap().regions[0].writable);
}

#[test]
fn mock_mapping_replaces_all_frames() {
    let mut contexts = abi_v2_contexts_with_window();
    contexts.push_placeholder();
    contexts.mock_set_mapping_abi_v1(VmMapping::new(read_only_regions(5), Config::default(), SBPFVersion::V0));
    let context = contexts.memory_context_abi_v1().ok().unwrap();
    assert_eq!(context.allocator.len, 0);
    assert!(context.accounts_metadata.is_empty());
    assert_eq!(contexts.memory_mapping().ok().unwrap().regions.len(), 5);
    contexts.pop();
    assert!(contexts.memory_mapping().is_err());
}

#[test]
fn permissions_need_the_account_window() {
    let mut contexts = MemoryContexts::new();
    contexts.create_abi_v2_mappings(read_only_regions(WINDOW_END - 1), Config::default(), SBPFVersion::V0);
    contexts.push_placeholder();
    contexts.set_abi_v2().unwrap();
    assert_eq!(
        contexts.apply_instruction_account_permissions(&[(0, true)]),
        Err(MemoryContextError::ProgramEnvironmentSetupFailure)
    );
    assert!(flags(&contexts).iter().all(|w| !w));
}

#[test]
fn permissions_are_set_within_the_window_and_rolled_back() {
    let mut contexts = abi_v2_contexts_with_window();
    assert_eq!(
        contexts.apply_instruction_account_permissions(&[(0, true), (255, true), (3, false)]),
        Ok(())
    );
    let after = flags(&contexts);
    assert!(after[ACCOUNT_REGION_START]);
    assert!(after[ACCOUNT_REGION_START + 255]);
    assert!(!after[ACCOUNT_REGION_START + 3]);
    assert_eq!(after.iter().filter(|w| **w).count(), 2);
    let addresses: Vec<u64> = contexts
        .memory_mapping()
        .ok()
        .unwrap()
        .regions
        .iter()
        .map(|r| r.vm_addr)
        .collect();
    assert_eq!(addresses[ACCOUNT_REGION_START], (ACCOUNT_REGION_START as u64) << 32);
    contexts.push_placeholder();
    contexts.set_abi_v2().unwrap();
    assert_eq!(
        contexts.apply_instruction_account_permissions(&[(0, false), (1, true)]),
        Ok(())
    );
    assert!(!flags(&contexts)[ACCOUNT_REGION_START]);
    assert!(flags(&contexts)[ACCOUNT_REGION_START + 1]);
    contexts.pop();
    assert_eq!(flags(&contexts), after);
    contexts.pop();
    assert!(flags(&contexts).is_empty());
    let mut restored = MemoryContexts::new();
    restored.create_abi_v2_mappings(read_only_regions(WINDOW_END + 2), Config::default(), SBPFVersion::V0);
    restored.push_placeholder();
    restored.set_abi_v2().unwrap();
    restored.apply_instruction_account_permissions(&[(7, true)]).unwrap();
    restored.push_placeholder();
    restored.pop();
    assert!(flags(&restored)[ACCOUNT_REGION_START + 7]);
}

#[test]
fn accounts_past_the_window_stop_the_update() {
    let mut contexts = abi_v2_contexts_with_window();
    assert_eq!(
        contexts.apply_instruction_account_permissions(&[(2, true), (256, true), (4, true)]),
        Err(MemoryContextError::NotEnoughAccountKeys)
    );
    let after = flags(&contexts);
    assert!(after[ACCOUNT_REGION_START + 2]);
    assert!(!after[ACCOUNT_REGION_START + 4]);
    assert!(!after[WINDOW_END]);
}

#[test]
fn outermost_frame_is_rolled_back_on_pop() {
    let mut contexts = abi_v2_contexts_with_window();
    contexts
        .apply_instruction_account_permissions(&[(10, true)])
        .unwrap();
    contexts.pop();
    contexts.push_placeholder();
    contexts.set_abi_v2().unwrap();
    assert!(!flags(&contexts)[ACCOUNT_REGION_START + 10]);
}

#[test]
fn empty_records_roll_nothing_back() {
    let mut contexts = abi_v2_contexts_with_window();
    contexts
        .apply_instruction_account_permissions(&[(10, true)])
        .unwrap();
    contexts.push_placeholder();
    contexts.pop();
    assert!(flags(&contexts)[ACCOUNT_REGION_START + 10]);
    let mut outer = MemoryContexts::new();
    outer.create_abi_v2_mappings(read_only_regions(WINDOW_END), Config::default(), SBPFVersion::V0);
    outer.push_placeholder();
    outer.set_abi_v2().unwrap();
    outer.apply_instruction_account_permissions(&[(10, true)]).unwrap();
    outer.push_placeholder();
    outer.set_abi_v2().unwrap();
    outer.pop();
    outer.push_placeholder();
    outer.set_abi_v2().unwrap();
    outer.apply_instruction_account_permissions(&[]).unwrap();
    outer.pop();
    assert!(flags(&outer)[ACCOUNT_REGION_START + 10]);
}

fn transaction_context_with(accounts: Vec<InstructionAccount>) -> TransactionContext<'static> {
    let mut transaction_context = TransactionContext::new(Vec::new(), Rent::default(), 4, 4);
    transaction_context
        .configure_next_instruction_for_tests(0, accounts, Vec::new())
        .unwrap();
    transaction_context.push().unwrap();
    transaction_context
}

#[test]
fn instruction_accounts_drive_the_update() {
    let transaction_context = transaction_context_with(vec![
        InstructionAccount::new(5, false, true),
        InstructionAccount::new(6, true, false),
        InstructionAccount::new(9, false, true),
    ]);
    let mut contexts = abi_v2_contexts_with_window();
    contexts.memory_mapping_mut().ok().unwrap().regions[ACCOUNT_REGION_START + 6].writable = true;
    assert_eq!(
        contexts.update_abi_v2_account_permissions(&transaction_context),
        Ok(())
    );
    let after = flags(&contexts);
    assert!(after[ACCOUNT_REGION_START + 5]);
    assert!(!after[ACCOUNT_REGION_START + 6]);
    assert!(after[ACCOUNT_REGION_START + 9]);
    assert!(!after[ACCOUNT_REGION_START]);
    contexts.pop();
    let restored = flags(&contexts);
    assert!(restored.is_empty());
}

#[test]
fn repeated_accounts_across_updates_do_not_leak() {
    let mut contexts = abi_v2_contexts_with_window();
    contexts
        .apply_instruction_account_permissions(&[(3, true)])
        .unwrap();
    let before = flags(&contexts);
    contexts.push_placeholder();
    contexts.set_abi_v2().unwrap();
    contexts
        .apply_instruction_account_permissions(&[(3, false), (4, true), (3, true)])
        .unwrap();
    contexts
        .apply_instruction_account_permissions(&[(4, false), (3, false), (5, true)])
        .unwrap();
    assert!(!flags(&contexts)[ACCOUNT_REGION_START + 3]);
    assert!(flags(&contexts)[ACCOUNT_REGION_START + 5]);
    contexts.push_placeholder();
    contexts.set_abi_v2().unwrap();
    contexts
        .apply_instruction_account_permissions(&[(3, true), (3, false), (6, true)])
        .unwrap();
    contexts.pop();
    contexts.pop();
    assert_eq!(flags(&contexts), before);
}

#[test]
fn missing_window_changes_nothing() {
    let mut contexts = MemoryContexts::new();
    contexts.create_abi_v2_mappings(read_only_regions(WINDOW_END), Config::default(), SBPFVersion::V0);
    contexts.push_placeholder();
    contexts.set_abi_v2().unwrap();
    contexts
        .apply_instruction_account_permissions(&[(1, true)])
        .unwrap();
    contexts.create_abi_v2_mappings(read_only_regions(3), Config::default(), SBPFVersion::V0);
    assert_eq!(
        contexts.apply_instruction_account_permissions(&[(0, true)]),
        Err(MemoryContextError::ProgramEnvironmentSetupFailure)
    );
    contexts.create_abi_v2_mappings(read_only_regions(WINDOW_END), Config::default(), SBPFVersion::V0);
    contexts.pop();
    contexts.push_placeholder();
    contexts.set_abi_v2().unwrap();
    assert!(flags(&contexts).iter().all(|w| !w));
}

#[test]
fn no_current_instruction_is_call_depth() {
    let transaction_context = TransactionContext::new(Vec::new(), Rent::default(), 4, 4);
    let mut contexts = abi_v2_contexts_with_window();
    assert_eq!(
        contexts.update_abi_v2_account_permissions(&transaction_context),
        Err(MemoryContextError::CallDepth)
    );
}

#[test]
fn nested_instruction_update_is_undone_by_pop() {
    let outer_accounts = transaction_context_with(vec![InstructionAccount::new(1, false, true)]);
    let inner_accounts = transaction_context_with(vec![
        InstructionAccount::new(1, false, false),
        InstructionAccount::new(2, false, true),
    ]);
    let mut contexts = abi_v2_contexts_with_window();
    contexts
        .update_abi_v2_account_permissions(&outer_accounts)
        .unwrap();
    let before = flags(&contexts);
    contexts.push_placeholder();
    contexts.set_abi_v2().unwrap();
    contexts
        .update_abi_v2_account_permissions(&inner_accounts)
        .unwrap();
    assert!(!flags(&contexts)[ACCOUNT_REGION_START + 1]);
    assert!(flags(&contexts)[ACCOUNT_REGION_START + 2]);
    contexts.pop();
    assert_eq!(flags(&contexts), before);
}

#[test]
fn abi_v2_mapping_keeps_the_executable_settings() {
    let config = Config {
        max_call_depth: 7,
        ..Config::default()
    };
    let mut contexts = MemoryContexts::new();
    contexts.create_abi_v2_mappings(read_only_regions(WINDOW_END), config.clone(), SBPFVersion::V3);
    contexts.push_placeholder();
    contexts.set_abi_v2().unwrap();
    let mapping = contexts.memory_mapping().ok().unwrap();
    assert_eq!(mapping.config, config);
    assert_eq!(mapping.config.max_call_depth, 7);
    assert_eq!(mapping.sbpf_version, SBPFVersion::V3);
    assert_eq!(mapping.regions.len(), WINDOW_END);
}

#[test]
fn new_contexts_use_default_settings_and_reserved_version() {
    let mut contexts = MemoryContexts::new();
    contexts.push_placeholder();
    contexts.set_abi_v2().unwrap();
    let mapping = contexts.memory_mapping().ok().unwrap();
    assert_eq!(mapping.config, Config::default());
    assert_eq!(mapping.sbpf_version, SBPFVersion::Reserved);
    assert!(mapping.regions.is_empty());
}

#[test]
fn abi_v1_mapping_keeps_its_own_settings() {
    let mut contexts = abi_v2_contexts_with_window();
    contexts.push_placeholder();
    contexts.mock_set_mapping_abi_v1(VmMapping::new(
        read_only_regions(2),
        Config::default(),
        SBPFVersion::V2,
    ));
    let mapping = contexts.memory_mapping().ok().unwrap();
    assert_eq!(mapping.sbpf_version, SBPFVersion::V2);
    assert_eq!(mapping.regions.len(), 2);
}
