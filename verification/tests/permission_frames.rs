use agave_abiv2_memory_contexts::memory_contexts::{
    AccountRegion, FrameWritableSnapshot, MemoryContexts, PermissionState,
};

fn regions(contexts: &MemoryContexts) -> Vec<Option<PermissionState>> {
    (0..contexts.account_regions.len() + 1)
        .map(|i| contexts.region(i))
        .collect()
}

#[test]
fn default_contexts_are_empty() {
    let contexts = MemoryContexts::default();
    assert!(contexts.account_regions.is_empty());
    assert!(contexts.snapshots.is_empty());
    assert_eq!(contexts.region(0), None);
    assert_eq!(AccountRegion::default(), AccountRegion { writable: false });
    assert!(FrameWritableSnapshot::default().entries.is_empty());
}

#[test]
fn update_reads_back_last_write_and_grows_read_only() {
    let mut contexts = MemoryContexts::default();
    contexts.update_account_permissions(&[(3, true), (1, true), (3, false)]);
    assert_eq!(contexts.account_regions.len(), 4);
    assert_eq!(contexts.region(0), Some(PermissionState::ReadOnly));
    assert_eq!(contexts.region(1), Some(PermissionState::Writable));
    assert_eq!(contexts.region(2), Some(PermissionState::ReadOnly));
    assert_eq!(contexts.region(3), Some(PermissionState::ReadOnly));
    assert_eq!(contexts.region(4), None);
}

#[test]
fn update_without_frame_opens_one_logging_first_changes() {
    let mut contexts = MemoryContexts::default();
    contexts.update_account_permissions(&[(1, true), (1, false)]);
    assert_eq!(contexts.snapshots.len(), 1);
    assert_eq!(contexts.snapshots[0].entries, vec![(1, false)]);
}

#[test]
fn outermost_frame_is_not_rolled_back() {
    let mut contexts = MemoryContexts::default();
    contexts.push_placeholder();
    contexts.update_account_permissions(&[(0, true)]);
    contexts.pop();
    assert!(contexts.snapshots.is_empty());
    assert_eq!(contexts.region(0), Some(PermissionState::Writable));
}

#[test]
fn pop_without_frames_changes_nothing() {
    let mut contexts = MemoryContexts::default();
    contexts.update_account_permissions(&[(0, true)]);
    contexts.pop();
    contexts.pop();
    assert_eq!(contexts.region(0), Some(PermissionState::Writable));
    assert!(contexts.snapshots.is_empty());
}

#[test]
fn push_then_pop_is_identity() {
    let mut contexts = MemoryContexts::default();
    contexts.push_placeholder();
    contexts.update_account_permissions(&[(0, true), (2, false)]);
    let before = regions(&contexts);
    contexts.push_placeholder();
    contexts.pop();
    assert_eq!(regions(&contexts), before);
    assert_eq!(contexts.snapshots.len(), 1);
    assert_eq!(contexts.snapshots[0].entries, vec![(0, false), (2, false)]);
}

#[test]
fn nested_frame_with_distinct_writes_restores_caller() {
    let mut contexts = MemoryContexts::default();
    contexts.push_placeholder();
    contexts.update_account_permissions(&[(0, true), (1, false)]);
    contexts.push_placeholder();
    contexts.update_account_permissions(&[(1, true), (0, false), (4, true)]);
    assert_eq!(contexts.region(4), Some(PermissionState::Writable));
    contexts.pop();
    assert_eq!(contexts.region(0), Some(PermissionState::Writable));
    assert_eq!(contexts.region(1), Some(PermissionState::ReadOnly));
    assert_eq!(contexts.region(2), Some(PermissionState::ReadOnly));
    assert_eq!(contexts.region(3), Some(PermissionState::ReadOnly));
    assert_eq!(contexts.region(4), Some(PermissionState::ReadOnly));
    assert_eq!(contexts.region(5), None);
    assert_eq!(contexts.snapshots.len(), 1);
}

#[test]
fn nested_frame_writing_one_region_twice_restores_caller() {
    let mut contexts = MemoryContexts::default();
    contexts.push_placeholder();
    contexts.update_account_permissions(&[(0, false)]);
    contexts.push_placeholder();
    contexts.update_account_permissions(&[(0, true), (0, false)]);
    assert_eq!(contexts.snapshots[1].entries, vec![(0, false)]);
    contexts.pop();
    assert_eq!(contexts.region(0), Some(PermissionState::ReadOnly));
}

#[test]
fn repeated_writes_in_a_nested_frame_do_not_leak() {
    let mut contexts = MemoryContexts::default();
    contexts.push_placeholder();
    contexts.push_placeholder();
    contexts.update_account_permissions(&[(0, true), (0, true)]);
    contexts.pop();
    assert_eq!(contexts.region(0), Some(PermissionState::ReadOnly));
}

#[test]
fn two_updates_in_a_nested_frame_are_both_undone() {
    let mut contexts = MemoryContexts::default();
    contexts.push_placeholder();
    contexts.push_placeholder();
    contexts.update_account_permissions(&[(0, true)]);
    contexts.update_account_permissions(&[(3, true)]);
    assert_eq!(contexts.snapshots[1].entries, vec![(0, false), (3, false)]);
    contexts.pop();
    assert_eq!(contexts.region(0), Some(PermissionState::ReadOnly));
    assert_eq!(contexts.region(3), Some(PermissionState::ReadOnly));
}

#[test]
fn second_update_keeps_the_first_snapshot() {
    let mut contexts = MemoryContexts::default();
    contexts.push_placeholder();
    contexts.update_account_permissions(&[(0, true)]);
    contexts.update_account_permissions(&[(0, false)]);
    assert_eq!(contexts.snapshots.last().unwrap().entries, vec![(0, false)]);
    assert_eq!(contexts.region(0), Some(PermissionState::ReadOnly));
}

#[test]
fn pop_restores_the_first_entry_of_a_region() {
    let mut contexts = MemoryContexts::default();
    contexts.push_placeholder();
    contexts.update_account_permissions(&[(0, true)]);
    contexts.push_placeholder();
    contexts.snapshots[1].entries.push((0, false));
    contexts.snapshots[1].entries.push((0, true));
    contexts.pop();
    assert_eq!(contexts.region(0), Some(PermissionState::ReadOnly));
}

#[test]
fn deep_nesting_with_repeats_restores_everything() {
    let mut contexts = MemoryContexts::default();
    contexts.push_placeholder();
    contexts.update_account_permissions(&[(0, true), (2, false)]);
    let before: Vec<Option<PermissionState>> = (0..3).map(|i| contexts.region(i)).collect();
    contexts.push_placeholder();
    contexts.update_account_permissions(&[(0, false), (5, true)]);
    contexts.push_placeholder();
    contexts.update_account_permissions(&[(2, true), (0, true), (2, false)]);
    contexts.update_account_permissions(&[(0, false), (5, false)]);
    contexts.pop();
    contexts.update_account_permissions(&[(2, true), (4, true), (0, true)]);
    contexts.pop();
    let after: Vec<Option<PermissionState>> = (0..3).map(|i| contexts.region(i)).collect();
    assert_eq!(after, before);
    for i in 3..6 {
        assert_eq!(contexts.region(i), Some(PermissionState::ReadOnly));
    }
    assert_eq!(contexts.snapshots.len(), 1);
}

#[test]
fn pop_leaves_regions_outside_the_snapshot_alone() {
    let mut contexts = MemoryContexts::default();
    contexts.push_placeholder();
    contexts.update_account_permissions(&[(0, true), (1, true)]);
    contexts.push_placeholder();
    contexts.update_account_permissions(&[(1, false)]);
    contexts.account_regions[0].writable = false;
    contexts.pop();
    assert_eq!(contexts.region(0), Some(PermissionState::ReadOnly));
    assert_eq!(contexts.region(1), Some(PermissionState::Writable));
}

#[test]
fn second_update_in_a_nested_frame_keeps_its_snapshot() {
    let mut contexts = MemoryContexts::default();
    contexts.push_placeholder();
    contexts.update_account_permissions(&[(0, false)]);
    contexts.push_placeholder();
    contexts.update_account_permissions(&[(0, true)]);
    contexts.update_account_permissions(&[(0, true)]);
    assert_eq!(contexts.snapshots[1].entries, vec![(0, false)]);
    contexts.pop();
    assert_eq!(contexts.region(0), Some(PermissionState::ReadOnly));
}

#[test]
fn snapshot_entries_past_the_end_are_skipped() {
    let mut contexts = MemoryContexts::default();
    contexts.push_placeholder();
    contexts.update_account_permissions(&[(0, true)]);
    contexts.push_placeholder();
    contexts.snapshots[1].entries.push((7, true));
    contexts.snapshots[1].entries.push((0, false));
    contexts.pop();
    assert_eq!(contexts.account_regions.len(), 1);
    assert_eq!(contexts.region(0), Some(PermissionState::ReadOnly));
}
