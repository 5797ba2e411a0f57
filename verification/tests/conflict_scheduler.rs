use agave_abiv2_memory_contexts::scheduler::{ConflictScore, ScheduledTransaction, Scheduler};

fn tx(id: u64, read_accounts: Vec<u64>, write_accounts: Vec<u64>) -> ScheduledTransaction {
    ScheduledTransaction {
        id,
        read_accounts,
        write_accounts,
    }
}

#[test]
fn score_counts_hot_accounts_in_both_sets_and_takes_larger_set() {
    let scheduler = Scheduler::default();
    let score = scheduler.score_conflicts(&tx(0, vec![0, 1, 2, 7, 8, 15], vec![14, 22, 3]));
    assert_eq!(
        score,
        ConflictScore {
            hot_account_conflicts: 7,
            dependency_depth: 6
        }
    );
    let score = scheduler.score_conflicts(&tx(0, vec![], vec![2, 3, 4]));
    assert_eq!(
        score,
        ConflictScore {
            hot_account_conflicts: 0,
            dependency_depth: 3
        }
    );
    assert_eq!(
        scheduler.score_conflicts(&tx(0, vec![], vec![])),
        ConflictScore::default()
    );
}

#[test]
fn repeated_accounts_are_counted_each_time() {
    let scheduler = Scheduler::default();
    let score = scheduler.score_conflicts(&tx(0, vec![7, 7], vec![7]));
    assert_eq!(score.hot_account_conflicts, 3);
    assert_eq!(score.dependency_depth, 2);
}

#[test]
fn sort_orders_by_hot_count_then_depth_then_id() {
    let mut scheduler = Scheduler::default();
    scheduler.transactions.push(tx(5, vec![2], vec![3]));
    scheduler.transactions.push(tx(4, vec![2, 3], vec![]));
    scheduler.transactions.push(tx(3, vec![7], vec![]));
    scheduler.transactions.push(tx(2, vec![2], vec![]));
    scheduler.transactions.push(tx(1, vec![2], vec![]));
    scheduler.sort_by_conflict();
    let ids: Vec<u64> = scheduler.transactions.iter().map(|t| t.id).collect();
    assert_eq!(ids, vec![1, 2, 5, 4, 3]);
}

#[test]
fn sort_of_nothing_is_nothing() {
    let mut scheduler = Scheduler::default();
    scheduler.sort_by_conflict();
    assert!(scheduler.transactions.is_empty());
}

#[test]
fn duplicate_ids_share_the_first_score_and_keep_their_order() {
    let mut scheduler = Scheduler::default();
    scheduler.transactions.push(tx(9, vec![2], vec![]));
    scheduler.transactions.push(tx(8, vec![2, 3], vec![]));
    scheduler.transactions.push(tx(9, vec![7, 14, 21], vec![0]));
    scheduler.sort_by_conflict();
    let order: Vec<(u64, usize)> = scheduler
        .transactions
        .iter()
        .map(|t| (t.id, t.read_accounts.len()))
        .collect();
    assert_eq!(order, vec![(9, 1), (9, 3), (8, 2)]);
}

#[test]
fn sorting_twice_changes_nothing() {
    let mut scheduler = Scheduler::default();
    scheduler.transactions.push(tx(3, vec![0, 1], vec![]));
    scheduler.transactions.push(tx(1, vec![2], vec![4, 5]));
    scheduler.transactions.push(tx(2, vec![], vec![]));
    scheduler.sort_by_conflict();
    let once = scheduler.transactions.clone();
    scheduler.sort_by_conflict();
    assert_eq!(scheduler.transactions, once);
}

#[test]
fn score_ignores_account_order_list_roles_and_id() {
    let first = Scheduler::default();
    let mut second = Scheduler::default();
    second.transactions.push(tx(40, vec![1], vec![]));
    let a = tx(1, vec![7, 2, 8, 3], vec![14, 5]);
    let reordered = tx(99, vec![3, 8, 7, 2], vec![5, 14]);
    let swapped = tx(5, vec![5, 14], vec![2, 3, 8, 7]);
    assert_eq!(first.score_conflicts(&a), second.score_conflicts(&reordered));
    assert_eq!(first.score_conflicts(&a), first.score_conflicts(&swapped));
    assert_eq!(
        first.score_conflicts(&a),
        ConflictScore {
            hot_account_conflicts: 3,
            dependency_depth: 4
        }
    );
}

#[test]
fn sort_result_ignores_input_order_with_distinct_ids() {
    let make = || {
        vec![
            tx(4, vec![7, 8], vec![]),
            tx(2, vec![2], vec![3, 4]),
            tx(9, vec![], vec![]),
            tx(1, vec![0], vec![2]),
        ]
    };
    let mut first = Scheduler::default();
    first.transactions = make();
    let mut second = Scheduler::default();
    let mut reversed = make();
    reversed.reverse();
    second.transactions = reversed;
    first.sort_by_conflict();
    second.sort_by_conflict();
    assert_eq!(first.transactions, second.transactions);
    let ids: Vec<u64> = first.transactions.iter().map(|t| t.id).collect();
    assert_eq!(ids, vec![9, 2, 1, 4]);
}
