//! Writable flags of account regions seen through a log of writes.
//!
//! A write is a pair `(index, writable)`. Applying a sequence of writes to a
//! sequence of flags sets each named index to the value of its last write and
//! leaves the others alone; positions past the end of the flags read as
//! `false`, the flag of a freshly created region.
//!
//! A frame's log records, for each index the frame writes, the flag it had
//! before the frame first wrote it, once. Rolling a log back puts each logged
//! index back to its first recorded flag.
use vstd::prelude::*;

verus! {

/// The flag at position `j` once `writes` have been applied to `flags`: the
/// value of the last write to `j`, or the flag that was there before (`false`
/// past the end of `flags`).
pub open spec fn value_after(flags: Seq<bool>, writes: Seq<(usize, bool)>, j: int) -> bool
    decreases writes.len(),
{
    if writes.len() == 0 {
        if 0 <= j < flags.len() {
            flags[j]
        } else {
            false
        }
    } else if writes.last().0 == j {
        writes.last().1
    } else {
        value_after(flags, writes.drop_last(), j)
    }
}

/// The number of flags once `writes` have been applied to `len` flags: a write
/// past the end first grows the flags up to and including its index.
pub open spec fn len_after(len: nat, writes: Seq<(usize, bool)>) -> nat
    decreases writes.len(),
{
    if writes.len() == 0 {
        len
    } else {
        let before = len_after(len, writes.drop_last());
        if before <= writes.last().0 {
            (writes.last().0 + 1) as nat
        } else {
            before
        }
    }
}

/// The flags once `writes` have been applied, growing them where a write
/// names an index past the end.
pub open spec fn flags_after(flags: Seq<bool>, writes: Seq<(usize, bool)>) -> Seq<bool> {
    Seq::new(len_after(flags.len(), writes), |j: int| value_after(flags, writes, j))
}

/// No index is written twice.
pub open spec fn distinct_indices(writes: Seq<(usize, bool)>) -> bool {
    forall|a: int, b: int|
        0 <= a < writes.len() && 0 <= b < writes.len() && a != b ==> #[trigger] writes[a].0
            != #[trigger] writes[b].0
}

/// Applying one more write to a prefix of a write sequence.
pub proof fn lemma_write_step(flags: Seq<bool>, writes: Seq<(usize, bool)>, k: int, j: int)
    requires
        0 <= k < writes.len(),
    ensures
        value_after(flags, writes.take(k + 1), j) == if writes[k].0 == j {
            writes[k].1
        } else {
            value_after(flags, writes.take(k), j)
        },
        len_after(flags.len(), writes.take(k + 1)) == if len_after(flags.len(), writes.take(k))
            <= writes[k].0 {
            (writes[k].0 + 1) as nat
        } else {
            len_after(flags.len(), writes.take(k))
        },
{
    assert(writes.take(k + 1).drop_last() =~= writes.take(k));
    assert(writes.take(k + 1).last() == writes[k]);
}

/// The flags never shrink, every written index ends up inside them, and
/// nothing past their end reads as set.
pub proof fn lemma_after_bounds(flags: Seq<bool>, writes: Seq<(usize, bool)>)
    ensures
        len_after(flags.len(), writes) >= flags.len(),
        forall|i: int| 0 <= i < writes.len() ==> writes[i].0 < len_after(flags.len(), writes),
        forall|j: int| j >= len_after(flags.len(), writes) ==> !value_after(flags, writes, j),
    decreases writes.len(),
{
    if writes.len() > 0 {
        let rest = writes.drop_last();
        lemma_after_bounds(flags, rest);
        assert forall|i: int| 0 <= i < writes.len() implies writes[i].0 < len_after(
            flags.len(),
            writes,
        ) by {
            if i < writes.len() - 1 {
                assert(rest[i] == writes[i]);
            }
        }
        assert forall|j: int| j >= len_after(flags.len(), writes) implies !value_after(
            flags,
            writes,
            j,
        ) by {
            assert(!value_after(flags, rest, j));
        }
    }
}

/// Writes inside the flags do not grow them.
pub proof fn lemma_len_after_within(len: nat, writes: Seq<(usize, bool)>)
    requires
        forall|i: int| 0 <= i < writes.len() ==> #[trigger] writes[i].0 < len,
    ensures
        len_after(len, writes) == len,
    decreases writes.len(),
{
    if writes.len() > 0 {
        let rest = writes.drop_last();
        assert forall|i: int| 0 <= i < rest.len() implies #[trigger] rest[i].0 < len by {
            assert(rest[i] == writes[i]);
        }
        lemma_len_after_within(len, rest);
        assert(writes[writes.len() - 1].0 < len);
    }
}

/// The flag at `j` before any write: `flags[j]`, or `false` past the end.
pub open spec fn flag_at(flags: Seq<bool>, j: int) -> bool {
    if 0 <= j < flags.len() {
        flags[j]
    } else {
        false
    }
}

/// A position that no write names keeps its flag.
pub proof fn lemma_unwritten(flags: Seq<bool>, writes: Seq<(usize, bool)>, j: int)
    requires
        forall|i: int| 0 <= i < writes.len() ==> writes[i].0 != j,
    ensures
        value_after(flags, writes, j) == if 0 <= j < flags.len() {
            flags[j]
        } else {
            false
        },
    decreases writes.len(),
{
    if writes.len() > 0 {
        let rest = writes.drop_last();
        assert forall|i: int| 0 <= i < rest.len() implies rest[i].0 != j by {
            assert(rest[i] == writes[i]);
        }
        lemma_unwritten(flags, rest, j);
    }
}

/// A position written at `k` and never again reads the value written at `k`.
pub proof fn lemma_last_write(flags: Seq<bool>, writes: Seq<(usize, bool)>, k: int)
    requires
        0 <= k < writes.len(),
        forall|i: int| k < i < writes.len() ==> writes[i].0 != writes[k].0,
    ensures
        value_after(flags, writes, writes[k].0 as int) == writes[k].1,
    decreases writes.len(),
{
    if k < writes.len() - 1 {
        let rest = writes.drop_last();
        assert forall|i: int| k < i < rest.len() implies rest[i].0 != rest[k].0 by {
            assert(rest[i] == writes[i]);
        }
        lemma_last_write(flags, rest, k);
    }
}

/// Whether `log` has an entry for index `j`.
pub open spec fn logged(log: Seq<(usize, bool)>, j: int) -> bool {
    exists|k: int| 0 <= k < log.len() && #[trigger] log[k].0 == j
}

/// Whether some write names index `j`.
pub open spec fn written(writes: Seq<(usize, bool)>, j: int) -> bool {
    exists|k: int| 0 <= k < writes.len() && #[trigger] writes[k].0 == j
}

/// The flag that rolling `log` back leaves at `j`: the flag of the first
/// entry for `j`, or the flag that is there (`false` past the end).
pub open spec fn first_logged(flags: Seq<bool>, log: Seq<(usize, bool)>, j: int) -> bool
    decreases log.len(),
{
    if log.len() == 0 {
        flag_at(flags, j)
    } else if log[0].0 == j {
        log[0].1
    } else {
        first_logged(flags, log.drop_first(), j)
    }
}

/// The flags once `log` has been rolled back; entries past the end are
/// dropped and the length stays the same.
pub open spec fn flags_rolled_back(flags: Seq<bool>, log: Seq<(usize, bool)>) -> Seq<bool> {
    Seq::new(flags.len(), |j: int| first_logged(flags, log, j))
}

/// A frame's log once `writes` have been applied to `flags`: each index
/// written for the first time in this frame is appended, in the order of the
/// writes, with the flag it had before them.
pub open spec fn log_after(flags: Seq<bool>, log: Seq<(usize, bool)>, writes: Seq<(usize, bool)>) -> Seq<
    (usize, bool),
>
    decreases writes.len(),
{
    if writes.len() == 0 {
        log
    } else {
        let before = log_after(flags, log, writes.drop_last());
        let index = writes.last().0;
        if logged(before, index as int) {
            before
        } else {
            before.push((index, flag_at(flags, index as int)))
        }
    }
}

/// The state of a frame that began with the flags `start`: the flags are
/// `flags` and the frame's log is `log`. The log names each index once with
/// the flag it had in `start`, and every index that the log does not name
/// still has its flag from `start`.
pub open spec fn frame_consistent(start: Seq<bool>, flags: Seq<bool>, log: Seq<(usize, bool)>) -> bool {
    &&& flags.len() >= start.len()
    &&& distinct_indices(log)
    &&& forall|k: int|
        0 <= k < log.len() ==> #[trigger] log[k].1 == flag_at(start, log[k].0 as int)
    &&& forall|j: int| 0 <= j && !logged(log, j) ==> #[trigger] flag_at(flags, j) == flag_at(start, j)
}

/// With an entry for `log[k]`'s index and no other, rolling back gives its
/// recorded flag.
pub proof fn lemma_first_logged_at(flags: Seq<bool>, log: Seq<(usize, bool)>, k: int)
    requires
        distinct_indices(log),
        0 <= k < log.len(),
    ensures
        first_logged(flags, log, log[k].0 as int) == log[k].1,
    decreases k,
{
    if k > 0 {
        let rest = log.drop_first();
        assert(log[0].0 != log[k].0);
        assert(rest[k - 1] == log[k]);
        assert(distinct_indices(rest)) by {
            assert forall|a: int, b: int|
                0 <= a < rest.len() && 0 <= b < rest.len() && a != b implies #[trigger] rest[a].0
                != #[trigger] rest[b].0 by {
                assert(rest[a] == log[a + 1] && rest[b] == log[b + 1]);
            }
        }
        lemma_first_logged_at(flags, rest, k - 1);
    }
}

/// An index that the log does not name keeps its flag.
pub proof fn lemma_first_logged_absent(flags: Seq<bool>, log: Seq<(usize, bool)>, j: int)
    requires
        !logged(log, j),
    ensures
        first_logged(flags, log, j) == flag_at(flags, j),
    decreases log.len(),
{
    if log.len() > 0 {
        let rest = log.drop_first();
        assert(log[0].0 != j);
        assert(!logged(rest, j)) by {
            if logged(rest, j) {
                let k = choose|k: int| 0 <= k < rest.len() && #[trigger] rest[k].0 == j;
                assert(log[k + 1] == rest[k]);
            }
        }
        lemma_first_logged_absent(flags, rest, j);
    }
}

/// A frame that has just begun: nothing logged, nothing changed.
pub proof fn lemma_frame_begins(flags: Seq<bool>)
    ensures
        frame_consistent(flags, flags, Seq::empty()),
{
}

/// Rolling back a consistent frame gives every position its flag from the
/// frame's start.
pub proof fn lemma_rollback_restores(start: Seq<bool>, flags: Seq<bool>, log: Seq<(usize, bool)>)
    requires
        frame_consistent(start, flags, log),
    ensures
        forall|j: int|
            0 <= j < flags.len() ==> #[trigger] flags_rolled_back(flags, log)[j] == flag_at(
                start,
                j,
            ),
{
    assert forall|j: int| 0 <= j < flags.len() implies #[trigger] flags_rolled_back(flags, log)[j]
        == flag_at(start, j) by {
        if logged(log, j) {
            let k = choose|k: int| 0 <= k < log.len() && #[trigger] log[k].0 == j;
            lemma_first_logged_at(flags, log, k);
        } else {
            lemma_first_logged_absent(flags, log, j);
            assert(flag_at(flags, j) == flag_at(start, j));
        }
    }
}

/// What `log_after` keeps and adds.
pub proof fn lemma_log_after(flags: Seq<bool>, log: Seq<(usize, bool)>, writes: Seq<(usize, bool)>)
    ensures
        log_after(flags, log, writes).len() >= log.len(),
        forall|k: int| 0 <= k < log.len() ==> #[trigger] log_after(flags, log, writes)[k] == log[k],
        forall|k: int|
            log.len() <= k < log_after(flags, log, writes).len() ==> !logged(
                log,
                #[trigger] log_after(flags, log, writes)[k].0 as int,
            ) && log_after(flags, log, writes)[k].1 == flag_at(
                flags,
                log_after(flags, log, writes)[k].0 as int,
            ),
        distinct_indices(log) ==> distinct_indices(log_after(flags, log, writes)),
        forall|j: int|
            #[trigger] logged(log_after(flags, log, writes), j) <==> (logged(log, j) || written(
                writes,
                j,
            )),
    decreases writes.len(),
{
    if writes.len() > 0 {
        let rest = writes.drop_last();
        lemma_log_after(flags, log, rest);
        let before = log_after(flags, log, rest);
        let after = log_after(flags, log, writes);
        let index = writes.last().0;
        assert forall|j: int| written(writes, j) <==> (written(rest, j) || index == j) by {
            if written(writes, j) {
                let k = choose|k: int| 0 <= k < writes.len() && #[trigger] writes[k].0 == j;
                if k < writes.len() - 1 {
                    assert(rest[k] == writes[k]);
                }
            }
            if written(rest, j) {
                let k = choose|k: int| 0 <= k < rest.len() && #[trigger] rest[k].0 == j;
                assert(writes[k] == rest[k]);
            }
            if index == j {
                assert(writes[writes.len() - 1].0 == j);
            }
        }
        if !logged(before, index as int) {
            assert forall|j: int| #[trigger] logged(after, j) <==> (logged(before, j) || index == j) by {
                if logged(after, j) {
                    let k = choose|k: int| 0 <= k < after.len() && #[trigger] after[k].0 == j;
                    if k < before.len() {
                        assert(before[k] == after[k]);
                    }
                }
                if logged(before, j) {
                    let k = choose|k: int| 0 <= k < before.len() && #[trigger] before[k].0 == j;
                    assert(after[k] == before[k]);
                }
                if index == j {
                    assert(after[before.len() as int].0 == j);
                }
            }
            assert(!logged(log, index as int));
            if distinct_indices(log) {
                assert forall|a: int, b: int|
                    0 <= a < after.len() && 0 <= b < after.len() && a != b implies #[trigger] after[a].0
                    != #[trigger] after[b].0 by {
                    if a == before.len() {
                        assert(after[b] == before[b]);
                    } else if b == before.len() {
                        assert(after[a] == before[a]);
                    } else {
                        assert(after[a] == before[a] && after[b] == before[b]);
                    }
                }
            }
        } else {
            assert forall|j: int| #[trigger] logged(after, j) <==> (logged(before, j) || index == j) by {
            }
        }
    }
}

/// A frame stays consistent through an update: the update's log entries
/// carry the flags from before it, which for indices the frame had not yet
/// logged are the flags from the frame's start.
pub proof fn lemma_update_keeps_frame(
    start: Seq<bool>,
    flags: Seq<bool>,
    log: Seq<(usize, bool)>,
    writes: Seq<(usize, bool)>,
)
    requires
        frame_consistent(start, flags, log),
    ensures
        frame_consistent(start, flags_after(flags, writes), log_after(flags, log, writes)),
{
    let after = flags_after(flags, writes);
    let new_log = log_after(flags, log, writes);
    lemma_after_bounds(flags, writes);
    lemma_log_after(flags, log, writes);
    assert forall|k: int| 0 <= k < new_log.len() implies #[trigger] new_log[k].1 == flag_at(
        start,
        new_log[k].0 as int,
    ) by {
        if k >= log.len() {
            assert(!logged(log, new_log[k].0 as int));
            assert(flag_at(flags, new_log[k].0 as int) == flag_at(start, new_log[k].0 as int));
        }
    }
    assert forall|j: int| 0 <= j && !logged(new_log, j) implies #[trigger] flag_at(after, j)
        == flag_at(start, j) by {
        assert(!logged(log, j) && !written(writes, j));
        assert(flag_at(flags, j) == flag_at(start, j));
        assert forall|i: int| 0 <= i < writes.len() implies writes[i].0 != j by {
            if writes[i].0 == j {
                assert(written(writes, j));
            }
        }
        lemma_unwritten(flags, writes, j);
    }
}

/// A frame stays consistent when a nested frame, begun on its current
/// flags, is rolled back: the rolled-back flags agree with the current ones
/// everywhere.
pub proof fn lemma_nested_keeps_frame(
    start: Seq<bool>,
    flags: Seq<bool>,
    log: Seq<(usize, bool)>,
    returned: Seq<bool>,
)
    requires
        frame_consistent(start, flags, log),
        returned.len() >= flags.len(),
        forall|j: int| 0 <= j < returned.len() ==> #[trigger] returned[j] == flag_at(flags, j),
    ensures
        frame_consistent(start, returned, log),
{
    assert forall|j: int| 0 <= j && !logged(log, j) implies #[trigger] flag_at(returned, j)
        == flag_at(start, j) by {
        assert(flag_at(flags, j) == flag_at(start, j));
    }
}

} // verus!
