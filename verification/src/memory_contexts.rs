//! Writable permissions of account regions across nested invocation frames.
//!
//! Each frame keeps a snapshot with, for every region it has changed, the
//! flag the region had before the frame first changed it; popping a frame
//! that has a parent puts those flags back, so the parent sees its own
//! permissions again.
use vstd::prelude::*;

use crate::permission_log::{
    first_logged, flag_at, flags_after, flags_rolled_back, frame_consistent, lemma_after_bounds,
    lemma_first_logged_absent, lemma_frame_begins, lemma_last_write, lemma_log_after,
    lemma_nested_keeps_frame, lemma_rollback_restores, lemma_unwritten, lemma_update_keeps_frame,
    lemma_write_step, len_after, log_after, logged, value_after, written,
};

verus! {

/// Whether a region may be written.
#[derive(Debug, Clone, Copy, PartialEq, Eq, Structural)]
pub enum PermissionState {
    ReadOnly,
    Writable,
}

/// The permission of one account region.
#[derive(Debug, Clone, Copy, PartialEq, Eq, Structural)]
pub struct AccountRegion {
    pub writable: bool,
}

impl Default for AccountRegion {
    fn default() -> (region: Self)
        ensures
            !region.writable,
    {
        Self { writable: false }
    }
}

/// For each region a frame has changed, in the order it first changed them,
/// `(region index, writable flag before the frame's first change)`.
#[derive(Debug)]
pub struct FrameWritableSnapshot {
    pub entries: Vec<(usize, bool)>,
}

impl Default for FrameWritableSnapshot {
    fn default() -> (snapshot: Self)
        ensures
            snapshot.entries@ == Seq::<(usize, bool)>::empty(),
    {
        Self { entries: Vec::new() }
    }
}

/// Account region permissions and the stack of frame snapshots.
#[derive(Debug)]
pub struct MemoryContexts {
    pub account_regions: Vec<AccountRegion>,
    pub snapshots: Vec<FrameWritableSnapshot>,
}

/// The abstract state: the writable flag of each region, and the snapshot of
/// each frame from the outermost to the innermost.
pub struct ContextsView {
    pub regions: Seq<bool>,
    pub frames: Seq<Seq<(usize, bool)>>,
}

/// The permission that a writable flag stands for.
pub open spec fn permission_of(writable: bool) -> PermissionState {
    if writable {
        PermissionState::Writable
    } else {
        PermissionState::ReadOnly
    }
}

impl ContextsView {
    /// A new innermost frame with an empty snapshot.
    pub open spec fn pushed(self) -> ContextsView {
        ContextsView { regions: self.regions, frames: self.frames.push(Seq::empty()) }
    }

    /// The innermost frame removed; only when an enclosing frame remains are
    /// the flags in its snapshot put back, each region taking the flag of its
    /// first entry.
    pub open spec fn popped(self) -> ContextsView {
        if self.frames.len() == 0 {
            self
        } else if self.frames.len() == 1 {
            ContextsView { regions: self.regions, frames: self.frames.drop_last() }
        } else {
            ContextsView {
                regions: flags_rolled_back(self.regions, self.frames.last()),
                frames: self.frames.drop_last(),
            }
        }
    }

    /// The flags `updates` applied (growing the regions where an index lies
    /// past the end) and, in the innermost snapshot, each region that it
    /// changes for the first time in the frame added with its flag from
    /// before; with no frame, one is opened first.
    pub open spec fn updated(self, updates: Seq<(usize, bool)>) -> ContextsView {
        let frames = if self.frames.len() == 0 {
            seq![Seq::<(usize, bool)>::empty()]
        } else {
            self.frames
        };
        ContextsView {
            regions: flags_after(self.regions, updates),
            frames: frames.update(
                frames.len() - 1,
                log_after(self.regions, frames.last(), updates),
            ),
        }
    }

    /// The permission of region `index`, if it exists.
    pub open spec fn region(self, index: int) -> Option<PermissionState> {
        if 0 <= index < self.regions.len() {
            Some(permission_of(self.regions[index]))
        } else {
            None
        }
    }
}

impl View for MemoryContexts {
    type V = ContextsView;

    open spec fn view(&self) -> ContextsView {
        ContextsView {
            regions: self.account_regions@.map_values(|r: AccountRegion| r.writable),
            frames: self.snapshots@.map_values(|s: FrameWritableSnapshot| s.entries@),
        }
    }
}

impl Default for MemoryContexts {
    fn default() -> (contexts: Self)
        ensures
            contexts@.regions == Seq::<bool>::empty(),
            contexts@.frames == Seq::<Seq<(usize, bool)>>::empty(),
    {
        let contexts = Self { account_regions: Vec::new(), snapshots: Vec::new() };
        assert(contexts@.regions =~= Seq::<bool>::empty());
        assert(contexts@.frames =~= Seq::<Seq<(usize, bool)>>::empty());
        contexts
    }
}

impl MemoryContexts {
    /// Opens a new frame with an empty snapshot.
    pub fn push_placeholder(&mut self)
        ensures
            final(self)@ == old(self)@.pushed(),
    {
        self.snapshots.push(FrameWritableSnapshot::default());
        assert(self@.frames =~= old(self)@.pushed().frames);
        assert(self@.regions =~= old(self)@.regions);
    }

    /// Closes the innermost frame. When an enclosing frame remains, each
    /// region named in the closed frame's snapshot gets back the flag of its
    /// first entry there; indices past the end are skipped.
    pub fn pop(&mut self)
        ensures
            final(self)@ == old(self)@.popped(),
    {
        let ghost start = self@;
        if let Some(snapshot) = self.snapshots.pop() {
            if self.snapshots.len() == 0 {
                assert(self@.frames =~= start.frames.drop_last());
                assert(self@.regions =~= start.regions);
                return ;
            }
            let ghost regions0 = start.regions;
            let ghost entries = snapshot.entries@;
            assert(entries == start.frames.last());
            let n = snapshot.entries.len();
            let mut i: usize = n;
            while i > 0
                invariant
                    0 <= i <= n,
                    n == entries.len(),
                    entries == snapshot.entries@,
                    self.account_regions@.len() == regions0.len(),
                    forall|j: int|
                        0 <= j < regions0.len() ==> #[trigger] self.account_regions@[j].writable
                            == first_logged(regions0, entries.subrange(i as int, n as int), j),
                    self@.frames == start.frames.drop_last(),
                decreases i,
            {
                i = i - 1;
                let (index, previous_writable) = snapshot.entries[i];
                if index < self.account_regions.len() {
                    self.account_regions.set(index, AccountRegion { writable: previous_writable });
                }
                proof {
                    let tail = entries.subrange(i as int, n as int);
                    assert(tail.drop_first() =~= entries.subrange(i + 1, n as int));
                    assert(tail[0] == entries[i as int]);
                }
            }
            assert(entries.subrange(0, n as int) =~= entries);
            assert(self@.regions =~= flags_rolled_back(regions0, entries));
            assert(self@.frames =~= start.popped().frames);
        } else {
            assert(self@.frames =~= start.frames);
        }
    }

    /// Sets the writable flag of each `(index, writable)` pair, in order,
    /// growing the regions with read-only ones where an index lies past the
    /// end. A region changed for the first time in the innermost frame is
    /// added to that frame's snapshot with its flag from before; with no
    /// frame, one is opened first.
    pub fn update_account_permissions(&mut self, indexes: &[(usize, bool)])
        requires
            forall|k: int| 0 <= k < indexes@.len() ==> #[trigger] indexes@[k].0 < usize::MAX,
        ensures
            final(self)@ == old(self)@.updated(indexes@),
    {
        let ghost start = self@;
        let ghost regions0 = start.regions;
        let ghost writes = indexes@;
        if self.snapshots.len() == 0 {
            self.snapshots.push(FrameWritableSnapshot::default());
        }
        let ghost frames1 = self@.frames;
        let mut snapshot = self.snapshots.pop().unwrap();
        let ghost log0 = snapshot.entries@;
        assert(log0 == frames1.last());
        let mut k: usize = 0;
        while k < indexes.len()
            invariant
                0 <= k <= indexes@.len(),
                writes == indexes@,
                forall|i: int| 0 <= i < writes.len() ==> #[trigger] writes[i].0 < usize::MAX,
                self.account_regions@.len() == len_after(regions0.len(), writes.take(k as int)),
                forall|j: int|
                    0 <= j < self.account_regions@.len() ==> #[trigger] self.account_regions@[j].writable
                        == value_after(regions0, writes.take(k as int), j),
                snapshot.entries@ == log_after(regions0, log0, writes.take(k as int)),
                self.snapshots@.len() + 1 == frames1.len(),
                forall|f: int|
                    0 <= f < self.snapshots@.len() ==> #[trigger] self.snapshots@[f].entries@
                        == frames1[f],
            decreases indexes.len() - k,
        {
            let (index, writable) = indexes[k];
            proof {
                lemma_after_bounds(regions0, writes.take(k as int));
                lemma_log_after(regions0, log0, writes.take(k as int));
            }
            let ghost snaps = self.snapshots@;
            while self.account_regions.len() <= index
                invariant
                    index < usize::MAX,
                    self.snapshots@ == snaps,
                    self.account_regions@.len() >= len_after(
                        regions0.len(),
                        writes.take(k as int),
                    ),
                    self.account_regions@.len() <= if len_after(
                        regions0.len(),
                        writes.take(k as int),
                    ) <= index {
                        index + 1
                    } else {
                        len_after(regions0.len(), writes.take(k as int)) as int
                    },
                    forall|j: int|
                        0 <= j < self.account_regions@.len() ==> #[trigger] self.account_regions@[j].writable
                            == value_after(regions0, writes.take(k as int), j),
                    forall|j: int|
                        j >= len_after(regions0.len(), writes.take(k as int)) ==> !value_after(
                            regions0,
                            writes.take(k as int),
                            j,
                        ),
                decreases index + 1 - self.account_regions.len(),
            {
                self.account_regions.push(AccountRegion::default());
            }
            let previous_writable = self.account_regions[index].writable;
            if !snapshot_has(&snapshot.entries, index) {
                proof {
                    let done = writes.take(k as int);
                    assert(!written(done, index as int));
                    assert forall|i: int| 0 <= i < done.len() implies done[i].0 != index by {
                        if done[i].0 == index {
                            assert(written(done, index as int));
                        }
                    }
                    lemma_unwritten(regions0, done, index as int);
                }
                snapshot.entries.push((index, previous_writable));
            }
            self.account_regions.set(index, AccountRegion { writable });
            proof {
                let next = writes.take(k + 1);
                assert(next.drop_last() =~= writes.take(k as int));
                assert(next.last() == writes[k as int]);
                assert forall|j: int|
                    0 <= j < self.account_regions@.len() implies #[trigger] self.account_regions@[j].writable
                    == value_after(regions0, writes.take(k + 1), j) by {
                    lemma_write_step(regions0, writes, k as int, j);
                }
                lemma_write_step(regions0, writes, k as int, index as int);
            }
            k = k + 1;
        }
        self.snapshots.push(snapshot);
        proof {
            assert(writes.take(writes.len() as int) =~= writes);
            let target = start.updated(writes);
            assert(self@.regions =~= target.regions);
            assert(self@.frames =~= target.frames);
        }
    }

    /// The permission of region `index`, or `None` past the end.
    pub fn region(&self, index: usize) -> (permission: Option<PermissionState>)
        ensures
            permission == self@.region(index as int),
    {
        if index < self.account_regions.len() {
            if self.account_regions[index].writable {
                Some(PermissionState::Writable)
            } else {
                Some(PermissionState::ReadOnly)
            }
        } else {
            None
        }
    }
}

/// Whether the snapshot names region `index`.
fn snapshot_has(entries: &Vec<(usize, bool)>, index: usize) -> (has: bool)
    ensures
        has == logged(entries@, index as int),
{
    let mut k: usize = 0;
    while k < entries.len()
        invariant
            0 <= k <= entries@.len(),
            forall|i: int| 0 <= i < k ==> #[trigger] entries@[i].0 != index,
        decreases entries.len() - k,
    {
        if entries[k].0 == index {
            return true;
        }
        k = k + 1;
    }
    proof {
        if logged(entries@, index as int) {
            let i = choose|i: int| 0 <= i < entries@.len() && #[trigger] entries@[i].0 == index;
            assert(entries@[i].0 != index);
        }
    }
    false
}

/// Opening a frame and closing it again, with nothing updated in between,
/// leaves the permissions and the frames as they were.
pub proof fn lemma_push_pop_identity(v: ContextsView)
    ensures
        v.pushed().popped() == v,
{
    let p = v.pushed();
    assert(p.frames.drop_last() =~= v.frames);
    if v.frames.len() > 0 {
        assert(p.frames.last() =~= Seq::<(usize, bool)>::empty());
        assert(flags_rolled_back(v.regions, Seq::<(usize, bool)>::empty()) =~= v.regions);
    }
}

/// What runs inside a frame: a permission update, or a nested frame that
/// runs its own steps and is closed again.
pub enum FrameStep {
    Update(Seq<(usize, bool)>),
    Call(Seq<FrameStep>),
}

/// The state after `steps`, in order.
pub open spec fn run_steps(v: ContextsView, steps: Seq<FrameStep>) -> ContextsView
    decreases steps,
{
    if steps.len() == 0 {
        v
    } else {
        let next = match steps[0] {
            FrameStep::Update(updates) => v.updated(updates),
            FrameStep::Call(inner) => {
                proof {
                    assert(decreases_to!(steps => steps[0]));
                }
                run_steps(v.pushed(), inner).popped()
            },
        };
        run_steps(next, steps.drop_first())
    }
}

/// Inside a frame that began with the flags `start`, any steps keep the
/// frame consistent and leave the enclosing frames alone.
proof fn lemma_steps_keep_frame(v: ContextsView, steps: Seq<FrameStep>, start: Seq<bool>)
    requires
        v.frames.len() >= 2,
        frame_consistent(start, v.regions, v.frames.last()),
    ensures
        run_steps(v, steps).frames.len() == v.frames.len(),
        run_steps(v, steps).frames.drop_last() == v.frames.drop_last(),
        frame_consistent(start, run_steps(v, steps).regions, run_steps(v, steps).frames.last()),
    decreases steps,
{
    if steps.len() > 0 {
        let rest = steps.drop_first();
        match steps[0] {
            FrameStep::Update(updates) => {
                let w = v.updated(updates);
                lemma_update_keeps_frame(start, v.regions, v.frames.last(), updates);
                assert(w.frames.drop_last() =~= v.frames.drop_last());
                lemma_steps_keep_frame(w, rest, start);
            },
            FrameStep::Call(inner) => {
                assert(decreases_to!(steps => steps[0]));
                let w = v.pushed();
                lemma_frame_begins(v.regions);
                assert(w.frames.last() == Seq::<(usize, bool)>::empty());
                lemma_steps_keep_frame(w, inner, v.regions);
                let r = run_steps(w, inner);
                let p = r.popped();
                lemma_rollback_restores(v.regions, r.regions, r.frames.last());
                assert(r.frames.drop_last() =~= v.frames);
                assert(p.frames == v.frames);
                lemma_nested_keeps_frame(start, v.regions, v.frames.last(), p.regions);
                lemma_steps_keep_frame(p, rest, start);
            },
        }
    }
}

/// Inside an enclosing frame, opening a frame, running any steps in it
/// (updates that may name a region any number of times, and nested frames
/// opened and closed again) and closing it gives the enclosing frame its
/// permissions and frames back; regions created on the way are read-only.
pub proof fn lemma_frame_restores(v: ContextsView, steps: Seq<FrameStep>)
    requires
        v.frames.len() >= 1,
    ensures
        run_steps(v.pushed(), steps).popped().frames == v.frames,
        run_steps(v.pushed(), steps).popped().regions.len() >= v.regions.len(),
        forall|j: int|
            0 <= j < run_steps(v.pushed(), steps).popped().regions.len() ==> #[trigger] run_steps(
                v.pushed(),
                steps,
            ).popped().regions[j] == flag_at(v.regions, j),
{
    let w = v.pushed();
    lemma_frame_begins(v.regions);
    assert(w.frames.last() == Seq::<(usize, bool)>::empty());
    lemma_steps_keep_frame(w, steps, v.regions);
    let r = run_steps(w, steps);
    lemma_rollback_restores(v.regions, r.regions, r.frames.last());
    assert(r.frames.drop_last() =~= v.frames);
}

/// A nested frame that updates regions, naming a region any number of
/// times, and is then closed gives the enclosing frame its permissions back:
/// every region that existed keeps its flag, regions that the update created
/// are read-only, and the frames are those from before.
pub proof fn lemma_nested_frame_restores(v: ContextsView, updates: Seq<(usize, bool)>)
    requires
        v.frames.len() >= 1,
    ensures
        v.pushed().updated(updates).popped().frames == v.frames,
        v.pushed().updated(updates).popped().regions.len() == len_after(v.regions.len(), updates),
        forall|j: int|
            0 <= j < v.regions.len() ==> #[trigger] v.pushed().updated(updates).popped().regions[j]
                == v.regions[j],
        forall|j: int|
            v.regions.len() <= j < len_after(v.regions.len(), updates)
                ==> !#[trigger] v.pushed().updated(updates).popped().regions[j],
{
    let w = v.pushed();
    let u = w.updated(updates);
    lemma_frame_begins(v.regions);
    assert(w.frames.last() == Seq::<(usize, bool)>::empty());
    lemma_update_keeps_frame(v.regions, v.regions, Seq::empty(), updates);
    lemma_rollback_restores(v.regions, u.regions, u.frames.last());
    assert(u.frames.drop_last() =~= v.frames);
    lemma_after_bounds(v.regions, updates);
}

/// After an update, each region that it wrote reads the value of its last
/// write.
pub proof fn lemma_update_reads_last_write(v: ContextsView, updates: Seq<(usize, bool)>, k: int)
    requires
        0 <= k < updates.len(),
        forall|i: int| k < i < updates.len() ==> updates[i].0 != updates[k].0,
    ensures
        v.updated(updates).region(updates[k].0 as int) == Some(permission_of(updates[k].1)),
{
    lemma_after_bounds(v.regions, updates);
    lemma_last_write(v.regions, updates, k);
}

/// After an update, a region that it did not name keeps its permission.
pub proof fn lemma_update_keeps_unnamed(v: ContextsView, updates: Seq<(usize, bool)>, j: int)
    requires
        0 <= j < v.regions.len(),
        forall|i: int| 0 <= i < updates.len() ==> updates[i].0 != j,
    ensures
        v.updated(updates).region(j) == v.region(j),
{
    lemma_after_bounds(v.regions, updates);
    lemma_unwritten(v.regions, updates, j);
}

/// Closing a frame changes only the regions named in its snapshot, and never
/// the number of regions.
pub proof fn lemma_pop_touches_only_logged(v: ContextsView, j: int)
    requires
        v.frames.len() >= 1,
        !logged(v.frames.last(), j),
    ensures
        v.popped().regions.len() == v.regions.len(),
        v.popped().region(j) == v.region(j),
{
    if v.frames.len() > 1 {
        lemma_first_logged_absent(v.regions, v.frames.last(), j);
    }
}

/// Updating a region twice within one frame keeps only its first snapshot:
/// the frame's snapshot grows by the regions named for the first time.
pub proof fn lemma_update_logs_first_change(v: ContextsView, updates: Seq<(usize, bool)>, j: int)
    requires
        v.frames.len() >= 1,
        logged(v.frames.last(), j),
    ensures
        forall|k: int|
            0 <= k < v.frames.last().len() ==> #[trigger] v.updated(updates).frames.last()[k]
                == v.frames.last()[k],
        logged(v.updated(updates).frames.last(), j),
{
    lemma_log_after(v.regions, v.frames.last(), updates);
}

} // verus!
