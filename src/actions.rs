//! The rules of the action phase: when it may run at all, what to do with each
//! non-canonical member of a group, and how outcomes are counted.
//!
//! The file-system work itself (identity queries, removal, linking) is done by
//! the caller, which reports back what happened; these functions decide and
//! account.

use vstd::prelude::*;
use crate::group::DuplicateGroup;

verus! {

/// Counters of one action phase.
#[derive(Clone, Copy, Debug)]
pub struct ActionStats {
    pub deleted: usize,
    pub linked: usize,
    pub skipped_same_inode: usize,
    pub skipped_cross_device: usize,
    pub errors: usize,
}

/// The storage object a path resolves to: device and inode number.
#[derive(Clone, Copy, Debug, PartialEq, Eq, Structural)]
pub struct FileId {
    pub dev: u64,
    pub ino: u64,
}

/// The two mutually exclusive actions.
#[derive(Clone, Copy, Debug, PartialEq, Eq, Structural)]
pub enum ActionMode {
    Delete,
    Hardlink,
}

/// What the confirmation gate decides for a run.
#[derive(Clone, Copy, Debug, PartialEq, Eq, Structural)]
pub enum ActionGate {
    /// Neither action was requested.
    NotRequested,
    /// An action was requested but there is no group to act on.
    NothingToDo,
    /// An action was requested without confirmation: nothing is modified.
    Refused,
    /// The action may proceed.
    Proceed(ActionMode),
}

/// What to do with one non-canonical member.
#[derive(Clone, Copy, Debug, PartialEq, Eq, Structural)]
pub enum DupeStep {
    /// It already is the canonical file's storage object.
    SkipSameInode,
    /// It lies on another device than the canonical file; no hard link can
    /// join them.
    SkipCrossDevice,
    /// Remove it.
    Remove,
    /// Remove it, then create a hard link to the canonical file in its place.
    Relink,
}

/// How the work on one non-canonical member ended.
#[derive(Clone, Copy, Debug, PartialEq, Eq, Structural)]
pub enum DupeOutcome {
    SkippedSameInode,
    SkippedCrossDevice,
    Deleted,
    Linked,
    Failed,
}

/// Whether two identity queries name the same storage object; a query that
/// failed never matches.
pub open spec fn same_object(a: Option<FileId>, b: Option<FileId>) -> bool {
    a is Some && b is Some && a->0.dev == b->0.dev && a->0.ino == b->0.ino
}

/// Whether two identity queries name the same device; a query that failed
/// leaves the question to the link call.
pub open spec fn same_volume(a: Option<FileId>, b: Option<FileId>) -> bool {
    a is None || b is None || a->0.dev == b->0.dev
}

/// Whether and how the action phase runs.
pub open spec fn gate_of(delete: bool, hardlink: bool, yes: bool, n_groups: nat) -> ActionGate {
    if !(delete || hardlink) {
        ActionGate::NotRequested
    } else if n_groups == 0 {
        ActionGate::NothingToDo
    } else if !yes {
        ActionGate::Refused
    } else if delete {
        ActionGate::Proceed(ActionMode::Delete)
    } else {
        ActionGate::Proceed(ActionMode::Hardlink)
    }
}

/// The step for a non-canonical member, given the identities of the canonical
/// file and of the member.
pub open spec fn step_of(mode: ActionMode, canonical: Option<FileId>, dupe: Option<FileId>) -> DupeStep {
    if same_object(canonical, dupe) {
        DupeStep::SkipSameInode
    } else {
        match mode {
            ActionMode::Delete => DupeStep::Remove,
            ActionMode::Hardlink => if same_volume(canonical, dupe) {
                DupeStep::Relink
            } else {
                DupeStep::SkipCrossDevice
            },
        }
    }
}

/// How a step ends, given whether the removal and the link creation succeeded
/// (each is only consulted where the step performs it).
pub open spec fn outcome_of(step: DupeStep, removed: bool, linked: bool) -> DupeOutcome {
    match step {
        DupeStep::SkipSameInode => DupeOutcome::SkippedSameInode,
        DupeStep::SkipCrossDevice => DupeOutcome::SkippedCrossDevice,
        DupeStep::Remove => if removed {
            DupeOutcome::Deleted
        } else {
            DupeOutcome::Failed
        },
        DupeStep::Relink => if removed && linked {
            DupeOutcome::Linked
        } else {
            DupeOutcome::Failed
        },
    }
}

/// A counter after one more event, saturating at `usize::MAX`.
pub open spec fn bump(n: usize) -> usize {
    if n == usize::MAX {
        n
    } else {
        (n + 1) as usize
    }
}

impl ActionStats {
    /// All counters are zero.
    pub open spec fn is_zero(&self) -> bool {
        &&& self.deleted == 0
        &&& self.linked == 0
        &&& self.skipped_same_inode == 0
        &&& self.skipped_cross_device == 0
        &&& self.errors == 0
    }

    /// The counters after recording `o`.
    pub open spec fn recorded(self, o: DupeOutcome) -> ActionStats {
        match o {
            DupeOutcome::SkippedSameInode => ActionStats {
                skipped_same_inode: bump(self.skipped_same_inode),
                ..self
            },
            DupeOutcome::SkippedCrossDevice => ActionStats {
                skipped_cross_device: bump(self.skipped_cross_device),
                ..self
            },
            DupeOutcome::Deleted => ActionStats { deleted: bump(self.deleted), ..self },
            DupeOutcome::Linked => ActionStats { linked: bump(self.linked), ..self },
            DupeOutcome::Failed => ActionStats { errors: bump(self.errors), ..self },
        }
    }

    /// Counters of a phase that has not done anything.
    pub fn new() -> (r: Self)
        ensures
            r.is_zero(),
    {
        ActionStats {
            deleted: 0,
            linked: 0,
            skipped_same_inode: 0,
            skipped_cross_device: 0,
            errors: 0,
        }
    }

    /// Counts one outcome.
    pub fn record(&mut self, o: DupeOutcome)
        ensures
            *final(self) == old(self).recorded(o),
    {
        match o {
            DupeOutcome::SkippedSameInode => {
                self.skipped_same_inode = self.skipped_same_inode.saturating_add(1);
            },
            DupeOutcome::SkippedCrossDevice => {
                self.skipped_cross_device = self.skipped_cross_device.saturating_add(1);
            },
            DupeOutcome::Deleted => {
                self.deleted = self.deleted.saturating_add(1);
            },
            DupeOutcome::Linked => {
                self.linked = self.linked.saturating_add(1);
            },
            DupeOutcome::Failed => {
                self.errors = self.errors.saturating_add(1);
            },
        }
    }
}

impl Default for ActionStats {
    fn default() -> (r: Self)
        ensures
            r.is_zero(),
    {
        ActionStats::new()
    }
}

/// Whether the two identities name one storage object (false when either query
/// failed).
pub fn same_inode(a: Option<FileId>, b: Option<FileId>) -> (r: bool)
    ensures
        r == same_object(a, b),
{
    match (a, b) {
        (Some(x), Some(y)) => x.ino == y.ino && x.dev == y.dev,
        _ => false,
    }
}

/// Whether the two identities lie on one device (true when either query
/// failed: the link call then decides).
pub fn same_device(a: Option<FileId>, b: Option<FileId>) -> (r: bool)
    ensures
        r == same_volume(a, b),
{
    match (a, b) {
        (Some(x), Some(y)) => x.dev == y.dev,
        _ => true,
    }
}

/// The confirmation gate: whether an action runs, and which. Delete takes
/// precedence when both are requested.
pub fn action_gate(delete: bool, hardlink: bool, yes: bool, n_groups: usize) -> (r: ActionGate)
    ensures
        r == gate_of(delete, hardlink, yes, n_groups as nat),
{
    if !(delete || hardlink) {
        ActionGate::NotRequested
    } else if n_groups == 0 {
        ActionGate::NothingToDo
    } else if !yes {
        ActionGate::Refused
    } else if delete {
        ActionGate::Proceed(ActionMode::Delete)
    } else {
        ActionGate::Proceed(ActionMode::Hardlink)
    }
}

/// Decides what to do with a non-canonical member: skip it when it already is
/// the canonical file; in hard-link mode, skip it when it is on another device;
/// otherwise act on it.
pub fn plan_dupe(mode: ActionMode, canonical: Option<FileId>, dupe: Option<FileId>) -> (r: DupeStep)
    ensures
        r == step_of(mode, canonical, dupe),
{
    if same_inode(canonical, dupe) {
        return DupeStep::SkipSameInode;
    }
    match mode {
        ActionMode::Delete => DupeStep::Remove,
        ActionMode::Hardlink => if same_device(canonical, dupe) {
            DupeStep::Relink
        } else {
            DupeStep::SkipCrossDevice
        },
    }
}

/// How a step ended. A removal that succeeded followed by a link that failed
/// is a failure: the member's path is then gone.
pub fn finish_dupe(step: DupeStep, removed: bool, linked: bool) -> (r: DupeOutcome)
    ensures
        r == outcome_of(step, removed, linked),
{
    match step {
        DupeStep::SkipSameInode => DupeOutcome::SkippedSameInode,
        DupeStep::SkipCrossDevice => DupeOutcome::SkippedCrossDevice,
        DupeStep::Remove => if removed {
            DupeOutcome::Deleted
        } else {
            DupeOutcome::Failed
        },
        DupeStep::Relink => if removed && linked {
            DupeOutcome::Linked
        } else {
            DupeOutcome::Failed
        },
    }
}

/// Whether a run with these counters should end with a failure status: an
/// action was requested and at least one action failed.
pub fn run_failed(delete: bool, hardlink: bool, stats: &ActionStats) -> (r: bool)
    ensures
        r == ((delete || hardlink) && stats.errors > 0),
{
    (delete || hardlink) && stats.errors > 0
}

/// A non-canonical member: `members[member]` of `groups[group]`.
#[derive(Clone, Copy, Debug, PartialEq, Eq, Structural)]
pub struct DupeRef {
    pub group: usize,
    pub member: usize,
}

/// Whether `a` comes before `b` in group-then-member order.
pub open spec fn ref_before(a: DupeRef, b: DupeRef) -> bool {
    a.group < b.group || (a.group == b.group && a.member < b.member)
}

/// Whether `r` lists member `m` of group `g`.
pub open spec fn lists(r: Seq<DupeRef>, g: int, m: int) -> bool {
    exists|k: int| 0 <= k < r.len() && (#[trigger] r[k]).group == g && r[k].member == m
}

/// Every non-canonical member of every group, in group order and member order:
/// the members an action works on. The canonical member (index 0) is never
/// listed.
pub fn dupe_positions(groups: &Vec<DuplicateGroup>) -> (r: Vec<DupeRef>)
    ensures
        forall|k: int|
            0 <= k < r.len() ==> 1 <= (#[trigger] r[k]).member && r[k].group < groups.len()
                && r[k].member < groups[r[k].group as int].members.len(),
        forall|g: int, m: int|
            0 <= g < groups.len() && 1 <= m < groups[g].members.len() ==> #[trigger] lists(r@, g as int, m as int),
        forall|k: int, l: int| 0 <= k < l < r.len() ==> ref_before(#[trigger] r[k], #[trigger] r[l]),
{
    let mut r: Vec<DupeRef> = Vec::new();
    let mut g: usize = 0;
    while g < groups.len()
        invariant
            g <= groups.len(),
            forall|k: int|
                0 <= k < r.len() ==> 1 <= (#[trigger] r[k]).member && r[k].group < g
                    && r[k].member < groups[r[k].group as int].members.len(),
            forall|h: int, m: int|
                0 <= h < g && 1 <= m < groups[h].members.len() ==> #[trigger] lists(r@, h as int, m as int),
            forall|k: int, l: int| 0 <= k < l < r.len() ==> ref_before(#[trigger] r[k], #[trigger] r[l]),
        decreases groups.len() - g,
    {
        let n = groups[g].members.len();
        let mut m: usize = 1;
        let ghost start = r@;
        while m < n
            invariant
                g < groups.len(),
                n == groups[g as int].members.len(),
                1 <= m,
                start.len() <= r.len(),
                forall|k: int| 0 <= k < start.len() ==> r[k] == start[k],
                forall|k: int|
                    0 <= k < start.len() ==> 1 <= (#[trigger] start[k]).member && start[k].group < g
                        && start[k].member < groups[start[k].group as int].members.len(),
                forall|k: int|
                    start.len() <= k < r.len() ==> (#[trigger] r[k]).group == g && 1 <= r[k].member
                        < m && r[k].member < n,
                forall|j: int|
                    1 <= j < m && j < n ==> #[trigger] lists(r@, g as int, j as int),
                forall|k: int, l: int| 0 <= k < l < r.len() ==> ref_before(#[trigger] r[k], #[trigger] r[l]),
            decreases n - m,
        {
            let ghost before = r@;
            r.push(DupeRef { group: g, member: m });
            proof {
                assert forall|j: int|
                    1 <= j < m + 1 && j < n implies lists(r@, g as int, j as int) by {
                    if j < m {
                        assert(lists(before, g as int, j));
                        let k = choose|k: int|
                            0 <= k < before.len() && (#[trigger] before[k]).group == g && before[k].member == j;
                        assert(r[k] == before[k]);
                    } else {
                        assert(r[before.len() as int] == (DupeRef { group: g, member: j as usize }));
                    }
                }
                assert forall|k: int, l: int| 0 <= k < l < r.len() implies ref_before(
                    #[trigger] r[k],
                    #[trigger] r[l],
                ) by {
                    if l == before.len() {
                        assert(r[k] == before[k]);
                        if k < start.len() {
                            assert(start[k].group < g);
                        }
                    } else {
                        assert(r[k] == before[k]);
                        assert(r[l] == before[l]);
                    }
                }
            }
            m = m + 1;
        }
        proof {
            assert forall|k: int|
                0 <= k < r.len() implies 1 <= (#[trigger] r[k]).member && r[k].group < g + 1
                    && r[k].member < groups[r[k].group as int].members.len() by {
                if k < start.len() {
                    assert(r[k] == start[k]);
                }
            }
            assert forall|h: int, j: int|
                0 <= h < g + 1 && 1 <= j < groups[h].members.len() implies lists(r@, h as int, j as int) by {
                if h < g {
                    assert(lists(start, h, j));
                    let k = choose|k: int|
                        0 <= k < start.len() && (#[trigger] start[k]).group == h && start[k].member == j;
                    assert(r[k] == start[k]);
                }
            }
        }
        g = g + 1;
    }
    r
}

/// In delete mode a non-canonical member is removed unless it already is the
/// canonical file's storage object, in which case it is skipped and counted,
/// never removed; only a removal that succeeded counts as deleted.
pub proof fn lemma_delete_mode(canonical: Option<FileId>, dupe: Option<FileId>, removed: bool, linked: bool)
    ensures
        step_of(ActionMode::Delete, canonical, dupe) == if same_object(canonical, dupe) {
            DupeStep::SkipSameInode
        } else {
            DupeStep::Remove
        },
        same_object(canonical, dupe) ==> outcome_of(
            step_of(ActionMode::Delete, canonical, dupe),
            removed,
            linked,
        ) == DupeOutcome::SkippedSameInode,
        outcome_of(step_of(ActionMode::Delete, canonical, dupe), removed, linked)
            == DupeOutcome::Deleted <==> !same_object(canonical, dupe) && removed,
{
}

/// In hard-link mode a member is replaced by a link only when it is not already
/// the canonical file's storage object and the two lie on one device; a member
/// on another device is skipped, counted, and left untouched; only a removal and
/// a link that both succeeded count as linked.
pub proof fn lemma_hardlink_mode(canonical: Option<FileId>, dupe: Option<FileId>, removed: bool, linked: bool)
    ensures
        step_of(ActionMode::Hardlink, canonical, dupe) == DupeStep::Relink <==> !same_object(
            canonical,
            dupe,
        ) && same_volume(canonical, dupe),
        !same_volume(canonical, dupe) ==> step_of(ActionMode::Hardlink, canonical, dupe)
            == DupeStep::SkipCrossDevice && outcome_of(
            step_of(ActionMode::Hardlink, canonical, dupe),
            removed,
            linked,
        ) == DupeOutcome::SkippedCrossDevice,
        outcome_of(step_of(ActionMode::Hardlink, canonical, dupe), removed, linked)
            == DupeOutcome::Linked <==> step_of(ActionMode::Hardlink, canonical, dupe)
            == DupeStep::Relink && removed && linked,
{
}

/// Without confirmation the action phase never proceeds, whatever the mode
/// flags and groups; its counters stay those of a fresh run, all zero.
pub proof fn lemma_unconfirmed_is_noop(delete: bool, hardlink: bool, n_groups: nat)
    ensures
        !(gate_of(delete, hardlink, false, n_groups) is Proceed),
{
}

} // verus!
