use ducky::{
    action_gate, dupe_positions, finish_dupe, plan_dupe, run_failed, same_device, same_inode,
    ActionGate, ActionMode, ActionStats, DupeOutcome, DupeRef, DupeStep, DuplicateGroup, FileId,
};

fn id(dev: u64, ino: u64) -> Option<FileId> {
    Some(FileId { dev, ino })
}

fn zero(s: &ActionStats) -> bool {
    s.deleted == 0
        && s.linked == 0
        && s.skipped_same_inode == 0
        && s.skipped_cross_device == 0
        && s.errors == 0
}

#[test]
fn same_inode_guard_delete() {
    // A member that is a hard link of the canonical file is skipped, not removed.
    let canon = id(3, 77);
    let dupe = id(3, 77);
    let step = plan_dupe(ActionMode::Delete, canon, dupe);
    assert_eq!(step, DupeStep::SkipSameInode);
    let mut stats = ActionStats::default();
    stats.record(finish_dupe(step, false, false));
    assert_eq!(stats.deleted, 0);
    assert_eq!(stats.skipped_same_inode, 1);
}

#[test]
fn identity_helpers() {
    assert!(same_inode(id(1, 2), id(1, 2)));
    assert!(!same_inode(id(1, 2), id(1, 3)));
    assert!(!same_inode(id(1, 2), id(2, 2)));
    assert!(!same_inode(None, id(1, 2)));
    assert!(same_device(id(1, 2), id(1, 9)));
    assert!(!same_device(id(1, 2), id(4, 2)));
    assert!(same_device(None, id(4, 2)));
    assert!(same_device(id(4, 2), None));
}

#[test]
fn gate_without_confirmation_refuses() {
    assert_eq!(action_gate(true, false, false, 2), ActionGate::Refused);
    assert_eq!(action_gate(false, true, false, 2), ActionGate::Refused);
    assert_eq!(action_gate(true, true, false, 2), ActionGate::Refused);
}

#[test]
fn gate_decisions() {
    assert_eq!(action_gate(false, false, true, 5), ActionGate::NotRequested);
    assert_eq!(action_gate(true, false, true, 0), ActionGate::NothingToDo);
    assert_eq!(action_gate(true, false, true, 1), ActionGate::Proceed(ActionMode::Delete));
    assert_eq!(action_gate(false, true, true, 1), ActionGate::Proceed(ActionMode::Hardlink));
    assert_eq!(action_gate(true, true, true, 1), ActionGate::Proceed(ActionMode::Delete));
}

#[test]
fn unconfirmed_delete_leaves_stats_zero() {
    let stats = ActionStats::new();
    assert!(!matches!(action_gate(true, false, false, 1), ActionGate::Proceed(_)));
    assert!(zero(&stats));
    assert!(!run_failed(true, false, &stats));
}

#[test]
fn delete_mode_steps() {
    assert_eq!(plan_dupe(ActionMode::Delete, id(1, 1), id(1, 2)), DupeStep::Remove);
    assert_eq!(plan_dupe(ActionMode::Delete, id(1, 1), id(9, 2)), DupeStep::Remove);
    assert_eq!(plan_dupe(ActionMode::Delete, None, id(9, 2)), DupeStep::Remove);
    assert_eq!(finish_dupe(DupeStep::Remove, true, false), DupeOutcome::Deleted);
    assert_eq!(finish_dupe(DupeStep::Remove, false, false), DupeOutcome::Failed);
}

#[test]
fn hardlink_across_devices_is_skipped() {
    let step = plan_dupe(ActionMode::Hardlink, id(1, 10), id(2, 10));
    assert_eq!(step, DupeStep::SkipCrossDevice);
    let mut stats = ActionStats::new();
    stats.record(finish_dupe(step, true, true));
    assert_eq!(stats.skipped_cross_device, 1);
    assert_eq!(stats.linked, 0);
    assert_eq!(stats.deleted, 0);
}

#[test]
fn hardlink_steps_and_outcomes() {
    assert_eq!(plan_dupe(ActionMode::Hardlink, id(1, 1), id(1, 2)), DupeStep::Relink);
    assert_eq!(plan_dupe(ActionMode::Hardlink, id(1, 1), id(1, 1)), DupeStep::SkipSameInode);
    assert_eq!(plan_dupe(ActionMode::Hardlink, None, id(1, 1)), DupeStep::Relink);
    assert_eq!(finish_dupe(DupeStep::Relink, true, true), DupeOutcome::Linked);
    // Removal succeeded but the link failed: a failure, never a success.
    assert_eq!(finish_dupe(DupeStep::Relink, true, false), DupeOutcome::Failed);
    assert_eq!(finish_dupe(DupeStep::Relink, false, true), DupeOutcome::Failed);
}

#[test]
fn stats_count_each_outcome() {
    let mut s = ActionStats::new();
    for o in [
        DupeOutcome::Deleted,
        DupeOutcome::Deleted,
        DupeOutcome::Linked,
        DupeOutcome::SkippedSameInode,
        DupeOutcome::SkippedCrossDevice,
        DupeOutcome::Failed,
    ] {
        s.record(o);
    }
    assert_eq!((s.deleted, s.linked, s.skipped_same_inode, s.skipped_cross_device, s.errors), (2, 1, 1, 1, 1));
    assert!(run_failed(false, true, &s));
    assert!(!run_failed(false, false, &s));
}

#[test]
fn stats_saturate() {
    let mut s = ActionStats::new();
    s.errors = usize::MAX;
    s.record(DupeOutcome::Failed);
    assert_eq!(s.errors, usize::MAX);
}

#[test]
fn positions_skip_canonical_members() {
    let g1 = DuplicateGroup::new(1, vec![b"b".to_vec(), b"a".to_vec(), b"c".to_vec()]);
    let g2 = DuplicateGroup::new(1, vec![b"x".to_vec()]);
    let g3 = DuplicateGroup::new(1, vec![b"y".to_vec(), b"z".to_vec()]);
    let pos = dupe_positions(&vec![g1, g2, g3]);
    assert_eq!(
        pos,
        vec![
            DupeRef { group: 0, member: 1 },
            DupeRef { group: 0, member: 2 },
            DupeRef { group: 2, member: 1 },
        ]
    );
    assert!(dupe_positions(&Vec::new()).is_empty());
}
