//! The dual-write journal: operations that were started against both stores,
//! and what startup recovery does with those left behind by a crash.
use vstd::prelude::*;
use crate::ids::{parse_uuid, uuid_of};
use crate::kinds::PendingOpKind;

verus! {

/// A journal entry for a dual write that has not completed.
pub struct PendingOp {
    pub op_id: String,
    pub kind: PendingOpKind,
    pub memory_id: String,
    pub namespace: String,
    pub target_id: Option<String>,
    /// The vector-store step has completed.
    pub qdrant_written: bool,
    /// Microseconds since the Unix epoch.
    pub started_at: i64,
}

/// What recovery does with one pending operation. Every action ends by
/// clearing the journal entry.
#[derive(Clone, Copy, Debug, PartialEq, Eq, Structural)]
pub enum RecoveryAction {
    /// Crashed before the vector write: nothing to undo.
    Clear,
    /// The memory id is not a UUID: only clear the entry.
    ClearInvalidId,
    /// A store crashed after the vector write: delete the point and the row.
    Compensate(u128),
    /// A forget: finish it by deleting the point and the row.
    RollForward(u128),
}

/// The action for a pending operation: stores and supersedes that never
/// reached the vector store are cleared, those that did are compensated; a
/// forget is always rolled forward, since deleting is idempotent on both
/// stores. An id that is not a UUID is only cleared.
pub open spec fn recovery_action_of(kind: PendingOpKind, qdrant_written: bool, memory_id: Seq<char>) -> RecoveryAction {
    match kind {
        PendingOpKind::Forget => match uuid_of(memory_id) {
            Some(u) => RecoveryAction::RollForward(u),
            None => RecoveryAction::ClearInvalidId,
        },
        _ => if !qdrant_written {
            RecoveryAction::Clear
        } else {
            match uuid_of(memory_id) {
                Some(u) => RecoveryAction::Compensate(u),
                None => RecoveryAction::ClearInvalidId,
            }
        },
    }
}

pub fn recovery_action(op: &PendingOp) -> (a: RecoveryAction)
    ensures
        a == recovery_action_of(op.kind, op.qdrant_written, op.memory_id@),
{
    match op.kind {
        PendingOpKind::Forget => match parse_uuid(op.memory_id.as_str()) {
            Some(u) => RecoveryAction::RollForward(u),
            None => RecoveryAction::ClearInvalidId,
        },
        _ => if !op.qdrant_written {
            RecoveryAction::Clear
        } else {
            match parse_uuid(op.memory_id.as_str()) {
                Some(u) => RecoveryAction::Compensate(u),
                None => RecoveryAction::ClearInvalidId,
            }
        },
    }
}

/// What startup recovery did.
#[derive(Clone, Copy, Debug)]
pub struct RecoveryReport {
    pub compensated_stores: u64,
    pub rolled_forward_forgets: u64,
    pub cleared_pre_qdrant: u64,
}

/// Number of actions in `a` that satisfy `p`.
pub open spec fn count_actions(a: Seq<RecoveryAction>, p: spec_fn(RecoveryAction) -> bool) -> nat
    decreases a.len(),
{
    if a.len() == 0 {
        0
    } else {
        count_actions(a.drop_last(), p) + if p(a.last()) { 1nat } else { 0nat }
    }
}

proof fn lemma_count_bounded(a: Seq<RecoveryAction>, p: spec_fn(RecoveryAction) -> bool)
    ensures
        count_actions(a, p) <= a.len(),
    decreases a.len(),
{
    if a.len() > 0 {
        lemma_count_bounded(a.drop_last(), p);
    }
}

/// Number of operations in `ops` that satisfy `p`.
pub open spec fn count_ops(ops: Seq<PendingOp>, p: spec_fn(PendingOp) -> bool) -> nat
    decreases ops.len(),
{
    if ops.len() == 0 {
        0
    } else {
        count_ops(ops.drop_last(), p) + if p(ops.last()) { 1nat } else { 0nat }
    }
}

/// What recovery does with operation `o`.
pub open spec fn action_of(o: PendingOp) -> RecoveryAction {
    recovery_action_of(o.kind, o.qdrant_written, o.memory_id@)
}

proof fn lemma_counts_agree(
    ops: Seq<PendingOp>,
    actions: Seq<RecoveryAction>,
    p: spec_fn(RecoveryAction) -> bool,
    q: spec_fn(PendingOp) -> bool,
)
    requires
        actions.len() == ops.len(),
        forall|k: int| 0 <= k < ops.len() ==> #[trigger] actions[k] == action_of(ops[k]),
        forall|o: PendingOp| #[trigger] q(o) == p(action_of(o)),
    ensures
        count_actions(actions, p) == count_ops(ops, q),
    decreases ops.len(),
{
    if ops.len() > 0 {
        assert forall|k: int| 0 <= k < ops.drop_last().len() implies #[trigger] actions.drop_last()[k] == action_of(
            ops.drop_last()[k],
        ) by {
            assert(actions.drop_last()[k] == actions[k]);
        }
        lemma_counts_agree(ops.drop_last(), actions.drop_last(), p, q);
        assert(actions.last() == actions[actions.len() - 1]);
        assert(q(ops.last()) == p(action_of(ops.last())));
    }
}

/// Recovery plan for the pending operations, in journal order, and the report
/// it yields: one action per operation, counted by kind.
pub fn plan_recovery(ops: &Vec<PendingOp>) -> (r: (Vec<RecoveryAction>, RecoveryReport))
    ensures
        r.0@.len() == ops@.len(),
        forall|i: int| 0 <= i < ops@.len() ==> #[trigger] r.0@[i] == recovery_action_of(
            ops@[i].kind,
            ops@[i].qdrant_written,
            ops@[i].memory_id@,
        ),
        r.1.compensated_stores == count_actions(r.0@, |a: RecoveryAction| a is Compensate),
        r.1.rolled_forward_forgets == count_actions(r.0@, |a: RecoveryAction| a is RollForward),
        r.1.cleared_pre_qdrant == count_actions(r.0@, |a: RecoveryAction| a is Clear),
        r.1.cleared_pre_qdrant == count_ops(
            ops@,
            |o: PendingOp| o.kind != PendingOpKind::Forget && !o.qdrant_written,
        ),
        r.1.compensated_stores == count_ops(
            ops@,
            |o: PendingOp| o.kind != PendingOpKind::Forget && o.qdrant_written && uuid_of(o.memory_id@) is Some,
        ),
        r.1.rolled_forward_forgets == count_ops(
            ops@,
            |o: PendingOp| o.kind == PendingOpKind::Forget && uuid_of(o.memory_id@) is Some,
        ),
{
    let mut actions: Vec<RecoveryAction> = Vec::new();
    let mut report = RecoveryReport { compensated_stores: 0, rolled_forward_forgets: 0, cleared_pre_qdrant: 0 };
    let mut i: usize = 0;
    while i < ops.len()
        invariant
            i <= ops.len(),
            actions@.len() == i,
            forall|k: int| 0 <= k < i ==> #[trigger] actions@[k] == recovery_action_of(
                ops@[k].kind,
                ops@[k].qdrant_written,
                ops@[k].memory_id@,
            ),
            report.compensated_stores == count_actions(actions@, |a: RecoveryAction| a is Compensate),
            report.rolled_forward_forgets == count_actions(actions@, |a: RecoveryAction| a is RollForward),
            report.cleared_pre_qdrant == count_actions(actions@, |a: RecoveryAction| a is Clear),
        decreases ops.len() - i,
    {
        let a = recovery_action(&ops[i]);
        proof {
            lemma_count_bounded(actions@, |a: RecoveryAction| a is Compensate);
            lemma_count_bounded(actions@, |a: RecoveryAction| a is RollForward);
            lemma_count_bounded(actions@, |a: RecoveryAction| a is Clear);
        }
        let ghost before = actions@;
        actions.push(a);
        assert(actions@.drop_last() == before);
        match a {
            RecoveryAction::Compensate(_) => {
                report.compensated_stores = report.compensated_stores + 1;
            },
            RecoveryAction::RollForward(_) => {
                report.rolled_forward_forgets = report.rolled_forward_forgets + 1;
            },
            RecoveryAction::Clear => {
                report.cleared_pre_qdrant = report.cleared_pre_qdrant + 1;
            },
            RecoveryAction::ClearInvalidId => {},
        }
        i = i + 1;
    }
    proof {
        assert forall|k: int| 0 <= k < ops@.len() implies #[trigger] actions@[k] == action_of(ops@[k]) by {}
        let q1 = |o: PendingOp| o.kind != PendingOpKind::Forget && !o.qdrant_written;
        let q2 = |o: PendingOp| o.kind != PendingOpKind::Forget && o.qdrant_written && uuid_of(o.memory_id@) is Some;
        let q3 = |o: PendingOp| o.kind == PendingOpKind::Forget && uuid_of(o.memory_id@) is Some;
        let p1 = |a: RecoveryAction| a is Clear;
        let p2 = |a: RecoveryAction| a is Compensate;
        let p3 = |a: RecoveryAction| a is RollForward;
        assert forall|o: PendingOp| #[trigger] q1(o) == p1(action_of(o)) by {}
        assert forall|o: PendingOp| #[trigger] q2(o) == p2(action_of(o)) by {}
        assert forall|o: PendingOp| #[trigger] q3(o) == p3(action_of(o)) by {}
        lemma_counts_agree(ops@, actions@, p1, q1);
        lemma_counts_agree(ops@, actions@, p2, q2);
        lemma_counts_agree(ops@, actions@, p3, q3);
    }
    (actions, report)
}

} // verus!
