use ferrex::journal::{plan_recovery, recovery_action, PendingOp, RecoveryAction};
use ferrex::kinds::PendingOpKind;

const U1: &str = "0190c7a4-8e1f-7c3a-9b2d-4f6e8a1c3b5d";

fn op(kind: PendingOpKind, id: &str, written: bool) -> PendingOp {
    PendingOp {
        op_id: "op".into(),
        kind,
        memory_id: id.into(),
        namespace: "default".into(),
        target_id: None,
        qdrant_written: written,
        started_at: 0,
    }
}

#[test]
fn recovery_actions_by_kind_and_progress() {
    let u = uuid::Uuid::parse_str(U1).unwrap().as_u128();
    assert_eq!(recovery_action(&op(PendingOpKind::Store, U1, false)), RecoveryAction::Clear);
    assert_eq!(recovery_action(&op(PendingOpKind::Store, U1, true)), RecoveryAction::Compensate(u));
    assert_eq!(recovery_action(&op(PendingOpKind::Supersede, U1, true)), RecoveryAction::Compensate(u));
    assert_eq!(recovery_action(&op(PendingOpKind::Forget, U1, false)), RecoveryAction::RollForward(u));
    assert_eq!(recovery_action(&op(PendingOpKind::Store, "bad", true)), RecoveryAction::ClearInvalidId);
}

#[test]
fn recovery_report_counts_actions() {
    let ops = vec![
        op(PendingOpKind::Store, U1, false),
        op(PendingOpKind::Store, U1, true),
        op(PendingOpKind::Forget, U1, true),
        op(PendingOpKind::Forget, "bad", true),
    ];
    let (actions, report) = plan_recovery(&ops);
    assert_eq!(actions.len(), 4);
    assert_eq!(report.cleared_pre_qdrant, 1);
    assert_eq!(report.compensated_stores, 1);
    assert_eq!(report.rolled_forward_forgets, 1);
}
