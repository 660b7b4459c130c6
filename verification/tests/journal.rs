use kx_gateway::journal::{
    alert_id_preimage, alerts_fold_plan, alerts_query_bounds, capture_fold_plan, fold_window, reason_wire,
    severity_for, split_page, AlertsWrite, CaptureWrite, FailureReason, FoldEntry, NdClass, ReactBranch,
};

fn failed(seq: u64, mote: u8, reason: FailureReason) -> FoldEntry {
    FoldEntry::Failed { mote_id: [mote; 32], seq, reason, reason_code: 0 }
}

#[test]
fn folds_only_terminal_failures() {
    let entries = vec![
        FoldEntry::RunRegistered { instance_id: [7; 16] },
        failed(2, 0x10, FailureReason::TimedOut),
        failed(3, 0x11, FailureReason::WorkerCrashed),
        failed(4, 0x12, FailureReason::DeadLettered),
        failed(5, 0x13, FailureReason::ValidatorRejected),
        failed(6, 0x14, FailureReason::UnsafeWorldMutatingConstruction),
    ];
    let plan = alerts_fold_plan(None, &entries, 6, 1000);
    let alerts: Vec<_> = plan
        .writes
        .iter()
        .filter_map(|w| match w {
            AlertsWrite::InsertAlert(a) => Some(a),
            _ => None,
        })
        .collect();
    assert_eq!(alerts.len(), 3, "only the 3 terminal failures alert");
    assert_eq!(alerts[2].reason_class, "unsafe_world_mutating_construction");
    assert_eq!(alerts[2].severity, "refused");
    assert_eq!(alerts[1].severity, "error");
    assert_eq!(alerts[0].reason_class, "dead_lettered");
    assert!(alerts.iter().all(|a| a.instance_id == vec![7u8; 16]));
    assert_eq!(plan.stamp, Some(vec![7u8; 16]));
    assert_eq!(plan.last_seq, 6);
}

#[test]
fn terminal_filter_matches_is_pre_commit_crash_for_every_variant() {
    let variants = [
        FailureReason::TimedOut,
        FailureReason::ExecutorRefused,
        FailureReason::ValidatorRejected,
        FailureReason::WorkerCrashed,
        FailureReason::UpstreamRepudiated,
        FailureReason::UnsafeWorldMutatingConstruction,
        FailureReason::CompensatedAtLeastOnce,
        FailureReason::QuarantinedAtLeastOnce,
        FailureReason::DeadLettered,
    ];
    for reason in variants {
        let plan = alerts_fold_plan(None, &[failed(2, 0x20, reason)], 2, 0);
        let crash = matches!(reason, FailureReason::TimedOut | FailureReason::WorkerCrashed);
        assert_eq!(plan.writes.len(), usize::from(!crash), "variant {reason:?}");
    }
}

#[test]
fn an_alert_before_registration_is_stamped_later() {
    let entries = vec![failed(1, 1, FailureReason::DeadLettered), FoldEntry::RunRegistered { instance_id: [9; 16] }];
    let plan = alerts_fold_plan(None, &entries, 2, 5);
    match &plan.writes[0] {
        AlertsWrite::InsertAlert(a) => assert!(a.instance_id.is_empty()),
        _ => panic!("expected an alert first"),
    }
    assert_eq!(plan.stamp, Some(vec![9u8; 16]));
}

#[test]
fn the_durable_instance_seeds_a_later_tick() {
    let plan = alerts_fold_plan(Some(vec![3u8; 16]), &[failed(8, 1, FailureReason::ExecutorRefused)], 8, 0);
    match &plan.writes[0] {
        AlertsWrite::InsertAlert(a) => {
            assert_eq!(a.instance_id, vec![3u8; 16]);
            assert_eq!(a.reason_class, "executor_refused");
        }
        _ => panic!("expected an alert"),
    }
}

#[test]
fn the_fold_window_is_the_unfolded_suffix() {
    assert_eq!(fold_window(10, 4), Some((5, 10)));
    assert_eq!(fold_window(4, 4), None);
    assert_eq!(fold_window(3, -1), Some((1, 3)));
    assert_eq!(fold_window(0, 0), None);
}

#[test]
fn alert_id_is_deterministic_across_refold() {
    let a = alert_id_preimage(&[0x42; 32], 0x0102);
    assert_eq!(a, alert_id_preimage(&[0x42; 32], 0x0102));
    assert_eq!(&a[..12], b"kx-alert-id\0");
    assert_eq!(&a[12..44], &[0x42u8; 32][..]);
    assert_eq!(&a[44..], &0x0102u64.to_le_bytes()[..]);
    assert_ne!(a, alert_id_preimage(&[0x42; 32], 0x0103));
}

#[test]
fn pagination_has_more_and_cursor() {
    assert_eq!(alerts_query_bounds(2, Some(10)), (9, 3));
    assert_eq!(alerts_query_bounds(2, None), (i64::MAX - 1, 3));
    let (page, more) = split_page(vec![1, 2, 3], 2);
    assert_eq!(page, vec![1, 2]);
    assert!(more);
    let (page, more) = split_page(vec![1, 2], 2);
    assert_eq!(page, vec![1, 2]);
    assert!(!more);
}

#[test]
fn react_turn_branch_is_joined_onto_the_action() {
    let entries = vec![
        FoldEntry::RunRegistered { instance_id: [5; 16] },
        FoldEntry::ReactRound { turn: 1, turn_mote_id: [0xaa; 32], branch: ReactBranch::Pending },
        FoldEntry::Committed { mote_id: [0xaa; 32], nd: NdClass::ReadOnlyNondet, result_ref: [0xbb; 32], seq: 3 },
        FoldEntry::ReactRound { turn: 1, turn_mote_id: [0xaa; 32], branch: ReactBranch::Answer },
        FoldEntry::Other,
    ];
    let plan = capture_fold_plan(None, &entries, 5);
    assert_eq!(plan.react.len(), 1, "the latest fact per turn wins");
    assert_eq!(plan.react[0].branch, "answer");
    match &plan.writes[1] {
        CaptureWrite::InsertRecord(r) => {
            assert_eq!(r.nd_class, "read_only_nondet");
            assert_eq!(r.instance_id, vec![5u8; 16]);
            assert_eq!(r.result_ref, [0xbb; 32]);
            assert_eq!(r.seq, 3);
        }
        _ => panic!("expected the action record"),
    }
    assert_eq!(plan.last_seq, 5);
}

#[test]
fn instance_is_stamped_across_separate_fold_ticks() {
    let first = capture_fold_plan(None, &[FoldEntry::RunRegistered { instance_id: [2; 16] }], 1);
    let seed = first.stamp.clone();
    let second = capture_fold_plan(
        seed,
        &[FoldEntry::Committed { mote_id: [1; 32], nd: NdClass::Pure, result_ref: [2; 32], seq: 2 }],
        2,
    );
    match &second.writes[0] {
        CaptureWrite::InsertRecord(r) => assert_eq!(r.instance_id, vec![2u8; 16]),
        _ => panic!("expected a record"),
    }
}

#[test]
fn the_wire_vocabularies_are_closed() {
    assert_eq!(reason_wire(FailureReason::QuarantinedAtLeastOnce), "quarantined_at_least_once");
    assert_eq!(severity_for(FailureReason::DeadLettered), "error");
    assert_eq!(severity_for(FailureReason::UnsafeWorldMutatingConstruction), "refused");
}

#[test]
fn a_seq_past_i64_saturates_in_the_store() {
    let plan = alerts_fold_plan(None, &[], u64::MAX, 0);
    assert_eq!(plan.last_seq, i64::MAX);
}

#[test]
fn a_folded_head_is_never_refolded() {
    let head = 10u64;
    let stored = kx_gateway::journal::db_int(head);
    assert_eq!(fold_window(head, stored), None, "the same head folds nothing again");
    assert_eq!(fold_window(15, stored), Some((11, 15)), "a later head folds exactly the new seqs");
}

fn alert_count(plan: &kx_gateway::journal::AlertsPlan) -> usize {
    plan.writes.iter().filter(|w| matches!(w, AlertsWrite::InsertAlert(_))).count()
}

#[test]
fn ignores_non_failed_kinds() {
    let entries = vec![FoldEntry::RunRegistered { instance_id: [3; 16] }];
    let plan = alerts_fold_plan(None, &entries, 1, 0);
    assert_eq!(alert_count(&plan), 0);
}

#[test]
fn empty_journal_is_empty() {
    assert_eq!(fold_window(0, 0), None, "an empty journal has nothing to fold");
    let plan = alerts_fold_plan(None, &[], 0, 0);
    assert_eq!(alert_count(&plan), 0);
    assert!(plan.writes.is_empty());
}

#[test]
fn alerts_fold_is_idempotent_and_watermarked() {
    let entries = vec![
        FoldEntry::RunRegistered { instance_id: [5; 16] },
        failed(2, 0x30, FailureReason::DeadLettered),
    ];
    // The first tick folds (0, 2].
    assert_eq!(fold_window(2, 0), Some((1, 2)));
    let plan = alerts_fold_plan(None, &entries, 2, 0);
    assert_eq!(alert_count(&plan), 1);
    // The re-fold starts past the stored watermark: nothing is read again.
    assert_eq!(fold_window(2, plan.last_seq), None, "re-fold past the watermark is a no-op");
}

#[test]
fn capture_fold_is_idempotent_and_watermarked() {
    let entries = vec![
        FoldEntry::RunRegistered { instance_id: [5; 16] },
        FoldEntry::Committed { mote_id: [0x10; 32], nd: NdClass::Pure, result_ref: [0x20; 32], seq: 2 },
        FoldEntry::Committed { mote_id: [0x11; 32], nd: NdClass::Pure, result_ref: [0x21; 32], seq: 3 },
    ];
    assert_eq!(fold_window(3, 0), Some((1, 3)));
    let plan = capture_fold_plan(None, &entries, 3);
    let records: Vec<_> = plan
        .writes
        .iter()
        .filter_map(|w| match w {
            CaptureWrite::InsertRecord(r) => Some(r),
            _ => None,
        })
        .collect();
    assert_eq!(records.len(), 2, "first fold captures both actions");
    assert!(records.iter().all(|r| r.instance_id == vec![5u8; 16]));
    assert!(records[1].seq > records[0].seq);
    assert_eq!(fold_window(3, plan.last_seq), None, "re-fold is a no-op (watermark)");
}
