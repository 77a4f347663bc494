use diskern_core::actions::{DryRun, FsLog};
use diskern_core::authority::{
    phase_for_report_stage, quarantine_from_authoritative, PublishOutcome, ScanAuthority, ScanPhase,
};
use diskern_core::report::{Report, ReportStage};
use diskern_core::rules::RulesDb;
use diskern_core::scanner::ScanProgress;
use std::sync::atomic::Ordering;
use std::sync::Arc;

fn empty_report() -> Report {
    Report {
        findings: vec![],
        duplicate_sets: vec![],
        total_reclaimable: 0,
        files_scanned: 0,
    }
}

#[test]
fn report_stages_map_to_user_visible_scan_phases() {
    assert_eq!(
        phase_for_report_stage(ReportStage::BuildingImpactGraph).label(),
        "Building project impact graph"
    );
    assert_eq!(
        phase_for_report_stage(ReportStage::ClassifyingEntries).label(),
        "Classifying files"
    );
    assert_eq!(
        phase_for_report_stage(ReportStage::FindingDuplicates).label(),
        "Checking duplicate candidates"
    );
    assert_eq!(
        phase_for_report_stage(ReportStage::PreparingFindings).label(),
        "Preparing findings"
    );
}

#[test]
fn the_walk_has_its_own_label() {
    assert_eq!(ScanPhase::WalkingFiles.label(), "Walking files");
}

#[test]
fn no_completed_report_fails_closed() {
    let authority = ScanAuthority::default();
    let mut fs = FsLog::new(DryRun::new(0));
    let error = quarantine_from_authoritative(
        &authority,
        "/not-in-a-report",
        &RulesDb::new(1, vec![]),
        "/not-created",
        &mut fs,
    )
    .unwrap_err();
    assert!(error.contains("no current completed scan report"));
}

#[test]
fn only_the_current_generation_can_publish() {
    let mut authority = ScanAuthority::default();
    let first_progress = Arc::new(ScanProgress::new());
    let first = authority.begin(first_progress.clone());
    let second_progress = Arc::new(ScanProgress::new());
    let second = authority.begin(second_progress);

    assert!(first_progress.cancelled.load(Ordering::Acquire));
    assert_eq!(
        authority.publish(first, empty_report()),
        PublishOutcome::Superseded
    );
    assert_eq!(
        authority.publish(second, empty_report()),
        PublishOutcome::Published
    );
    assert!(authority.lease().is_some());
}

#[test]
fn cancellation_completion_race_returns_the_cancellation_outcome() {
    let mut authority = ScanAuthority::default();
    let progress = Arc::new(ScanProgress::new());
    let generation = authority.begin(progress.clone());

    // The walk may finish and return a report after cancel() has revoked
    // the active slot but before it observes the cancellation flag.
    assert!(authority.cancel());
    assert_eq!(
        authority.publish(generation, empty_report()),
        PublishOutcome::Cancelled
    );
    assert!(progress.cancelled.load(Ordering::Acquire));
    assert!(authority.lease().is_none());
}

#[test]
fn a_new_generation_makes_an_old_completion_a_supersede() {
    let mut authority = ScanAuthority::default();
    let first = authority.begin(Arc::new(ScanProgress::new()));
    assert!(authority.cancel());
    let second = authority.begin(Arc::new(ScanProgress::new()));

    // The cancellation marker is generation-scoped. Once a new scan
    // begins, a late completion from the old one is a real supersede.
    assert_eq!(
        authority.publish(first, empty_report()),
        PublishOutcome::Superseded
    );
    assert_eq!(
        authority.publish(second, empty_report()),
        PublishOutcome::Published
    );
}

#[test]
fn cancellation_invalidates_the_report_authority() {
    let mut authority = ScanAuthority::default();
    let progress = Arc::new(ScanProgress::new());
    authority.begin(progress.clone());
    assert!(authority.cancel());
    assert!(progress.cancelled.load(Ordering::Acquire));
    assert!(authority.lease().is_none());
    assert!(!authority.cancel());
}

#[test]
fn a_lease_is_current_until_the_next_scan_begins() {
    let mut authority = ScanAuthority::default();
    let generation = authority.begin(Arc::new(ScanProgress::new()));
    assert_eq!(
        authority.publish(generation, empty_report()),
        PublishOutcome::Published
    );
    let lease = authority.lease().unwrap();
    assert_eq!(lease.generation, generation);
    assert!(lease.is_current());

    authority.begin(Arc::new(ScanProgress::new()));
    assert!(!lease.is_current());
    assert!(authority.lease().is_none());
}

#[test]
fn an_abandoned_scan_frees_the_slot_and_publishes_nothing() {
    let mut authority = ScanAuthority::default();
    let generation = authority.begin(Arc::new(ScanProgress::new()));
    authority.abandon(generation);
    assert!(authority.lease().is_none());
    assert!(!authority.cancel());
    assert_eq!(
        authority.publish(generation, empty_report()),
        PublishOutcome::Superseded
    );
}

#[test]
fn finishing_an_old_generation_leaves_the_new_one_running() {
    let mut authority = ScanAuthority::default();
    let first = authority.begin(Arc::new(ScanProgress::new()));
    let second = authority.begin(Arc::new(ScanProgress::new()));
    authority.finish_active(first);
    // The newer scan still owns the slot, so it can still be cancelled.
    assert!(authority.cancel());
    assert_eq!(
        authority.publish(second, empty_report()),
        PublishOutcome::Cancelled
    );
}

#[test]
fn a_concluded_scan_hands_back_its_published_report() {
    let mut authority = ScanAuthority::default();
    let generation = authority.begin(Arc::new(ScanProgress::new()));
    let mut report = empty_report();
    report.files_scanned = 12;
    let answer = authority.conclude(generation, Ok(Some(report))).unwrap();
    assert_eq!(answer.unwrap().files_scanned, 12);
    assert_eq!(authority.lease().unwrap().generation, generation);
}

#[test]
fn a_report_cancelled_on_its_way_is_answered_with_nothing() {
    let mut authority = ScanAuthority::default();
    let generation = authority.begin(Arc::new(ScanProgress::new()));
    assert!(authority.cancel());
    assert!(authority
        .conclude(generation, Ok(Some(empty_report())))
        .unwrap()
        .is_none());
    assert!(authority.lease().is_none());
}

#[test]
fn a_superseded_report_is_refused() {
    let mut authority = ScanAuthority::default();
    let first = authority.begin(Arc::new(ScanProgress::new()));
    let _second = authority.begin(Arc::new(ScanProgress::new()));
    let error = authority
        .conclude(first, Ok(Some(empty_report())))
        .unwrap_err();
    assert_eq!(error, "scan was superseded by a newer scan");
    assert!(authority.lease().is_none());
}

#[test]
fn a_failed_or_cancelled_scan_gives_up_its_generation() {
    let mut authority = ScanAuthority::default();
    let generation = authority.begin(Arc::new(ScanProgress::new()));
    let error = authority
        .conclude(generation, Err("disk went away".to_string()))
        .unwrap_err();
    assert_eq!(error, "disk went away");
    assert!(authority.lease().is_none());

    let generation = authority.begin(Arc::new(ScanProgress::new()));
    assert!(authority.conclude(generation, Ok(None)).unwrap().is_none());
    // Nothing runs any more, and nothing was published.
    assert!(authority.lease().is_none());
    let next = authority.begin(Arc::new(ScanProgress::new()));
    assert_eq!(
        authority.publish(next, empty_report()),
        PublishOutcome::Published
    );
}

#[test]
fn a_lease_carries_the_report_that_was_published() {
    let mut authority = ScanAuthority::default();
    let generation = authority.begin(Arc::new(ScanProgress::new()));
    let mut report = empty_report();
    report.files_scanned = 7;
    report.total_reclaimable = 99;
    assert_eq!(authority.publish(generation, report), PublishOutcome::Published);
    let lease = authority.lease().unwrap();
    assert_eq!(lease.generation, generation);
    assert_eq!(lease.report.files_scanned, 7);
    assert_eq!(lease.report.total_reclaimable, 99);
}
