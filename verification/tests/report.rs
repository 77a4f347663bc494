use diskern_core::report::{
    assemble, build, build_at, build_cancellable, build_with, build_with_progress, provisional_finding,
    total_reclaimable, CountedIdentities, ReportOptions, ReportStage, ScanPreview, StageLog,
    PREVIEW_BATCH,
};
use diskern_core::rules::{Rule, RulesDb};
use diskern_core::{Category, FileEntry, FileIdentity, Finding, Verdict};
use std::io::Write;
use std::path::{Path, PathBuf};
use std::sync::atomic::AtomicBool;

fn temp_rules() -> RulesDb {
    RulesDb::new(
        1,
        vec![
            Rule {
                id: "test-protected".into(),
                patterns: vec!["**/dk-sys/**".into()],
                category: Category::SystemCritical,
                verdict: Verdict::Protected,
                description: "test".into(),
            },
            Rule {
                id: "test-temp".into(),
                patterns: vec!["**/dk-scratch/**".into()],
                category: Category::TempFile,
                verdict: Verdict::Review,
                description: "test".into(),
            },
        ],
    )
}

fn node_modules_rules() -> RulesDb {
    RulesDb::new(
        1,
        vec![Rule {
            id: "test-node-modules".into(),
            patterns: vec!["**/node_modules/**".into()],
            category: Category::BuildArtifact,
            verdict: Verdict::Review,
            description: "test".into(),
        }],
    )
}

fn entry(path: &str, size: u64) -> FileEntry {
    FileEntry {
        path: path.to_string(),
        size,
        modified: None,
        accessed: None,
        is_symlink: false,
        identity: None,
        hash: None,
    }
}

/// A directory named exactly `name` under `parent`, kept until the
/// enclosing temporary directory goes.
fn dir(parent: &Path, name: &str) -> PathBuf {
    tempfile::Builder::new()
        .prefix(name)
        .rand_bytes(0)
        .keep(true)
        .tempdir_in(parent)
        .unwrap()
        .path()
        .to_path_buf()
}

/// A file named exactly `name` in `parent` holding `bytes`, as the walk
/// would report it.
fn file(parent: &Path, name: &str, bytes: &[u8]) -> FileEntry {
    let mut f = tempfile::Builder::new()
        .prefix(name)
        .rand_bytes(0)
        .keep(true)
        .tempfile_in(parent)
        .unwrap();
    f.as_file_mut().write_all(bytes).unwrap();
    f.as_file_mut().flush().unwrap();
    entry(&f.path().to_string_lossy(), bytes.len() as u64)
}

#[test]
fn build_reports_coarse_progress_stages() {
    let cancelled = AtomicBool::new(false);
    let entries = vec![entry("/tmp/dk-scratch/cache.bin", 4)];
    let mut stages = StageLog::new(Vec::new());

    let report = build_with_progress(
        entries,
        &temp_rules(),
        &ReportOptions::default(),
        &cancelled,
        &mut stages,
    )
    .unwrap();

    assert_eq!(report.files_scanned, 1);
    assert_eq!(
        stages.sink,
        vec![
            ReportStage::BuildingImpactGraph,
            ReportStage::ClassifyingEntries,
            ReportStage::FindingDuplicates,
            ReportStage::PreparingFindings,
        ]
    );
}

#[test]
fn provisional_findings_use_rule_evidence_without_final_graph_context() {
    let mut counted = CountedIdentities::new();
    let entry = entry("/tmp/dk-scratch/cache.bin", 4);

    let finding = provisional_finding(&entry, &temp_rules(), &mut counted, 0).unwrap();

    assert_eq!(finding.category, Category::TempFile);
    assert_eq!(finding.verdict, Verdict::Review);
    assert_eq!(finding.reclaimable, 4);
    assert!(finding
        .reasons
        .iter()
        .any(|reason| reason.contains("preview while scanning")));
    assert_eq!(finding.reasons[0], "matched rule test-temp: test");
}

#[test]
fn provisional_findings_skip_unknown_files() {
    let mut counted = CountedIdentities::new();
    let entry = entry("/home/me/photo.jpg", 4);

    assert!(provisional_finding(&entry, &temp_rules(), &mut counted, 0).is_none());
}

#[test]
fn provisional_findings_claim_a_hard_linked_file_once() {
    let mut counted = CountedIdentities::new();
    let id = Some(FileIdentity { device: 7, file: 42 });
    let mut a = entry("/tmp/dk-scratch/a.iso", 4);
    a.identity = id;
    let mut b = entry("/tmp/dk-scratch/b.iso", 4);
    b.identity = id;
    let fa = provisional_finding(&a, &temp_rules(), &mut counted, 0).unwrap();
    let fb = provisional_finding(&b, &temp_rules(), &mut counted, 0).unwrap();
    assert_eq!(fa.reclaimable, 4);
    assert_eq!(fb.reclaimable, 0);
}

#[test]
fn the_dedup_minimum_does_not_hide_files_from_the_report() {
    let root = tempfile::tempdir().unwrap();
    let tmp = dir(root.path(), "dk-scratch");
    let entries = vec![
        file(&tmp, "empty.log", b""),
        file(&tmp, "small-a", b"tiny"),
        file(&tmp, "small-b", b"tiny"),
    ];

    let rules = temp_rules();
    let never = AtomicBool::new(false);

    // Every file is scanned and classified, whatever the dedup floor.
    let big_floor = ReportOptions {
        dedup_min_size: 1_000_000,
    };
    let report = build_with(entries.clone(), &rules, &big_floor, &never).unwrap();
    assert_eq!(report.files_scanned, 3);
    assert_eq!(report.findings.len(), 3);
    // ...but nothing is small enough to be staged for dedup.
    assert!(report.duplicate_sets.is_empty());

    // With the default floor the two identical files do pair up.
    let report = build_with(entries, &rules, &ReportOptions::default(), &never).unwrap();
    assert_eq!(report.files_scanned, 3);
    assert_eq!(report.duplicate_sets.len(), 1);
}

#[test]
fn duplicated_findings_are_not_counted_twice() {
    let root = tempfile::tempdir().unwrap();
    let tmp = dir(root.path(), "dk-scratch");
    let entries = vec![file(&tmp, "a.iso", b"same"), file(&tmp, "b.iso", b"same")];

    let never = AtomicBool::new(false);
    let report = build_with(entries, &temp_rules(), &ReportOptions::default(), &never).unwrap();

    assert_eq!(report.findings.len(), 2);
    assert_eq!(report.duplicate_sets.len(), 1);
    assert_eq!(report.duplicate_sets[0].wasted, 4);
    // Both copies are already offered as findings, so the duplicate
    // set adds nothing on top of them.
    assert_eq!(report.total_reclaimable, 8);
}

#[test]
fn hard_linked_findings_count_their_bytes_once() {
    let root = tempfile::tempdir().unwrap();
    let tmp = dir(root.path(), "dk-scratch");
    let id = Some(FileIdentity { device: 1, file: 99 });
    let mut a = file(&tmp, "a.iso", b"same");
    a.identity = id;
    let mut b = file(&tmp, "b.iso", b"same");
    b.identity = id;

    let never = AtomicBool::new(false);
    let report = build_with(vec![a, b], &temp_rules(), &ReportOptions::default(), &never).unwrap();

    assert_eq!(report.findings.len(), 2);
    assert!(report.duplicate_sets.is_empty());
    assert_eq!(report.total_reclaimable, 4);
}

#[test]
fn hard_linked_findings_shared_with_a_real_copy_count_once() {
    let root = tempfile::tempdir().unwrap();
    let tmp = dir(root.path(), "dk-scratch");
    let id = Some(FileIdentity { device: 1, file: 99 });
    let mut a = file(&tmp, "a.iso", b"same");
    a.identity = id;
    let mut b = file(&tmp, "b.iso", b"same");
    b.identity = id;
    let c = file(&tmp, "c.iso", b"same");

    let never = AtomicBool::new(false);
    let report =
        build_with(vec![a, b, c], &temp_rules(), &ReportOptions::default(), &never).unwrap();

    assert_eq!(report.findings.len(), 3);
    assert_eq!(report.duplicate_sets.len(), 1);
    assert_eq!(report.duplicate_sets[0].wasted, 4);
    assert_eq!(report.total_reclaimable, 8);
}

#[test]
fn duplicates_outside_the_findings_still_count() {
    let root = tempfile::tempdir().unwrap();
    let docs = dir(root.path(), "docs");
    let entries = vec![file(&docs, "a.txt", b"same"), file(&docs, "b.txt", b"same")];

    let never = AtomicBool::new(false);
    let report = build_with(entries, &temp_rules(), &ReportOptions::default(), &never).unwrap();

    assert!(report.findings.is_empty()); // unknown category, dropped
    assert_eq!(report.duplicate_sets.len(), 1);
    assert_eq!(report.total_reclaimable, 4); // one redundant copy
}

#[test]
fn a_duplicate_shared_with_a_finding_counts_once() {
    let root = tempfile::tempdir().unwrap();
    let tmp = dir(root.path(), "dk-scratch");
    let docs = dir(root.path(), "docs");
    let entries = vec![file(&tmp, "a.iso", b"same"), file(&docs, "keep.iso", b"same")];

    let never = AtomicBool::new(false);
    let report = build_with(entries, &temp_rules(), &ReportOptions::default(), &never).unwrap();

    assert_eq!(report.findings.len(), 1);
    assert_eq!(report.duplicate_sets.len(), 1);
    assert_eq!(report.total_reclaimable, 4);
}

#[test]
fn protected_files_form_no_duplicate_sets() {
    let root = tempfile::tempdir().unwrap();
    let sys = dir(root.path(), "dk-sys");
    let entries = vec![file(&sys, "a.dll", b"same"), file(&sys, "b.dll", b"same")];

    let never = AtomicBool::new(false);
    let report = build_with(entries, &temp_rules(), &ReportOptions::default(), &never).unwrap();

    assert_eq!(report.findings.len(), 2);
    assert!(report
        .findings
        .iter()
        .all(|f| f.verdict == Verdict::Protected));
    assert!(report.duplicate_sets.is_empty());
    assert_eq!(report.total_reclaimable, 0);
}

#[test]
fn a_referenced_store_is_more_cautious_than_an_abandoned_one() {
    let entries = vec![
        entry("/t/live/package.json", 2),
        entry("/t/live/node_modules/react/index.js", 4),
        entry("/t/dead/node_modules/react/index.js", 4),
    ];

    let never = AtomicBool::new(false);
    let report = build_with(
        entries,
        &node_modules_rules(),
        &ReportOptions::default(),
        &never,
    )
    .unwrap();

    let find = |path: &str| -> Finding {
        report
            .findings
            .iter()
            .find(|f| f.entry.path == path)
            .unwrap_or_else(|| panic!("no finding for {path}"))
            .clone()
    };

    let referenced = find("/t/live/node_modules/react/index.js");
    assert_eq!(referenced.verdict, Verdict::Risky);
    assert!(referenced
        .reasons
        .iter()
        .any(|r| r == "referenced by 1 project"));
    // Nothing offers to move a risky file, so its bytes are not on
    // offer either.
    assert_eq!(referenced.reclaimable, 0);

    let abandoned = find("/t/dead/node_modules/react/index.js");
    assert_eq!(abandoned.verdict, Verdict::Review);
    assert!(!abandoned
        .reasons
        .iter()
        .any(|r| r.starts_with("referenced by")));
    assert_eq!(abandoned.reclaimable, 4);
}

#[test]
fn a_cancel_during_the_graph_stage_stops_the_report() {
    let cancelled = AtomicBool::new(true);
    assert!(build_with(
        vec![entry("/t/a.txt", 1)],
        &temp_rules(),
        &ReportOptions::default(),
        &cancelled,
    )
    .is_none());
    assert!(build_cancellable(vec![entry("/t/a.txt", 1)], &temp_rules(), &cancelled).is_none());
}

#[test]
fn risky_duplicates_do_not_return_to_the_headline() {
    let root = tempfile::tempdir().unwrap();
    let mut entries = Vec::new();
    for project in ["live1", "live2"] {
        let p = dir(root.path(), project);
        let nm = dir(&p, "node_modules");
        let react = dir(&nm, "react");
        entries.push(file(&p, "package.json", b"{}"));
        entries.push(file(&react, "index.js", b"identical"));
    }

    let never = AtomicBool::new(false);
    let report = build_with(
        entries,
        &node_modules_rules(),
        &ReportOptions::default(),
        &never,
    )
    .unwrap();

    let risky: Vec<&Finding> = report
        .findings
        .iter()
        .filter(|f| f.verdict == Verdict::Risky)
        .collect();
    assert_eq!(risky.len(), 2, "both node_modules copies are referenced");
    assert!(risky.iter().all(|f| f.reclaimable == 0));

    // Nothing the app refuses to act on may reach a duplicate set...
    for set in &report.duplicate_sets {
        for path in &set.paths {
            assert!(
                !path.contains("node_modules"),
                "{path} is risky and should not be offered as a duplicate"
            );
        }
    }
    // ...so the headline is the one duplicate pair the user really can
    // act on: the two identical `package.json` files.
    assert_eq!(report.duplicate_sets.len(), 1);
    assert_eq!(report.total_reclaimable, 2);
}

#[test]
fn findings_come_biggest_first_with_ties_in_entry_order() {
    let entries = vec![
        entry("/tmp/dk-scratch/small", 1),
        entry("/tmp/dk-scratch/big", 9),
        entry("/tmp/dk-scratch/tie-a", 5),
        entry("/tmp/dk-scratch/tie-b", 5),
        entry("/home/u/unknown", 100),
    ];
    let report = build(entries, &temp_rules());
    let order: Vec<&str> = report.findings.iter().map(|f| f.entry.path.as_str()).collect();
    assert_eq!(
        order,
        vec![
            "/tmp/dk-scratch/big",
            "/tmp/dk-scratch/tie-a",
            "/tmp/dk-scratch/tie-b",
            "/tmp/dk-scratch/small"
        ]
    );
    assert_eq!(report.files_scanned, 5);
    assert_eq!(report.total_reclaimable, 20);
    assert_eq!(report.findings[0].reasons[0], "matched rule test-temp: test");
}

fn offered(path: &str, reclaimable: u64) -> Finding {
    Finding {
        entry: entry(path, reclaimable),
        category: Category::TempFile,
        verdict: Verdict::Review,
        risk_score: 50,
        reasons: vec![],
        reclaimable,
    }
}

fn set(size: u64, paths: &[&str]) -> diskern_core::dedup::DuplicateSet {
    diskern_core::dedup::DuplicateSet {
        hash: "h".to_string(),
        size,
        paths: paths.iter().map(|p| p.to_string()).collect(),
        wasted: size * (paths.len() as u64 - 1),
    }
}

#[test]
fn the_headline_counts_each_copy_once() {
    let findings = vec![offered("/a", 4), offered("/nothing-claimed", 0)];
    let sets = vec![set(4, &["/a", "/x"]), set(3, &["/y", "/z", "/w"])];
    // "/a" is claimed by its finding, so the first set adds nothing; the
    // second adds its two redundant copies.
    assert_eq!(total_reclaimable(&findings, &sets), 4 + 6);
    // A zero-claim finding does not count its path as claimed.
    let sets = vec![set(5, &["/nothing-claimed", "/other"])];
    assert_eq!(total_reclaimable(&findings, &sets), 4 + 5);
}

#[test]
fn the_headline_stops_at_the_largest_number_it_can_hold() {
    let findings = vec![offered("/a", u64::MAX), offered("/b", 1)];
    assert_eq!(total_reclaimable(&findings, &vec![]), u64::MAX);
}

#[test]
fn access_ages_are_measured_against_the_given_time() {
    let day = 86_400;
    let now = 1_000 * day;
    let mut old = entry("/tmp/dk-scratch/old.bin", 3);
    old.accessed = Some(now - 200 * day);
    let mut fresh = entry("/tmp/dk-scratch/fresh.bin", 2);
    fresh.accessed = Some(now - day);
    let never = AtomicBool::new(false);
    let mut stages = StageLog::new(Vec::new());
    let report = build_at(
        vec![old, fresh],
        &temp_rules(),
        &ReportOptions::default(),
        &never,
        &mut stages,
        now,
    )
    .unwrap();
    assert_eq!(stages.sink.len(), 4);
    let old = &report.findings[0];
    assert_eq!(old.entry.path, "/tmp/dk-scratch/old.bin");
    assert_eq!(old.risk_score, 55);
    assert_eq!(
        old.reasons,
        vec![
            "matched rule test-temp: test".to_string(),
            "not accessed in 200 days".to_string()
        ]
    );
    let fresh = &report.findings[1];
    assert_eq!(fresh.risk_score, 30);
    assert_eq!(
        fresh.reasons[1],
        "accessed 1 day(s) ago — recently in use"
    );
}

#[test]
fn the_preview_skips_unknown_files_and_sends_in_batches() {
    let rules = temp_rules();
    let mut preview = ScanPreview::new();
    assert!(!preview.offer(&entry("/home/me/photo.jpg", 9), &rules, 0));
    assert!(preview.findings.is_empty());
    assert_eq!(preview.total_reclaimable, 0);

    let mut due_at = Vec::new();
    for i in 0..(2 * PREVIEW_BATCH) {
        let path = format!("/tmp/dk-scratch/{i}.tmp");
        if preview.offer(&entry(&path, 3), &rules, 0) {
            due_at.push(preview.findings.len());
        }
    }
    assert_eq!(due_at, vec![PREVIEW_BATCH, 2 * PREVIEW_BATCH]);
    assert_eq!(preview.findings.len(), 2 * PREVIEW_BATCH);
    assert_eq!(preview.total_reclaimable, 3 * 2 * PREVIEW_BATCH as u64);
}

#[test]
fn the_preview_counts_a_hard_linked_file_once_and_protected_bytes_never() {
    let rules = temp_rules();
    let mut preview = ScanPreview::new();
    let id = Some(FileIdentity { device: 7, file: 42 });
    let mut a = entry("/tmp/dk-scratch/a.iso", 4);
    a.identity = id;
    let mut b = entry("/tmp/dk-scratch/b.iso", 4);
    b.identity = id;
    preview.offer(&a, &rules, 0);
    preview.offer(&b, &rules, 0);
    preview.offer(&entry("/x/dk-sys/kernel", 100), &rules, 0);
    assert_eq!(preview.findings.len(), 3);
    assert_eq!(preview.findings[2].verdict, Verdict::Protected);
    assert_eq!(preview.total_reclaimable, 4);
}

#[test]
fn a_report_at_a_given_time_with_no_flag_always_completes() {
    let day = 86_400;
    let now = 1_700_000_000;
    let mut e = entry("/tmp/dk-scratch/old.bin", 4);
    e.accessed = Some(now - 400 * day);
    let mut stages = StageLog::new(Vec::new());
    let report = assemble(
        vec![e],
        &temp_rules(),
        &ReportOptions::default(),
        None,
        &mut stages,
        now,
    )
    .unwrap();
    assert_eq!(report.files_scanned, 1);
    assert_eq!(stages.sink.len(), 4);
    assert_eq!(report.findings[0].reclaimable, 4);
}
