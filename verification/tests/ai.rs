use diskern_core::ai::{AiProvider, TemplateNarrator};
use diskern_core::{Category, FileEntry, Finding, Verdict};

fn sample_finding(path: &str, reclaimable: u64, reason: &str) -> Finding {
    Finding {
        entry: FileEntry {
            path: path.to_string(),
            size: reclaimable,
            modified: None,
            accessed: None,
            is_symlink: false,
            identity: None,
            hash: None,
        },
        category: Category::BrowserCache,
        verdict: Verdict::Safe,
        risk_score: 10,
        reasons: vec![reason.to_string()],
        reclaimable,
    }
}

#[test]
fn template_narrator_narrates_facts_and_formats_bytes() {
    let findings = vec![
        sample_finding("/cache/a", 50_000_000, "chrome cache expired"),
        sample_finding("/cache/b", 30_000_000, "firefox cache expired"),
        sample_finding("/cache/c", 20_000_000, "safari cache expired"),
        sample_finding("/cache/d", 10_000_000, "edge cache expired"),
    ];

    let narrator = TemplateNarrator;
    let narrative = narrator.narrate(&findings).unwrap();

    assert_eq!(
        narrative,
        "Found 4 items totalling 110.0 MB reclaimable. Top reasons: chrome cache expired; firefox cache expired; safari cache expired"
    );
}

#[test]
fn template_narrator_empty_findings() {
    let narrator = TemplateNarrator;
    let narrative = narrator.narrate(&[]).unwrap();
    assert_eq!(
        narrative,
        "Found 0 items totalling 0 B reclaimable. Top reasons: "
    );
}

#[test]
fn findings_without_reasons_are_skipped_in_the_summary() {
    let mut quiet = sample_finding("/cache/q", 1, "unused");
    quiet.reasons.clear();
    let findings = vec![quiet, sample_finding("/cache/b", 999, "kept")];
    let narrative = TemplateNarrator.narrate(&findings).unwrap();
    assert_eq!(
        narrative,
        "Found 2 items totalling 1.0 KB reclaimable. Top reasons: kept"
    );
}
