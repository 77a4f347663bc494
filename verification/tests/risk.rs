use diskern_core::risk::{assess, downgrade};
use diskern_core::{FileEntry, Verdict};

fn accessed(at: Option<i64>) -> FileEntry {
    FileEntry {
        path: "/x".to_string(),
        size: 1,
        modified: None,
        accessed: at,
        is_symlink: false,
        identity: None,
        hash: None,
    }
}

#[test]
fn evidence_only_makes_verdicts_more_cautious() {
    assert_eq!(downgrade(Verdict::Safe, 0), Verdict::Safe);
    assert_eq!(downgrade(Verdict::Safe, 3), Verdict::Review);
    assert_eq!(downgrade(Verdict::Review, 1), Verdict::Risky);
    assert_eq!(downgrade(Verdict::Risky, 17), Verdict::Risky);
    assert_eq!(downgrade(Verdict::Protected, 2), Verdict::Protected);
}

#[test]
fn long_untouched_files_score_higher() {
    let now = 1_000 * 86_400;
    let a = assess(&accessed(Some(now - 200 * 86_400)), Verdict::Review, now);
    assert_eq!(a.score, 55);
    assert_eq!(a.reasons, vec!["not accessed in 200 days".to_string()]);
    let safe = assess(&accessed(Some(0)), Verdict::Safe, now);
    assert_eq!(safe.score, 95);
}

#[test]
fn recently_used_files_score_lower() {
    let now = 10 * 86_400;
    let a = assess(&accessed(Some(now - 86_400)), Verdict::Review, now);
    assert_eq!(a.score, 30);
    assert_eq!(
        a.reasons,
        vec!["accessed 1 day(s) ago — recently in use".to_string()]
    );
    let p = assess(&accessed(Some(now)), Verdict::Protected, now);
    assert_eq!(p.score, 0);
}

#[test]
fn no_access_time_means_no_evidence() {
    let a = assess(&accessed(None), Verdict::Risky, 0);
    assert_eq!(a.score, 20);
    assert!(a.reasons.is_empty());
    let mid = assess(&accessed(Some(0)), Verdict::Review, 30 * 86_400);
    assert_eq!(mid.score, 50);
    assert!(mid.reasons.is_empty());
}
