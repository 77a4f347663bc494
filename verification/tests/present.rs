use diskern_core::present::{by_category, category_label, human_bytes, listing, verdict_label};
use diskern_core::{Category, FileEntry, Finding, Verdict};

#[test]
fn scales_to_a_readable_unit() {
    assert_eq!(human_bytes(0), "0 B");
    assert_eq!(human_bytes(999), "999 B");
    assert_eq!(human_bytes(1_000), "1.0 KB");
    assert_eq!(human_bytes(1_500_000), "1.5 MB");
    assert_eq!(human_bytes(2_300_000_000), "2.3 GB");
}

#[test]
fn rolls_over_instead_of_printing_a_four_digit_mantissa() {
    assert_eq!(human_bytes(999_949), "999.9 KB");
    assert_eq!(human_bytes(999_999), "1.0 MB");
    assert_eq!(human_bytes(999_999_999), "1.0 GB");
}

#[test]
fn stops_at_the_largest_unit_it_knows() {
    assert_eq!(human_bytes(u64::MAX), "18446744.1 TB");
}

#[test]
fn the_unit_changes_exactly_at_the_rounding_boundary() {
    assert_eq!(human_bytes(999_949_999), "999.9 MB");
    assert_eq!(human_bytes(999_950_000), "1.0 GB");
    assert_eq!(human_bytes(1_000_000_000_000), "1.0 TB");
    assert_eq!(human_bytes(1_234_567_890_123_456), "1234.6 TB");
}

#[test]
fn labels_match_the_desktop_app() {
    assert_eq!(verdict_label(Verdict::Safe), "Safe to remove");
    assert_eq!(verdict_label(Verdict::Protected), "Protected — do not touch");
    assert_eq!(category_label(Category::BuildArtifact), "Build artifacts");
    assert_eq!(category_label(Category::Unknown), "Unrecognized");
}

fn finding(path: &str, category: Category, verdict: Verdict, reclaimable: u64) -> Finding {
    Finding {
        entry: FileEntry {
            path: path.to_string(),
            size: reclaimable,
            modified: None,
            accessed: None,
            is_symlink: false,
            identity: None,
            hash: None,
        },
        category,
        verdict,
        risk_score: 50,
        reasons: vec![],
        reclaimable,
    }
}

#[test]
fn categories_are_ordered_by_their_total_and_keep_finding_order() {
    let fs = vec![
        finding("/a", Category::Log, Verdict::Safe, 10),
        finding("/b", Category::TempFile, Verdict::Safe, 8),
        finding("/c", Category::TempFile, Verdict::Safe, 7),
        finding("/d", Category::Log, Verdict::Safe, 1),
    ];
    let groups = by_category(&fs, &vec![0, 1, 2, 3]);
    assert_eq!(groups.len(), 2);
    assert_eq!(groups[0].0, Category::TempFile);
    assert_eq!(groups[0].1, vec![1, 2]);
    assert_eq!(groups[1].0, Category::Log);
    assert_eq!(groups[1].1, vec![0, 3]);
}

#[test]
fn equal_totals_keep_the_order_categories_first_appear_in() {
    let fs = vec![
        finding("/a", Category::Log, Verdict::Safe, 5),
        finding("/b", Category::TempFile, Verdict::Safe, 5),
    ];
    let groups = by_category(&fs, &vec![0, 1]);
    assert_eq!(groups[0].0, Category::Log);
    assert_eq!(groups[1].0, Category::TempFile);
}

#[test]
fn the_listing_goes_safest_first_and_caps_each_group() {
    let fs = vec![
        finding("/r", Category::BuildArtifact, Verdict::Risky, 0),
        finding("/a", Category::Log, Verdict::Safe, 3),
        finding("/b", Category::Log, Verdict::Safe, 2),
        finding("/c", Category::Log, Verdict::Safe, 1),
    ];
    let sections = listing(&fs, None, 2);
    assert_eq!(sections.len(), 2);
    assert_eq!(sections[0].verdict, Verdict::Safe);
    assert_eq!(sections[0].count, 3);
    assert_eq!(sections[0].total, 6);
    assert_eq!(sections[0].groups.len(), 1);
    assert_eq!(sections[0].groups[0].findings, vec![1, 2, 3]);
    assert_eq!(sections[0].groups[0].shown, 2);
    assert_eq!(sections[1].verdict, Verdict::Risky);

    let only_risky = listing(&fs, Some(Verdict::Risky), 0);
    assert_eq!(only_risky.len(), 1);
    assert_eq!(only_risky[0].groups[0].shown, 1);
    assert!(listing(&fs, Some(Verdict::Protected), 5).is_empty());
}

#[test]
fn an_exact_half_tenth_goes_to_the_even_digit() {
    assert_eq!(human_bytes(1_250), "1.2 KB");
    assert_eq!(human_bytes(1_750), "1.8 KB");
    assert_eq!(human_bytes(2_250_000), "2.2 MB");
    assert_eq!(human_bytes(1_260), "1.3 KB");
}
