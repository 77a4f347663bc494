use diskern_core::rules::{normalize, Rule, RulesDb};
use diskern_core::{Category, Verdict};

fn rule(id: &str, patterns: &[&str], category: Category, verdict: Verdict) -> Rule {
    Rule {
        id: id.to_string(),
        patterns: patterns.iter().map(|p| p.to_string()).collect(),
        category,
        verdict,
        description: format!("{id} description"),
    }
}

fn db() -> RulesDb {
    RulesDb::new(
        3,
        vec![
            rule("drivers", &["**/driverstore/**"], Category::SystemCritical, Verdict::Protected),
            rule("tmp", &["/tmp/**"], Category::TempFile, Verdict::Safe),
            rule("installers", &["**/*.msi", "**/*.dmg"], Category::Installer, Verdict::Review),
            rule("logs", &["**/*.log"], Category::Log, Verdict::Safe),
        ],
    )
}

#[test]
fn unknown_paths_default_to_review_not_safe() {
    let db = db();
    let (category, verdict, rule) = db.classify("/home/u/Documents/tax.pdf");
    assert_eq!(category, Category::Unknown);
    assert_eq!(verdict, Verdict::Review);
    assert!(rule.is_none());
}

#[test]
fn anchored_rules_do_not_reach_outside_the_paths_they_name() {
    let db = db();
    let (category, _, _) = db.classify("/home/u/tmp/tax-return.pdf");
    assert_eq!(category, Category::Unknown);
    let (category, verdict, rule) = db.classify("/tmp/scratch.bin");
    assert_eq!(category, Category::TempFile);
    assert_eq!(verdict, Verdict::Safe);
    assert_eq!(rule.unwrap().id, "tmp");
}

#[test]
fn the_first_matching_rule_wins() {
    let db = db();
    let (category, verdict, rule) =
        db.classify("C:\\Windows\\System32\\DriverStore\\FileRepository\\setup.msi");
    assert_eq!(category, Category::SystemCritical);
    assert_eq!(verdict, Verdict::Protected);
    assert_eq!(rule.unwrap().id, "drivers");
    let (category, _, _) = db.classify("/home/u/Downloads/setup.msi");
    assert_eq!(category, Category::Installer);
}

#[test]
fn paths_are_normalized_before_matching() {
    assert_eq!(normalize("C:\\Users\\ME\\App.LOG"), "c:/users/me/app.log");
    let (category, _, _) = db().classify("C:\\Users\\ME\\App.LOG");
    assert_eq!(category, Category::Log);
}

#[test]
fn a_star_stays_within_one_component() {
    let db = RulesDb::new(
        1,
        vec![rule("top-logs", &["/var/*.log"], Category::Log, Verdict::Safe)],
    );
    assert_eq!(db.classify("/var/a.log").0, Category::Log);
    assert_eq!(db.classify("/var/nested/a.log").0, Category::Unknown);
}

#[test]
fn an_invalid_pattern_matches_nothing_and_the_rest_still_work() {
    let db = RulesDb::new(
        1,
        vec![
            rule("broken", &["**/[unclosed"], Category::Log, Verdict::Safe),
            rule("logs", &["**/*.log"], Category::Log, Verdict::Review),
        ],
    );
    let (_, verdict, rule) = db.classify("/var/x.log");
    assert_eq!(verdict, Verdict::Review);
    assert_eq!(rule.unwrap().id, "logs");
}

#[test]
fn a_clone_classifies_alike() {
    let original = db();
    let copy = original.clone();
    assert_eq!(copy.version, 3);
    assert_eq!(copy.rules.len(), 4);
    assert_eq!(
        copy.classify("/tmp/x").1,
        original.classify("/tmp/x").1
    );
}
