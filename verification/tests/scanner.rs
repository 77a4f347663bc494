use diskern_core::scanner::{
    collect_walked, default_excludes, excluded_by, is_excluded, normalize_exclude, planned_roots,
    scan, scan_with, EntryLog, IgnoreEntries, Platform, ScanOptions, ScanProgress, WalkLog, WalkPlan, Walked,
    Walker,
};
use diskern_core::paths::PathTable;
use diskern_core::{FileEntry, GenomeError};
use std::sync::atomic::Ordering;
use std::sync::Arc;

fn excludes(list: &[&str]) -> Vec<String> {
    list.iter().map(|s| s.to_string()).collect()
}

#[test]
fn excludes_match_whole_components_not_characters() {
    let excludes = excludes(&["/run"]);
    assert!(is_excluded("/run", &excludes));
    assert!(is_excluded("/run/user/1000/x", &excludes));
    // The bug: a character-prefix compare skipped this too.
    assert!(!is_excluded("/runtime-data/x", &excludes));
    assert!(!is_excluded("/runner", &excludes));
}

#[test]
fn excludes_survive_a_differently_cased_or_separated_root() {
    let excludes = vec![normalize_exclude("C:\\Windows\\WinSxS")];
    assert!(is_excluded("c:/windows/winsxs/component/x.dll", &excludes));
    assert!(is_excluded("C:\\Windows\\WinSxS\\x.dll", &excludes));
    assert!(!is_excluded("c:/windows/winsxs-backup/x.dll", &excludes));
}

#[test]
fn nothing_is_excluded_when_there_are_no_excludes() {
    assert!(!is_excluded("/proc/1/maps", &vec![]));
}

#[test]
fn a_trailing_separator_on_the_path_still_matches() {
    let excludes = vec![normalize_exclude("/run")];
    assert!(is_excluded("/run/", &excludes));
}

#[test]
fn an_exclude_longer_than_the_path_does_not_match() {
    let excludes = vec![normalize_exclude("/proc/self/fd")];
    assert!(!is_excluded("/proc", &excludes));
}

#[test]
fn a_trailing_separator_on_an_exclude_changes_nothing() {
    let excludes = vec![normalize_exclude("/proc/")];
    assert!(is_excluded("/proc/1/maps", &excludes));
    assert!(!is_excluded("/process-data/x", &excludes));
}

#[test]
fn the_root_exclude_stays_the_root() {
    assert_eq!(normalize_exclude("/"), "/");
    assert_eq!(normalize_exclude("//"), "//");
    assert_eq!(normalize_exclude("C:\\Temp\\\\"), "c:/temp");
}

#[test]
fn excluded_by_names_the_first_exclude_that_contains_the_path() {
    let excludes = excludes(&["/var/log", "/var"]);
    assert_eq!(excluded_by("/var/log/syslog", &excludes), Some(0));
    assert_eq!(excluded_by("/var/cache/x", &excludes), Some(1));
    assert_eq!(excluded_by("/home/x", &excludes), None);
}

#[test]
fn platform_excludes() {
    assert_eq!(default_excludes(Platform::Linux), excludes(&["/proc", "/sys", "/dev", "/run"]));
    assert_eq!(
        default_excludes(Platform::Windows),
        excludes(&["C:\\Windows\\WinSxS", "C:\\Windows\\System32"])
    );
    assert!(default_excludes(Platform::Other).is_empty());
}

#[test]
fn roots_are_planned_once_each_in_the_order_given() {
    let planned = planned_roots(&excludes(&["/b", "/a", "/b", "/c", "/a"]));
    assert_eq!(planned, excludes(&["/b", "/a", "/c"]));
}

#[test]
fn a_walk_keeps_its_own_root_but_not_another_root_or_an_exclude() {
    let plan = WalkPlan {
        root: "/home".to_string(),
        excludes: vec!["/home/u/.cache".to_string()],
        roots: excludes(&["/home", "/home/u/projects"]),
        follow_symlinks: false,
    };
    assert!(plan.keep("/home"));
    assert!(plan.keep("/home/u/docs"));
    assert!(!plan.keep("/home/u/projects"));
    assert!(!plan.keep("/home/u/.cache/x"));
}

/// The plan of a walk of `root`, the only root, with no excludes.
fn plan_of(root: &str) -> WalkPlan {
    WalkPlan {
        root: root.to_string(),
        excludes: vec![],
        roots: vec![root.to_string()],
        follow_symlinks: false,
    }
}

fn file(path: &str, size: u64) -> Walked {
    Walked::File(FileEntry {
        path: path.to_string(),
        size,
        modified: Some(1),
        accessed: None,
        is_symlink: false,
        identity: None,
        hash: Some("stale".to_string()),
    })
}

#[test]
fn walk_results_keep_files_and_skip_what_is_not_one() {
    let progress = ScanProgress::new();
    let mut out = Vec::new();
    let mut seen = EntryLog::new(Vec::<FileEntry>::new());
    let items = vec![
        Walked::NotAFile,
        file("/r/a", 3),
        Walked::Failed {
            path: "/r/locked".to_string(),
            message: "permission denied".to_string(),
            at_root: false,
        },
        file("/r/b", 4),
    ];
    collect_walked(items, &plan_of("/r"), &progress, &mut out, &mut PathTable::new(), &mut seen).unwrap();
    assert_eq!(out.len(), 2);
    assert_eq!(out[0].path, "/r/a");
    assert!(out.iter().all(|e| e.hash.is_none()));
    assert_eq!(seen.sink.len(), 2);
    assert_eq!(progress.files_seen.load(Ordering::Relaxed), 2);
    assert_eq!(progress.bytes_seen.load(Ordering::Relaxed), 7);
}

#[test]
fn a_failure_at_the_root_is_an_error() {
    let progress = ScanProgress::new();
    let mut out = Vec::new();
    let items = vec![
        Walked::Failed {
            path: "/missing".to_string(),
            message: "not found".to_string(),
            at_root: true,
        },
        file("/missing/x", 1),
    ];
    match collect_walked(items, &plan_of("/missing"), &progress, &mut out, &mut PathTable::new(), &mut EntryLog::new(IgnoreEntries)) {
        Err(GenomeError::Io { path, message }) => {
            assert_eq!(path, "/missing");
            assert_eq!(message, "not found");
        }
        other => panic!("expected an io error, got {other:?}"),
    }
    assert!(out.is_empty());
}

#[test]
fn a_cancelled_progress_stops_collection() {
    let progress = ScanProgress::new();
    progress.cancel();
    let mut out = Vec::new();
    let r = collect_walked(
        vec![file("/x", 1)],
        &plan_of("/x"),
        &progress,
        &mut out,
        &mut PathTable::new(),
        &mut EntryLog::new(IgnoreEntries),
    );
    assert!(matches!(r, Err(GenomeError::Cancelled)));
    assert!(out.is_empty());
}

#[test]
fn a_walked_file_the_plan_prunes_is_not_recorded() {
    let progress = ScanProgress::new();
    let mut out = Vec::new();
    let plan = WalkPlan {
        root: "/home".to_string(),
        excludes: vec!["/home/u/.cache".to_string()],
        roots: excludes(&["/home", "/home/u/notes.txt"]),
        follow_symlinks: false,
    };
    let items = vec![
        file("/home/u/.cache/blob", 5),
        file("/home/u/notes.txt", 6),
        file("/home/u/a.txt", 7),
    ];
    collect_walked(items, &plan, &progress, &mut out, &mut PathTable::new(), &mut EntryLog::new(IgnoreEntries)).unwrap();
    assert_eq!(out.len(), 1);
    assert_eq!(out[0].path, "/home/u/a.txt");
    assert_eq!(progress.files_seen.load(Ordering::Relaxed), 1);
    assert_eq!(progress.bytes_seen.load(Ordering::Relaxed), 7);
}

/// A walker over a fixed tree, for the orchestration around the walk.
struct FixedTree {
    walked: Vec<String>,
}

impl Walker for FixedTree {
    fn absolute(&mut self, root: &str) -> Result<String, String> {
        if root.starts_with('/') {
            Ok(root.to_string())
        } else {
            Ok(format!("/cwd/{root}"))
        }
    }

    fn walk(&mut self, plan: &WalkPlan, _progress: &ScanProgress) -> Vec<Walked> {
        self.walked.push(plan.root.clone());
        let all = ["/cwd/tmp/a.bin", "/cwd/tmp/cache/b.bin"];
        all.iter()
            .filter(|p| p.starts_with(&plan.root) && plan.keep(p))
            .map(|p| file(p, 2))
            .collect()
    }
}

#[test]
fn relative_and_repeated_roots_are_walked_once_as_absolute_paths() {
    let mut walker = WalkLog::new(FixedTree { walked: vec![] });
    let opts = ScanOptions {
        roots: vec!["tmp".to_string(), "/cwd/tmp".to_string()],
        excludes: vec![],
        follow_symlinks: false,
    };
    let entries = scan(&opts, Arc::new(ScanProgress::new()), &mut walker).unwrap();
    assert_eq!(walker.walker.walked, vec!["/cwd/tmp".to_string()]);
    assert_eq!(entries.len(), 2);
}

#[test]
fn a_root_inside_an_exclude_is_refused() {
    let mut walker = WalkLog::new(FixedTree { walked: vec![] });
    let opts = ScanOptions {
        roots: vec!["/cwd/tmp/cache".to_string()],
        excludes: vec!["/CWD/tmp/".to_string()],
        follow_symlinks: false,
    };
    let err = scan(&opts, Arc::new(ScanProgress::new()), &mut walker).unwrap_err();
    match &err {
        GenomeError::ExcludedRoot { path, exclude } => {
            assert_eq!(path, "/cwd/tmp/cache");
            assert_eq!(exclude, "/cwd/tmp");
        }
        other => panic!("expected an excluded root, got {other:?}"),
    }
    assert!(err.describe().contains("excluded directory"));
    assert!(walker.walker.walked.is_empty());
}

#[test]
fn a_root_merely_sharing_a_prefix_with_an_exclude_is_scanned() {
    let mut walker = WalkLog::new(FixedTree { walked: vec![] });
    let mut seen = EntryLog::new(Vec::<FileEntry>::new());
    let opts = ScanOptions {
        roots: vec!["/cwd/tmp".to_string()],
        excludes: vec!["/cwd/tm".to_string(), "/cwd/tmp/cache".to_string()],
        follow_symlinks: false,
    };
    let entries = scan_with(&opts, Arc::new(ScanProgress::new()), &mut walker, &mut seen).unwrap();
    assert_eq!(entries.len(), 1);
    assert_eq!(entries[0].path, "/cwd/tmp/a.bin");
    assert_eq!(seen.sink.len(), 1);
}

#[test]
fn a_cancelled_scan_walks_nothing() {
    let mut walker = WalkLog::new(FixedTree { walked: vec![] });
    let progress = Arc::new(ScanProgress::new());
    progress.cancel();
    let opts = ScanOptions {
        roots: vec!["/cwd/tmp".to_string()],
        excludes: vec![],
        follow_symlinks: false,
    };
    assert!(matches!(
        scan(&opts, progress, &mut walker),
        Err(GenomeError::Cancelled)
    ));
    assert!(walker.walker.walked.is_empty());
}

/// A walker that ignores its plan and reports everything under the root.
struct Careless;

impl Walker for Careless {
    fn absolute(&mut self, root: &str) -> Result<String, String> {
        Ok(root.to_string())
    }

    fn walk(&mut self, _plan: &WalkPlan, _progress: &ScanProgress) -> Vec<Walked> {
        vec![file("/cwd/tmp/a.bin", 2), file("/cwd/tmp/cache/b.bin", 2)]
    }
}

#[test]
fn a_scan_never_returns_a_file_inside_an_exclude() {
    let opts = ScanOptions {
        roots: vec!["/cwd/tmp".to_string()],
        excludes: vec!["/CWD/TMP/Cache/".to_string()],
        follow_symlinks: false,
    };
    let entries = scan(&opts, Arc::new(ScanProgress::new()), &mut WalkLog::new(Careless)).unwrap();
    assert_eq!(entries.len(), 1);
    assert_eq!(entries[0].path, "/cwd/tmp/a.bin");
}

/// A walker that reports every file of a fixed tree under the root it is
/// given, pruning nothing.
struct Unpruned;

impl Walker for Unpruned {
    fn absolute(&mut self, root: &str) -> Result<String, String> {
        Ok(root.to_string())
    }

    fn walk(&mut self, plan: &WalkPlan, _progress: &ScanProgress) -> Vec<Walked> {
        let tree = [("/d/root.bin", 4), ("/d/child/child.bin", 5)];
        tree.iter()
            .filter(|(p, _)| p.starts_with(&format!("{}/", plan.root)))
            .map(|(p, n)| file(p, *n))
            .collect()
    }
}

#[test]
fn a_nested_root_is_counted_once_even_when_the_walk_does_not_prune() {
    for roots in [
        vec!["/d".to_string(), "/d/child".to_string()],
        vec!["/d/child".to_string(), "/d".to_string()],
    ] {
        let progress = Arc::new(ScanProgress::new());
        let opts = ScanOptions {
            roots,
            excludes: vec![],
            follow_symlinks: false,
        };
        let entries = scan(&opts, Arc::clone(&progress), &mut WalkLog::new(Unpruned)).unwrap();
        assert_eq!(entries.len(), 2, "{entries:#?}");
        assert_ne!(entries[0].path, entries[1].path);
        assert_eq!(progress.files_seen.load(Ordering::Relaxed), 2);
        assert_eq!(progress.bytes_seen.load(Ordering::Relaxed), 9);
    }
}

#[test]
fn the_sink_is_shown_exactly_the_returned_entries_in_order() {
    let opts = ScanOptions {
        roots: vec!["/d".to_string()],
        excludes: vec![],
        follow_symlinks: false,
    };
    let mut shown = EntryLog::new(Vec::<FileEntry>::new());
    let entries = scan_with(
        &opts,
        Arc::new(ScanProgress::new()),
        &mut WalkLog::new(Unpruned),
        &mut shown,
    )
    .unwrap();
    let shown_paths: Vec<&String> = shown.sink.iter().map(|e| &e.path).collect();
    let entry_paths: Vec<&String> = entries.iter().map(|e| &e.path).collect();
    assert_eq!(shown_paths, entry_paths);
    assert_eq!(entries.len(), 2);
}

#[test]
fn no_roots_is_an_empty_scan() {
    let opts = ScanOptions {
        roots: vec![],
        excludes: vec![],
        follow_symlinks: false,
    };
    let entries = scan(&opts, Arc::new(ScanProgress::new()), &mut WalkLog::new(Unpruned)).unwrap();
    assert!(entries.is_empty());
}

#[test]
fn a_normalized_exclude_is_already_normalized() {
    for e in ["/proc/", "/", "C:\\Windows\\WinSxS\\", "//", "/Run", ""] {
        let once = normalize_exclude(e);
        assert_eq!(normalize_exclude(&once), once, "{e:?}");
        assert!(!once.contains('\\'));
        assert!(!once.chars().any(|c| c.is_ascii_uppercase()));
        if once.ends_with('/') {
            assert!(once.chars().all(|c| c == '/'));
        }
    }
    assert_eq!(normalize_exclude("/proc/"), "/proc");
    assert_eq!(normalize_exclude("/"), "/");
}
