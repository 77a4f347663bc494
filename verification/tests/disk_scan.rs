//! Scans of real directory trees, walked with `jwalk` as the CLI walks them.

use diskern_core::scanner::{scan, ScanOptions, ScanProgress, WalkLog, WalkPlan, Walked, Walker};
use diskern_core::{FileEntry, GenomeError};
use std::io::Write;
use std::path::{Path, PathBuf};
use std::sync::atomic::Ordering;
use std::sync::Arc;

/// Walks real directories, pruning as the plan says.
struct DiskWalker;

impl Walker for DiskWalker {
    fn absolute(&mut self, root: &str) -> Result<String, String> {
        std::path::absolute(Path::new(root))
            .map(|p| p.to_string_lossy().into_owned())
            .map_err(|e| e.to_string())
    }

    fn walk(&mut self, plan: &WalkPlan, progress: &ScanProgress) -> Vec<Walked> {
        let pruning = WalkPlan {
            root: plan.root.clone(),
            excludes: plan.excludes.clone(),
            roots: plan.roots.clone(),
            follow_symlinks: plan.follow_symlinks,
        };
        let walker = jwalk::WalkDir::new(&plan.root)
            .follow_links(plan.follow_symlinks)
            .skip_hidden(false)
            .process_read_dir(move |_depth, _path, _state, children| {
                children.retain(|entry| {
                    entry
                        .as_ref()
                        .map(|e| pruning.keep(&e.path().to_string_lossy()))
                        .unwrap_or(true)
                });
            });
        let mut items = Vec::new();
        for entry in walker {
            if progress.cancelled.load(Ordering::Relaxed) {
                break;
            }
            let entry = match entry {
                Ok(entry) => entry,
                Err(err) => {
                    items.push(Walked::Failed {
                        path: err
                            .path()
                            .unwrap_or(Path::new(&plan.root))
                            .to_string_lossy()
                            .into_owned(),
                        message: err.to_string(),
                        at_root: err.depth() == 0,
                    });
                    continue;
                }
            };
            if entry.depth == 0 {
                if let Some(err) = &entry.read_children_error {
                    items.push(Walked::Failed {
                        path: plan.root.clone(),
                        message: err.to_string(),
                        at_root: true,
                    });
                    continue;
                }
            }
            if !entry.file_type().is_file() {
                items.push(Walked::NotAFile);
                continue;
            }
            let path = entry.path().to_string_lossy().into_owned();
            match entry.metadata() {
                Ok(meta) => items.push(Walked::File(FileEntry {
                    path,
                    size: meta.len(),
                    modified: None,
                    accessed: None,
                    is_symlink: entry.path_is_symlink(),
                    identity: None,
                    hash: None,
                })),
                Err(err) => items.push(Walked::Failed {
                    path,
                    message: err.to_string(),
                    at_root: entry.depth == 0,
                }),
            }
        }
        items
    }
}

/// A directory named exactly `name` under `parent`, kept until the
/// enclosing temporary directory goes.
fn dir(parent: &Path, name: &str) -> PathBuf {
    tempfile::Builder::new()
        .prefix(name)
        .rand_bytes(0)
        .keep(true)
        .tempdir_in(parent)
        .unwrap()
        .path()
        .to_path_buf()
}

/// A file named exactly `name` in `parent` holding `bytes`.
fn put(parent: &Path, name: &str, bytes: &[u8]) -> PathBuf {
    let mut f = tempfile::Builder::new()
        .prefix(name)
        .rand_bytes(0)
        .keep(true)
        .tempfile_in(parent)
        .unwrap();
    f.as_file_mut().write_all(bytes).unwrap();
    f.as_file_mut().flush().unwrap();
    f.path().to_path_buf()
}

fn text(p: &Path) -> String {
    p.to_string_lossy().into_owned()
}

fn options(roots: Vec<String>, excludes: Vec<String>) -> ScanOptions {
    ScanOptions {
        roots,
        excludes,
        follow_symlinks: false,
    }
}

#[test]
fn an_exclude_matches_a_real_directory_whatever_its_case() {
    let tmp = tempfile::tempdir().unwrap();
    let cache = dir(tmp.path(), "Cache");
    put(&cache, "blob.bin", b"cached");
    put(tmp.path(), "keep.txt", b"keep");

    // Written lowercase; the directory on disk is not.
    let opts = options(vec![text(tmp.path())], vec![text(&cache).to_lowercase()]);
    let entries = scan(&opts, Arc::new(ScanProgress::new()), &mut WalkLog::new(DiskWalker)).unwrap();

    assert_eq!(entries.len(), 1, "{entries:#?}");
    assert!(entries[0].path.ends_with("keep.txt"));
}

#[test]
fn repeated_roots_are_scanned_once() {
    let tmp = tempfile::tempdir().unwrap();
    put(tmp.path(), "one.bin", b"one");
    let progress = Arc::new(ScanProgress::new());

    let opts = options(vec![text(tmp.path()), text(tmp.path())], vec![]);
    let entries = scan(&opts, Arc::clone(&progress), &mut WalkLog::new(DiskWalker)).unwrap();

    assert_eq!(entries.len(), 1, "{entries:#?}");
    assert_eq!(progress.files_seen.load(Ordering::Relaxed), 1);
    assert_eq!(progress.bytes_seen.load(Ordering::Relaxed), 3);
}

#[test]
fn nested_roots_do_not_count_the_child_tree_twice() {
    let tmp = tempfile::tempdir().unwrap();
    let child = dir(tmp.path(), "child");
    put(tmp.path(), "root.bin", b"root");
    put(&child, "child.bin", b"child");

    for roots in [
        vec![text(tmp.path()), text(&child)],
        vec![text(&child), text(tmp.path())],
    ] {
        let progress = Arc::new(ScanProgress::new());
        let entries = scan(
            &options(roots, vec![]),
            Arc::clone(&progress),
            &mut WalkLog::new(DiskWalker),
        )
        .unwrap();

        assert_eq!(entries.len(), 2, "{entries:#?}");
        assert_eq!(progress.files_seen.load(Ordering::Relaxed), 2);
        assert_eq!(progress.bytes_seen.load(Ordering::Relaxed), 9);
    }
}

#[test]
fn an_explicit_child_root_still_reports_its_own_exclude_error() {
    let tmp = tempfile::tempdir().unwrap();
    let child = dir(tmp.path(), "child");
    put(&child, "one.bin", b"one");

    let err = scan(
        &options(vec![text(tmp.path()), text(&child)], vec![text(&child)]),
        Arc::new(ScanProgress::new()),
        &mut WalkLog::new(DiskWalker),
    )
    .unwrap_err();

    match err {
        GenomeError::ExcludedRoot { path, .. } => assert_eq!(path, text(&child)),
        other => panic!("expected excluded child root, got {other:?}"),
    }
}

#[test]
fn a_missing_root_is_an_error_from_the_engine() {
    let tmp = tempfile::tempdir().unwrap();
    let missing = tmp.path().join("missing");

    let err = scan(
        &options(vec![text(&missing)], vec![]),
        Arc::new(ScanProgress::new()),
        &mut WalkLog::new(DiskWalker),
    )
    .unwrap_err();

    let message = err.describe();
    assert!(message.contains(&text(&missing)), "{message}");
}

#[test]
fn an_invalid_child_root_is_an_error_from_the_engine() {
    let tmp = tempfile::tempdir().unwrap();
    let file = put(tmp.path(), "file", b"not a directory");
    let invalid_root = file.join("child");

    let err = scan(
        &options(vec![text(&invalid_root)], vec![]),
        Arc::new(ScanProgress::new()),
        &mut WalkLog::new(DiskWalker),
    )
    .unwrap_err();

    let message = err.describe();
    assert!(message.contains(&text(&invalid_root)), "{message}");
}

#[test]
fn an_empty_readable_root_still_succeeds() {
    let tmp = tempfile::tempdir().unwrap();

    let entries = scan(
        &options(vec![text(tmp.path())], vec![]),
        Arc::new(ScanProgress::new()),
        &mut WalkLog::new(DiskWalker),
    )
    .unwrap();

    assert!(entries.is_empty());
}

#[test]
fn scans_a_temp_tree() {
    let tmp = tempfile::tempdir().unwrap();
    put(tmp.path(), "a.txt", b"hello");
    put(tmp.path(), "b.txt", b"world!");

    let entries = scan(
        &options(vec![text(tmp.path())], vec![]),
        Arc::new(ScanProgress::new()),
        &mut WalkLog::new(DiskWalker),
    )
    .unwrap();
    assert_eq!(entries.len(), 2);
}
