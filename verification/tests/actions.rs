use diskern_core::actions::{
    quarantine, quarantine_destination, quarantine_finding_with_authorization, restore,
    Authorization, DryRun, FileSystem, FsLog,
};
use diskern_core::report::Report;
use diskern_core::rules::{Rule, RulesDb};
use diskern_core::{Category, FileEntry, Finding, GenomeError, Verdict};

#[test]
fn the_destination_flattens_the_path_into_one_name() {
    assert_eq!(
        quarantine_destination("/q", "/home/u/a.txt", 1_700_000_000),
        "/q/1700000000__home_u_a.txt"
    );
    assert_eq!(
        quarantine_destination("/q/", "C:\\Users\\u\\b.bin", -5),
        "/q/-5_C__Users_u_b.bin"
    );
}

#[test]
fn refuses_protected_and_risky_before_touching_anything() {
    let mut fs = FsLog::new(DryRun::new(10));
    match quarantine("/sys/critical.sys", Verdict::Protected, "/q", &mut fs) {
        Err(GenomeError::Rules(m)) => {
            assert_eq!(m, "refusing to quarantine /sys/critical.sys with verdict Protected")
        }
        other => panic!("expected a refusal, got {other:?}"),
    }
    assert!(matches!(
        quarantine("/x", Verdict::Risky, "/q", &mut fs),
        Err(GenomeError::Rules(_))
    ));
}

#[test]
fn a_quarantined_file_records_where_it_came_from() {
    let mut fs = FsLog::new(DryRun::new(42));
    let rec = quarantine("/tmp/cache.bin", Verdict::Safe, "/q", &mut fs).unwrap();
    assert_eq!(rec.original, "/tmp/cache.bin");
    assert_eq!(rec.quarantined_to, "/q/42__tmp_cache.bin");
    assert_eq!(rec.at_epoch, 42);
    restore(&rec, &mut fs).unwrap();
}

/// A filesystem on which every rename fails, as across two mounts, and
/// every copy fails too.
struct NoSpace;

impl FileSystem for NoSpace {
    fn create_dir_all(&mut self, _dir: &str) -> Result<(), String> {
        Ok(())
    }
    fn rename(&mut self, _from: &str, _to: &str) -> bool {
        false
    }
    fn copy(&mut self, _from: &str, _to: &str) -> Result<(), String> {
        Err("no space left on device".to_string())
    }
    fn remove_file(&mut self, _path: &str) -> Result<(), String> {
        panic!("nothing may be removed after a failed copy")
    }
    fn occupied(&mut self, _path: &str) -> bool {
        false
    }
    fn now(&mut self) -> i64 {
        7
    }
}

#[test]
fn a_failed_copy_removes_nothing_and_names_the_source() {
    match quarantine("/tmp/a", Verdict::Review, "/q", &mut FsLog::new(NoSpace)) {
        Err(GenomeError::Io { path, message }) => {
            assert_eq!(path, "/tmp/a");
            assert_eq!(message, "no space left on device");
        }
        other => panic!("expected an io error, got {other:?}"),
    }
}

struct Authorized(bool);

impl Authorization for Authorized {
    fn still_authorized(&self) -> bool {
        self.0
    }
}

fn report_for(path: &str, verdict: Verdict) -> Report {
    Report {
        findings: vec![Finding {
            entry: FileEntry {
                path: path.to_string(),
                size: 5,
                modified: None,
                accessed: None,
                is_symlink: false,
                identity: None,
                hash: None,
            },
            category: Category::TempFile,
            verdict,
            risk_score: 50,
            reasons: vec!["backend test".into()],
            reclaimable: 5,
        }],
        duplicate_sets: vec![],
        total_reclaimable: 5,
        files_scanned: 1,
    }
}

#[test]
fn risky_report_is_refused_without_a_frontend_verdict() {
    let rules = RulesDb::new(1, vec![]);
    let report = report_for("/t/dependency.bin", Verdict::Risky);
    let result = quarantine_finding_with_authorization(
        "/t/dependency.bin",
        &report,
        &rules,
        "/q",
        &Authorized(true),
        &mut FsLog::new(DryRun::new(0)),
    );
    assert!(result.is_err());
}

#[test]
fn an_invalidated_action_lease_cannot_move_a_file() {
    let rules = RulesDb::new(1, vec![]);
    let report = report_for("/t/cache.bin", Verdict::Review);
    let result = quarantine_finding_with_authorization(
        "/t/cache.bin",
        &report,
        &rules,
        "/q",
        &Authorized(false),
        &mut FsLog::new(DryRun::new(0)),
    );
    assert!(result.is_err());
    let result = quarantine_finding_with_authorization(
        "/t/cache.bin",
        &report,
        &rules,
        "/q",
        &Authorized(true),
        &mut FsLog::new(DryRun::new(0)),
    );
    assert!(result.is_ok());
}

#[test]
fn the_rules_of_today_tighten_the_reports_verdict() {
    let rules = RulesDb::new(
        1,
        vec![Rule {
            id: "now-protected".into(),
            patterns: vec!["/t/**".into()],
            category: Category::SystemCritical,
            verdict: Verdict::Protected,
            description: "test".into(),
        }],
    );
    let report = report_for("/t/cache.bin", Verdict::Safe);
    let result = quarantine_finding_with_authorization(
        "/t/cache.bin",
        &report,
        &rules,
        "/q",
        &Authorized(true),
        &mut FsLog::new(DryRun::new(0)),
    );
    match result {
        Err(GenomeError::Rules(m)) => assert!(m.ends_with("with verdict Protected")),
        other => panic!("expected a refusal, got {other:?}"),
    }
}

#[test]
fn a_path_the_report_does_not_list_is_refused() {
    let rules = RulesDb::new(1, vec![]);
    let report = report_for("/t/cache.bin", Verdict::Safe);
    let result = quarantine_finding_with_authorization(
        "/t/other.bin",
        &report,
        &rules,
        "/q",
        &Authorized(true),
        &mut FsLog::new(DryRun::new(0)),
    );
    match result {
        Err(GenomeError::Rules(m)) => {
            assert_eq!(m, "no finding for /t/other.bin in the current report")
        }
        other => panic!("expected a refusal, got {other:?}"),
    }
}

/// A filesystem on which no directory can be created.
struct ReadOnly;

impl FileSystem for ReadOnly {
    fn create_dir_all(&mut self, _dir: &str) -> Result<(), String> {
        Err("read-only file system".to_string())
    }
    fn rename(&mut self, _from: &str, _to: &str) -> bool {
        panic!("nothing may move once the directory is missing")
    }
    fn copy(&mut self, _from: &str, _to: &str) -> Result<(), String> {
        panic!("nothing may be copied once the directory is missing")
    }
    fn remove_file(&mut self, _path: &str) -> Result<(), String> {
        panic!("nothing may be removed once the directory is missing")
    }
    fn occupied(&mut self, _path: &str) -> bool {
        false
    }
    fn now(&mut self) -> i64 {
        7
    }
}

#[test]
fn a_quarantine_that_cannot_be_created_names_itself() {
    match quarantine("/tmp/a", Verdict::Safe, "/q", &mut FsLog::new(ReadOnly)) {
        Err(GenomeError::Io { path, message }) => {
            assert_eq!(path, "/q");
            assert_eq!(message, "read-only file system");
        }
        other => panic!("expected an io error, got {other:?}"),
    }
}

#[test]
fn a_restore_whose_directory_cannot_be_recreated_names_the_directory() {
    let mut fs = FsLog::new(DryRun::new(3));
    let rec = quarantine("/home/u/docs/a.txt", Verdict::Review, "/q", &mut fs).unwrap();
    match restore(&rec, &mut FsLog::new(ReadOnly)) {
        Err(GenomeError::Io { path, .. }) => assert_eq!(path, "/home/u/docs"),
        other => panic!("expected an io error, got {other:?}"),
    }
}

#[test]
fn a_restore_that_cannot_copy_back_names_the_quarantined_file() {
    let mut fs = FsLog::new(DryRun::new(3));
    let rec = quarantine("/home/u/a.txt", Verdict::Review, "/q", &mut fs).unwrap();
    match restore(&rec, &mut FsLog::new(NoSpace)) {
        Err(GenomeError::Io { path, .. }) => assert_eq!(path, "/q/3__home_u_a.txt"),
        other => panic!("expected an io error, got {other:?}"),
    }
}

/// A small in-memory filesystem: files with their bytes, and directories.
/// A rename needs the target's directory to exist; `cross_device` makes
/// every rename fail, as between two mounts.
struct MemFs {
    files: std::collections::HashMap<String, Vec<u8>>,
    dirs: std::collections::HashSet<String>,
    cross_device: bool,
    clock: i64,
}

impl MemFs {
    fn new(cross_device: bool) -> MemFs {
        let mut dirs = std::collections::HashSet::new();
        dirs.insert("/".to_string());
        MemFs {
            files: std::collections::HashMap::new(),
            dirs,
            cross_device,
            clock: 1_700_000_000,
        }
    }

    fn write(&mut self, path: &str, bytes: &[u8]) {
        self.create_dir_all(parent_of(path)).unwrap();
        self.files.insert(path.to_string(), bytes.to_vec());
    }

    fn holds(&self, path: &str) -> bool {
        self.files.contains_key(path)
    }

    fn remove_dir_all(&mut self, dir: &str) {
        let under = format!("{dir}/");
        self.files.retain(|p, _| !p.starts_with(&under));
        self.dirs.retain(|d| d != dir && !d.starts_with(&under));
    }
}

fn parent_of(path: &str) -> &str {
    match path.rfind('/') {
        Some(0) => "/",
        Some(i) => &path[..i],
        None => "",
    }
}

impl FileSystem for MemFs {
    fn create_dir_all(&mut self, dir: &str) -> Result<(), String> {
        let mut d = dir.to_string();
        while !d.is_empty() && d != "/" {
            self.dirs.insert(d.clone());
            d = parent_of(&d).to_string();
        }
        Ok(())
    }
    fn rename(&mut self, from: &str, to: &str) -> bool {
        if self.cross_device || !self.dirs.contains(parent_of(to)) {
            return false;
        }
        match self.files.remove(from) {
            Some(bytes) => {
                self.files.insert(to.to_string(), bytes);
                true
            }
            None => false,
        }
    }
    fn copy(&mut self, from: &str, to: &str) -> Result<(), String> {
        if !self.dirs.contains(parent_of(to)) {
            return Err("no such directory".to_string());
        }
        match self.files.get(from).cloned() {
            Some(bytes) => {
                self.files.insert(to.to_string(), bytes);
                Ok(())
            }
            None => Err("no such file".to_string()),
        }
    }
    fn remove_file(&mut self, path: &str) -> Result<(), String> {
        self.files
            .remove(path)
            .map(|_| ())
            .ok_or_else(|| "no such file".to_string())
    }
    fn occupied(&mut self, path: &str) -> bool {
        self.files.contains_key(path) || self.dirs.contains(path)
    }
    fn now(&mut self) -> i64 {
        self.clock
    }
}

#[test]
fn quarantine_and_restore_roundtrip() {
    let mut fs = FsLog::new(MemFs::new(false));
    fs.fs.write("/d/victim.txt", b"data");

    let rec = quarantine("/d/victim.txt", Verdict::Safe, "/d/quarantine", &mut fs).unwrap();
    assert!(!fs.fs.holds("/d/victim.txt"));
    assert!(fs.fs.holds(&rec.quarantined_to));

    restore(&rec, &mut fs).unwrap();
    assert!(fs.fs.holds("/d/victim.txt"));
}

#[test]
fn the_cross_filesystem_fallback_moves_the_bytes() {
    let mut fs = FsLog::new(MemFs::new(true));
    fs.fs.write("/d/from.txt", b"data");

    let rec = quarantine("/d/from.txt", Verdict::Review, "/q", &mut fs).unwrap();
    assert!(!fs.fs.holds("/d/from.txt"));
    assert_eq!(fs.fs.files[&rec.quarantined_to], b"data");

    restore(&rec, &mut fs).unwrap();
    assert!(!fs.fs.holds(&rec.quarantined_to));
    assert_eq!(fs.fs.files["/d/from.txt"], b"data");
}

#[test]
fn restore_recreates_a_directory_that_was_removed_meanwhile() {
    let mut fs = FsLog::new(MemFs::new(false));
    fs.fs.write("/d/a/b/victim.txt", b"data");

    let rec = quarantine("/d/a/b/victim.txt", Verdict::Safe, "/d/quarantine", &mut fs).unwrap();
    fs.fs.remove_dir_all("/d/a");

    restore(&rec, &mut fs).unwrap();
    assert_eq!(fs.fs.files["/d/a/b/victim.txt"], b"data");
}

#[test]
fn refuses_protected() {
    let mut fs = FsLog::new(MemFs::new(false));
    fs.fs.write("/d/critical.sys", b"x");
    assert!(quarantine("/d/critical.sys", Verdict::Protected, "/d", &mut fs).is_err());
    assert!(fs.fs.holds("/d/critical.sys"));
}

#[test]
fn two_files_that_flatten_alike_do_not_overwrite_each_other() {
    let mut fs = FsLog::new(MemFs::new(false));
    fs.fs.write("/x/a_b", b"first");
    fs.fs.write("/x/a/b", b"second");

    let r1 = quarantine("/x/a_b", Verdict::Safe, "/q", &mut fs).unwrap();
    let r2 = quarantine("/x/a/b", Verdict::Safe, "/q", &mut fs).unwrap();

    assert_ne!(r1.quarantined_to, r2.quarantined_to);
    assert_eq!(r1.quarantined_to, "/q/1700000000__x_a_b");
    assert_eq!(r2.quarantined_to, "/q/1700000000__x_a_b-1");
    assert_eq!(fs.fs.files[&r1.quarantined_to], b"first");
    assert_eq!(fs.fs.files[&r2.quarantined_to], b"second");
}

#[test]
fn restore_refuses_rather_than_overwrite() {
    let mut fs = FsLog::new(MemFs::new(false));
    fs.fs.write("/d/cache.bin", b"old");
    let rec = quarantine("/d/cache.bin", Verdict::Safe, "/q", &mut fs).unwrap();
    // The app rebuilt its cache meanwhile.
    fs.fs.write("/d/cache.bin", b"rebuilt");

    match restore(&rec, &mut fs) {
        Err(GenomeError::Rules(m)) => {
            assert_eq!(m, "refusing to restore over /d/cache.bin: something is already there")
        }
        other => panic!("expected a refusal, got {other:?}"),
    }
    assert_eq!(fs.fs.files["/d/cache.bin"], b"rebuilt");
    assert_eq!(fs.fs.files[&rec.quarantined_to], b"old");
}
