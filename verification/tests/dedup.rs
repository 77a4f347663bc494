use diskern_core::dedup::{find_duplicates, find_duplicates_cancellable, find_duplicates_filtered};
use diskern_core::{FileEntry, FileIdentity};
use std::io::Write;
use std::path::Path;
use std::sync::atomic::AtomicBool;

fn file(parent: &Path, name: &str, bytes: &[u8]) -> FileEntry {
    let mut f = tempfile::Builder::new()
        .prefix(name)
        .rand_bytes(0)
        .keep(true)
        .tempfile_in(parent)
        .unwrap();
    f.as_file_mut().write_all(bytes).unwrap();
    f.as_file_mut().flush().unwrap();
    FileEntry {
        path: f.path().to_string_lossy().into_owned(),
        size: bytes.len() as u64,
        modified: None,
        accessed: None,
        is_symlink: false,
        identity: None,
        hash: None,
    }
}

#[test]
fn detects_identical_content() {
    let dir = tempfile::tempdir().unwrap();
    let mut entries = vec![
        file(dir.path(), "a", b"same-bytes"),
        file(dir.path(), "b", b"same-bytes"),
        file(dir.path(), "c", b"different!"),
    ];
    let sets = find_duplicates(&mut entries);

    assert_eq!(sets.len(), 1);
    assert_eq!(sets[0].paths.len(), 2);
    assert_eq!(sets[0].wasted, 10);
}

#[test]
fn stops_when_cancelled() {
    let dir = tempfile::tempdir().unwrap();
    let mut entries = vec![
        file(dir.path(), "a", b"same-bytes"),
        file(dir.path(), "b", b"same-bytes"),
    ];

    let cancelled = AtomicBool::new(true);
    assert!(find_duplicates_cancellable(&mut entries, &cancelled).is_none());
    // A cancelled run leaves the entries as they were.
    assert!(entries.iter().all(|e| e.hash.is_none()));
}

#[test]
fn hashes_are_recorded_only_for_size_collisions() {
    let dir = tempfile::tempdir().unwrap();
    let mut entries = vec![
        file(dir.path(), "a", b"12345"),
        file(dir.path(), "b", b"abcde"),
        file(dir.path(), "lonely", b"unique size"),
    ];
    let sets = find_duplicates(&mut entries);
    assert!(sets.is_empty());
    let a = entries[0].hash.clone().unwrap();
    let b = entries[1].hash.clone().unwrap();
    // BLAKE3 in hex: 64 digits, and different bytes hash differently.
    assert_eq!(a.len(), 64);
    assert_ne!(a, b);
    assert!(a.chars().all(|c| c.is_ascii_hexdigit()));
    assert!(entries[2].hash.is_none());
}

#[test]
fn the_hash_is_blake3_of_the_bytes() {
    let dir = tempfile::tempdir().unwrap();
    let mut entries = vec![file(dir.path(), "a", b"abc"), file(dir.path(), "b", b"abc")];
    let sets = find_duplicates(&mut entries);
    assert_eq!(sets.len(), 1);
    assert_eq!(
        sets[0].hash,
        "6437b3ac38465133ffb63b75273a8db548c558465d79db03fd359c6cd5bd9d85"
    );
    assert_eq!(sets[0].size, 3);
}

#[test]
fn sets_come_biggest_waste_first() {
    let dir = tempfile::tempdir().unwrap();
    let mut entries = vec![
        file(dir.path(), "s1", b"xy"),
        file(dir.path(), "s2", b"xy"),
        file(dir.path(), "b1", b"bigger"),
        file(dir.path(), "b2", b"bigger"),
        file(dir.path(), "b3", b"bigger"),
    ];
    let sets = find_duplicates(&mut entries);
    assert_eq!(sets.len(), 2);
    assert_eq!(sets[0].wasted, 12);
    assert_eq!(sets[0].paths.len(), 3);
    assert_eq!(sets[1].wasted, 2);
}

#[test]
fn ineligible_entries_and_extra_names_of_one_file_are_left_out() {
    let dir = tempfile::tempdir().unwrap();
    let id = Some(FileIdentity { device: 3, file: 5 });
    let mut a = file(dir.path(), "a", b"same");
    a.identity = id;
    let mut b = file(dir.path(), "b", b"same");
    b.identity = id;
    let c = file(dir.path(), "c", b"same");
    let d = file(dir.path(), "d", b"same");
    let mut entries = vec![a, b, c, d];
    let never = AtomicBool::new(false);
    let sets = find_duplicates_filtered(&mut entries, &vec![true, true, true, false], &never).unwrap();
    assert_eq!(sets.len(), 1);
    let paths: Vec<&String> = sets[0].paths.iter().collect();
    assert_eq!(paths, vec![&entries[0].path, &entries[2].path]);
    assert!(entries[1].hash.is_none());
    assert!(entries[3].hash.is_none());
}
