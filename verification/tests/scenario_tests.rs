use fish_reader::backup::{backup_bucket, backup_cutoff, backup_file_name, is_stale_backup, quarantine_file_name};
use fish_reader::config::AppConfig;
use fish_reader::diff::{diff_for_upload, ActionKind};
use fish_reader::manifest::{fresh_entry, FileEntry, FileMap, SyncManifest};
use fish_reader::paths::{
    localize_novel_path, novels_rel_path, portable_novel_path, safe_local_path, same_novel_path,
    split_segments, title_from_path, PathError,
};
use fish_reader::state::AppState;
use fish_reader::sync::parent_dirs;

fn entry(hash: u32) -> FileEntry {
    FileEntry { hash, size: 1, mtime: 1 }
}

// local {novels/a.txt: h10, progress.json: h30}; remote {novels/a.txt: h99,
// novels/b.txt: h40} -> exactly Upload(novels/a.txt), Upload(progress.json),
// Delete(novels/b.txt)
#[test]
fn test_upload_diff_scenario() {
    let mut local = FileMap::new();
    local.insert("novels/a.txt".to_string(), entry(10));
    local.insert("progress.json".to_string(), entry(30));
    let mut remote = FileMap::new();
    remote.insert("novels/a.txt".to_string(), entry(99));
    remote.insert("novels/b.txt".to_string(), entry(40));

    let actions = diff_for_upload(&local, &remote);
    assert_eq!(actions.len(), 3);
    let mut uploads: Vec<String> = actions
        .iter()
        .filter(|a| a.kind == ActionKind::Upload)
        .map(|a| a.path.clone())
        .collect();
    uploads.sort();
    let deletes: Vec<String> = actions
        .iter()
        .filter(|a| a.kind == ActionKind::Delete)
        .map(|a| a.path.clone())
        .collect();
    assert_eq!(uploads, vec!["novels/a.txt".to_string(), "progress.json".to_string()]);
    assert_eq!(deletes, vec!["novels/b.txt".to_string()]);
}

// scanning with unchanged metadata reuses the cached fingerprint and never
// re-reads the file; changed metadata forces a fresh hash
#[test]
fn test_scan_reuses_cached_entry() {
    let mut manifest = SyncManifest::new();
    let e = FileEntry { hash: 77, size: 5, mtime: 1000 };
    manifest.files.insert("novels/a.txt".to_string(), e);

    assert_eq!(manifest.cached_entry("novels/a.txt", 1000, 5), Some(e));
    assert_eq!(manifest.cached_entry("novels/a.txt", 1001, 5), None);
    assert_eq!(manifest.cached_entry("novels/a.txt", 1000, 6), None);
    assert_eq!(manifest.cached_entry("novels/b.txt", 1000, 5), None);
}

// the CRC-32 check value: hashing must not hand its input back
#[test]
fn test_fresh_entry_hashes_contents() {
    let e = fresh_entry(b"123456789", 42, 9);
    assert_eq!(e.hash, 0xCBF43926);
    assert_eq!(e.mtime, 42);
    assert_eq!(e.size, 9);
}

#[test]
fn test_safe_local_path_rejects_traversal() {
    assert_eq!(safe_local_path("/data", ".."), Err(PathError::UnsafePath));
    assert_eq!(safe_local_path("/data", "../evil.txt"), Err(PathError::UnsafePath));
    assert_eq!(safe_local_path("/data", "novels/../../evil.txt"), Err(PathError::UnsafePath));
    assert_eq!(safe_local_path("/data", r"novels\..\evil.txt"), Err(PathError::UnsafePath));
    assert_eq!(safe_local_path("/data", "/etc/passwd"), Err(PathError::UnsafePath));
    assert_eq!(safe_local_path("/data", r"\\server\share"), Err(PathError::UnsafePath));
    assert_eq!(safe_local_path("/data", r"C:\evil.txt"), Err(PathError::UnsafePath));

    assert_eq!(
        safe_local_path("/data", "novels/a.txt"),
        Ok("/data/novels/a.txt".to_string())
    );
    assert_eq!(
        safe_local_path("/data", "novels/..a/b..txt"),
        Ok("/data/novels/..a/b..txt".to_string())
    );
    assert_eq!(safe_local_path("/data", "progress.json"), Ok("/data/progress.json".to_string()));
}

#[test]
fn test_sync_key_and_portable_paths() {
    assert_eq!(
        novels_rel_path(r"C:\Users\alice\.fish_reader\novels\demo.txt"),
        Some("demo.txt".to_string())
    );
    assert_eq!(
        novels_rel_path("/home/bob/.fish_reader/novels/series/part1.txt"),
        Some("series/part1.txt".to_string())
    );
    assert_eq!(novels_rel_path("/tmp/loose.txt"), None);
    assert_eq!(novels_rel_path("/home/bob/.fish_reader/novels"), None);

    assert!(same_novel_path(
        r"C:\Users\alice\.fish_reader\NOVELS\demo.txt",
        "/home/bob/.fish_reader/novels/demo.txt"
    ));
    assert!(!same_novel_path("/tmp/a.txt", "/tmp/b.txt"));

    assert_eq!(
        portable_novel_path("/home/bob/.fish_reader/novels/demo.txt"),
        "novels/demo.txt"
    );
    assert_eq!(portable_novel_path("/tmp/loose.txt"), "/tmp/loose.txt");
    assert_eq!(
        localize_novel_path("novels/demo.txt", "/home/bob/.fish_reader/novels"),
        "/home/bob/.fish_reader/novels/demo.txt"
    );

    // saving writes the portable form; loading localizes it to the same
    // place as loading the original path would
    let original = "/mnt/other/.fish_reader/novels/series/part1.txt";
    let portable = portable_novel_path(original);
    assert_eq!(
        localize_novel_path(&portable, "/home/bob/.fish_reader/novels"),
        localize_novel_path(original, "/home/bob/.fish_reader/novels")
    );
}

#[test]
fn test_title_from_path_edge_cases() {
    assert_eq!(title_from_path("/a/b/story.txt"), "story");
    assert_eq!(title_from_path("story"), "story");
    assert_eq!(title_from_path(".hidden"), ".hidden");
    assert_eq!(title_from_path("a.b.c.txt"), "a.b.c");
    assert_eq!(title_from_path(""), "未知标题");
}

#[test]
fn test_backup_naming_and_pruning() {
    assert_eq!(backup_bucket(1234, 600), 1200);
    assert_eq!(backup_cutoff(1_000_000, 3), 1_000_000 - 3 * 86400);
    assert_eq!(backup_cutoff(10, 3), 0);
    assert_eq!(
        backup_file_name("progress.json", "backup", 1200),
        "progress.json.backup.1200"
    );
    assert!(is_stale_backup("progress.json.backup.100", "progress.json", "backup", 200));
    assert!(!is_stale_backup("progress.json.backup.300", "progress.json", "backup", 200));
    assert!(!is_stale_backup("progress.json.backup.abc", "progress.json", "backup", 200));
    assert!(!is_stale_backup("other.json.backup.100", "progress.json", "backup", 200));
}

#[test]
fn test_stale_backup_handles_oversized_timestamps() {
    // a timestamp too large for u64 can never fall below a u64 cutoff
    assert!(!is_stale_backup(
        "progress.json.backup.99999999999999999999",
        "progress.json",
        "backup",
        u64::MAX
    ));
}

#[test]
fn test_quarantine_file_name() {
    assert_eq!(
        quarantine_file_name("progress.json", 1700000000),
        "progress.json.corrupted.1700000000"
    );
}

#[test]
fn test_parent_dirs_of_nested_upload() {
    assert_eq!(
        parent_dirs("novels/series/part1.txt"),
        vec!["novels".to_string(), "novels/series".to_string()]
    );
    assert_eq!(parent_dirs("progress.json"), Vec::<String>::new());
}

#[test]
fn test_split_segments_ignores_empty_parts() {
    assert_eq!(
        split_segments(r"C:\a//b\c.txt"),
        vec!["C:".to_string(), "a".to_string(), "b".to_string(), "c.txt".to_string()]
    );
}

#[test]
fn test_app_config_defaults() {
    let config = AppConfig::default();
    assert_eq!(config.dir_name, ".fish_reader");
    assert_eq!(config.supported_extensions, vec!["txt".to_string()]);
    assert_eq!(config.progress_filename, "progress.json");
    assert_eq!(config.backup_suffix, "backup");
    assert_eq!(config.backup_timestamp_interval, 600);
    assert_eq!(config.backup_retention_days, 3);
    assert_eq!(config.settings_menu_count, 2);
}

#[test]
fn test_app_state_distinct() {
    assert!(AppState::Bookshelf == AppState::Bookshelf);
    assert!(AppState::Bookshelf != AppState::Reading);
}
