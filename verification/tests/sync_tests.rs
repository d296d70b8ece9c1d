use fish_reader::diff::{diff_for_download, diff_for_upload, ActionKind, DiffAction};
use fish_reader::manifest::{FileEntry, FileMap, SyncManifest};
use fish_reader::metadata::SyncMetadata;
use fish_reader::sync::{remote_base, remote_file_path, SyncStatus};
use fish_reader::sync_config::WebDavConfig;

fn entry(hash: u32) -> FileEntry {
    FileEntry { hash, size: 1, mtime: 1 }
}

fn map_of(entries: &[(&str, u32)]) -> FileMap {
    let mut m = FileMap::new();
    for (path, hash) in entries {
        m.insert(path.to_string(), entry(*hash));
    }
    m
}

fn split_actions(actions: Vec<DiffAction>, first: ActionKind, panic_on: ActionKind, msg: &str) -> (Vec<String>, Vec<String>) {
    let mut firsts = Vec::new();
    let mut deletes = Vec::new();
    for action in actions {
        if action.kind == panic_on {
            panic!("{}", msg);
        } else if action.kind == first {
            firsts.push(action.path);
        } else {
            deletes.push(action.path);
        }
    }
    firsts.sort();
    deletes.sort();
    (firsts, deletes)
}

#[test]
fn test_diff_for_upload_detects_upload_and_delete() {
    let local = map_of(&[("novels/same.txt", 10), ("novels/changed.txt", 20), ("progress.json", 30)]);
    let remote = map_of(&[("novels/same.txt", 10), ("novels/changed.txt", 99), ("novels/removed.txt", 40)]);

    let actions = diff_for_upload(&local, &remote);
    let (uploads, deletes) = split_actions(
        actions,
        ActionKind::Upload,
        ActionKind::Download,
        "unexpected download action",
    );

    assert_eq!(
        uploads,
        vec!["novels/changed.txt".to_string(), "progress.json".to_string()]
    );
    assert_eq!(deletes, vec!["novels/removed.txt".to_string()]);
}

#[test]
fn test_diff_for_download_detects_download_and_delete() {
    let local = map_of(&[("novels/same.txt", 10), ("novels/changed.txt", 20), ("novels/local_only.txt", 30)]);
    let remote = map_of(&[("novels/same.txt", 10), ("novels/changed.txt", 99), ("progress.json", 40)]);

    let actions = diff_for_download(&local, &remote);
    let (downloads, deletes) = split_actions(
        actions,
        ActionKind::Download,
        ActionKind::Upload,
        "unexpected upload action",
    );

    assert_eq!(
        downloads,
        vec!["novels/changed.txt".to_string(), "progress.json".to_string()]
    );
    assert_eq!(deletes, vec!["novels/local_only.txt".to_string()]);
}

#[test]
fn mod_test_diff_for_upload_detects_upload_and_delete() {
    let local = map_of(&[("novels/same.txt", 10), ("novels/changed.txt", 20), ("progress.json", 30)]);
    let remote = map_of(&[("novels/same.txt", 10), ("novels/changed.txt", 99), ("novels/removed.txt", 40)]);

    let actions = diff_for_upload(&local, &remote);
    let (uploads, deletes) = split_actions(
        actions,
        ActionKind::Upload,
        ActionKind::Download,
        "unexpected download action",
    );

    assert_eq!(
        uploads,
        vec!["novels/changed.txt".to_string(), "progress.json".to_string()]
    );
    assert_eq!(deletes, vec!["novels/removed.txt".to_string()]);
}

#[test]
fn mod_test_diff_for_download_detects_download_and_delete() {
    let local = map_of(&[("novels/same.txt", 10), ("novels/changed.txt", 20), ("novels/local_only.txt", 30)]);
    let remote = map_of(&[("novels/same.txt", 10), ("novels/changed.txt", 99), ("progress.json", 40)]);

    let actions = diff_for_download(&local, &remote);
    let (downloads, deletes) = split_actions(
        actions,
        ActionKind::Download,
        ActionKind::Upload,
        "unexpected upload action",
    );

    assert_eq!(
        downloads,
        vec!["novels/changed.txt".to_string(), "progress.json".to_string()]
    );
    assert_eq!(deletes, vec!["novels/local_only.txt".to_string()]);
}

#[test]
fn test_diff_no_actions_when_hashes_agree() {
    let local = map_of(&[("novels/a.txt", 7)]);
    let remote = map_of(&[("novels/a.txt", 7)]);
    assert!(diff_for_upload(&local, &remote).is_empty());
    assert!(diff_for_download(&local, &remote).is_empty());
}

#[test]
fn test_file_map_insert_and_get() {
    let mut m = FileMap::new();
    assert!(m.get("a").is_none());
    m.insert("a".to_string(), entry(1));
    m.insert("b".to_string(), entry(2));
    m.insert("a".to_string(), entry(3));
    assert_eq!(m.num_entries(), 2);
    assert_eq!(m.get("a"), Some(entry(3)));
    assert_eq!(m.get("b"), Some(entry(2)));
    assert!(!m.contains_key("c"));
}

#[test]
fn test_manifest_new_is_empty() {
    let m = SyncManifest::new();
    assert_eq!(m.version, 1);
    assert_eq!(m.last_sync, 0);
    assert_eq!(m.files.num_entries(), 0);
}

#[test]
fn test_default_config() {
    let config = WebDavConfig::default();
    assert!(!config.enabled);
    assert!(config.url.is_empty());
}

#[test]
fn test_is_configured_needs_enabled_and_url() {
    let mut config = WebDavConfig::default();
    assert!(!config.is_configured());
    config.enabled = true;
    assert!(!config.is_configured());
    config.url = "http://example.invalid/dav".to_string();
    assert!(config.is_configured());
}

#[test]
fn test_default_metadata() {
    let meta = SyncMetadata::default();
    assert_eq!(meta.version, 0);
}

#[test]
fn test_increment_version() {
    let mut meta = SyncMetadata::default();
    meta.increment_version();
    assert_eq!(meta.version, 1);
    assert!(meta.timestamp > 0);
}

#[test]
fn test_sync_status_text_mapping() {
    assert_eq!(SyncStatus::Idle.text(), "");
    assert_eq!(SyncStatus::InProgress("loading".to_string()).text(), "loading");
    assert_eq!(SyncStatus::Success("ok".to_string()).text(), "ok");
    assert_eq!(SyncStatus::Error("bad".to_string()).text(), "bad");
}

#[test]
fn test_sync_status_is_busy_only_for_in_progress() {
    assert!(!SyncStatus::Idle.is_busy());
    assert!(SyncStatus::InProgress("x".to_string()).is_busy());
    assert!(!SyncStatus::Success("x".to_string()).is_busy());
    assert!(!SyncStatus::Error("x".to_string()).is_busy());
}

#[test]
fn test_remote_paths() {
    assert_eq!(remote_base("/fish_reader/"), "/fish_reader");
    assert_eq!(remote_file_path("/fish_reader/", "notes.json"), "/fish_reader/notes.json");
    assert_eq!(
        remote_file_path("/fish_reader", "novels/a.txt"),
        "/fish_reader/novels/a.txt"
    );
}
