use fish_reader::library::{Library, NovelInfo};
use fish_reader::merge::{merge_libraries, merge_novel, merge_progress_docs};
use fish_reader::model::{Bookmark, ReadingProgress};

fn bookmark(name: &str, position: u64, timestamp: u64) -> Bookmark {
    Bookmark { name: name.to_string(), position, timestamp }
}

fn novel(title: &str, path: &str, scroll_offset: u64, bookmarks: Vec<Bookmark>) -> NovelInfo {
    NovelInfo {
        title: title.to_string(),
        path: path.to_string(),
        progress: ReadingProgress { scroll_offset, bookmarks },
    }
}

#[test]
fn test_merge_novel_uses_max_offset_and_dedup_bookmarks() {
    let local = novel(
        "A",
        "/local/.fish_reader/novels/A.txt",
        200,
        vec![bookmark("l10", 10, 1), bookmark("l20", 20, 2)],
    );
    let remote = novel(
        "A",
        "/remote/.fish_reader/novels/A.txt",
        100,
        vec![bookmark("r10", 10, 9), bookmark("r30", 30, 3)],
    );

    let merged = merge_novel(&local, &remote);
    assert_eq!(merged.progress.scroll_offset, 200);

    let positions: Vec<u64> = merged.progress.bookmarks.iter().map(|b| b.position).collect();
    assert_eq!(positions, vec![10, 20, 30]);
    assert_eq!(merged.progress.bookmarks[0].name, "r10");

    // the document-level merge also rewrites the path to its portable form
    let local_doc = Library { novels: vec![local] };
    let remote_doc = Library { novels: vec![remote] };
    let merged_doc = merge_libraries(&local_doc, &remote_doc);
    assert_eq!(merged_doc.novels[0].path, "novels/A.txt");
}

#[test]
fn test_merge_library_json_merges_common_and_keeps_unique() {
    let local = Library {
        novels: vec![
            novel("A", "/local/.fish_reader/novels/A.txt", 8, Vec::new()),
            novel("L-only", "/local/.fish_reader/novels/L-only.txt", 1, Vec::new()),
        ],
    };
    let remote = Library {
        novels: vec![
            novel("A", "/remote/.fish_reader/novels/A.txt", 5, Vec::new()),
            novel("R-only", "/remote/.fish_reader/novels/R-only.txt", 2, Vec::new()),
        ],
    };

    let merged = merge_libraries(&local, &remote);
    assert_eq!(merged.novels.len(), 3);

    let a = merged.novels.iter().find(|n| n.title == "A").unwrap();
    assert_eq!(a.progress.scroll_offset, 8);
    assert_eq!(a.path, "novels/A.txt");
    let l_only = merged.novels.iter().find(|n| n.title == "L-only").unwrap();
    assert_eq!(l_only.path, "novels/L-only.txt");
    let r_only = merged.novels.iter().find(|n| n.title == "R-only").unwrap();
    assert_eq!(r_only.path, "novels/R-only.txt");
    assert!(merged.novels.iter().any(|n| n.title == "L-only"));
    assert!(merged.novels.iter().any(|n| n.title == "R-only"));
}

#[test]
fn mod_test_merge_novel_uses_max_offset_and_dedup_bookmarks() {
    let local = novel(
        "A",
        "/local/.fish_reader/novels/A.txt",
        200,
        vec![bookmark("l10", 10, 1), bookmark("l20", 20, 2)],
    );
    let remote = novel(
        "A",
        "/remote/.fish_reader/novels/A.txt",
        100,
        vec![bookmark("r10", 10, 9), bookmark("r30", 30, 3)],
    );

    let merged = merge_novel(&local, &remote);
    assert_eq!(merged.progress.scroll_offset, 200);
    assert_eq!(merged.path, "/local/.fish_reader/novels/A.txt");

    let positions: Vec<u64> = merged.progress.bookmarks.iter().map(|b| b.position).collect();
    assert_eq!(positions, vec![10, 20, 30]);
    assert_eq!(merged.progress.bookmarks[0].name, "r10");
}

#[test]
fn mod_test_merge_library_json_merges_common_and_keeps_unique() {
    let local = Library {
        novels: vec![
            novel("A", "/local/.fish_reader/novels/A.txt", 8, Vec::new()),
            novel("L-only", "/local/.fish_reader/novels/L-only.txt", 1, Vec::new()),
        ],
    };
    let remote = Library {
        novels: vec![
            novel("A", "/remote/.fish_reader/novels/A.txt", 5, Vec::new()),
            novel("R-only", "/remote/.fish_reader/novels/R-only.txt", 2, Vec::new()),
        ],
    };

    let merged = merge_libraries(&local, &remote);
    let titles: Vec<&str> = merged.novels.iter().map(|n| n.title.as_str()).collect();
    assert_eq!(merged.novels.len(), 3);
    assert!(titles.contains(&"A"));
    assert!(titles.contains(&"L-only"));
    assert!(titles.contains(&"R-only"));
    let a = merged.novels.iter().find(|n| n.title == "A").unwrap();
    assert_eq!(a.progress.scroll_offset, 8);
    assert_eq!(a.path, "novels/A.txt");
}

#[test]
fn test_merge_progress_docs_uses_remote_without_local() {
    let remote = Library {
        novels: vec![novel("A", "novels/A.txt", 5, Vec::new())],
    };
    let merged = merge_progress_docs(&None, &remote);
    assert_eq!(merged.novels.len(), 1);
    assert_eq!(merged.novels[0].title, "A");
    assert_eq!(merged.novels[0].path, "novels/A.txt");
    assert_eq!(merged.novels[0].progress.scroll_offset, 5);
}
