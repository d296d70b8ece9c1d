use fish_reader::library::{Library, NovelInfo};
use fish_reader::model::ReadingProgress;

fn progress(scroll_offset: u64) -> ReadingProgress {
    ReadingProgress { scroll_offset, bookmarks: Vec::new() }
}

#[test]
fn test_update_and_get_progress() {
    let mut library = Library::new();
    let novel_path = "/path/to/novel.txt";

    library.update_novel_progress(novel_path, progress(100));
    assert_eq!(library.get_novel_progress(novel_path), progress(100));
    assert_eq!(library.novels.len(), 1);
    assert_eq!(library.novels[0].title, "novel");

    library.update_novel_progress(novel_path, progress(200));
    assert_eq!(library.get_novel_progress(novel_path), progress(200));
    assert_eq!(library.novels.len(), 1);
}

#[test]
fn library_test_library_new() {
    let library = Library::new();
    assert!(library.novels.is_empty());
}

#[test]
fn test_update_novel_progress_creates_new_entry() {
    let mut library = Library::new();
    let path = "/test/novel.txt";

    library.update_novel_progress(path, progress(50));

    assert_eq!(library.novels.len(), 1);
    assert_eq!(library.novels[0].title, "novel");
    assert_eq!(library.novels[0].progress, progress(50));
}

#[test]
fn test_get_novel_progress_not_found() {
    let library = Library::new();
    let path = "/nonexistent/novel.txt";

    let progress = library.get_novel_progress(path);

    assert_eq!(progress, ReadingProgress::default());
}

#[test]
fn test_get_novel_progress_matches_cross_platform_paths() {
    let mut library = Library::new();
    library.novels.push(NovelInfo {
        title: "demo".to_string(),
        path: r"C:\Users\alice\.fish_reader\novels\demo.txt".to_string(),
        progress: progress(123),
    });

    let found = library.get_novel_progress("/Users/alice/.fish_reader/novels/demo.txt");
    assert_eq!(found.scroll_offset, 123);
}

#[test]
fn test_update_novel_progress_migrates_path_when_sync_key_matches() {
    let mut library = Library::new();
    library.novels.push(NovelInfo {
        title: "demo".to_string(),
        path: r"C:\Users\alice\.fish_reader\novels\demo.txt".to_string(),
        progress: progress(10),
    });

    let local_path = "/Users/alice/.fish_reader/novels/demo.txt";
    library.update_novel_progress(local_path, progress(456));

    assert_eq!(library.novels.len(), 1);
    assert_eq!(library.novels[0].path, local_path);
    assert_eq!(library.novels[0].progress, progress(456));
}

#[test]
fn test_normalize_novel_paths_rewrites_foreign_paths() {
    let mut library = Library::new();
    library.novels.push(NovelInfo {
        title: "demo".to_string(),
        path: r"C:\Users\alice\.fish_reader\novels\demo.txt".to_string(),
        progress: progress(88),
    });
    library.novels.push(NovelInfo {
        title: "loose".to_string(),
        path: "/tmp/loose.txt".to_string(),
        progress: progress(1),
    });

    let changed = library.normalize_novel_paths("/home/bob/.fish_reader/novels");
    assert!(changed);
    assert_eq!(library.novels[0].path, "/home/bob/.fish_reader/novels/demo.txt");
    assert_eq!(library.novels[1].path, "/tmp/loose.txt");

    let changed_again = library.normalize_novel_paths("/home/bob/.fish_reader/novels");
    assert!(!changed_again);
}
