use fish_reader::library::{Library, NovelInfo};
use fish_reader::model::{Bookmark, ReadingProgress};
use fish_reader::novel::Novel;

fn progress(scroll_offset: u64) -> ReadingProgress {
    ReadingProgress { scroll_offset, bookmarks: Vec::new() }
}

#[test]
fn test_novel_creation() {
    let path = "/tmp/test_novel.txt".to_string();
    let novel = Novel::new(path.clone());

    assert_eq!(novel.title, "test_novel");
    assert_eq!(novel.path, path);
    assert!(novel.content.is_empty());
    assert_eq!(novel.progress.scroll_offset, 0);
    assert!(novel.progress.bookmarks.is_empty());
}

#[test]
fn test_library_progress_management() {
    let mut library = Library::new();
    let novel_path = "/tmp/test_novel.txt";

    library.update_novel_progress(novel_path, progress(10));
    assert_eq!(library.novels.len(), 1);
    assert_eq!(library.get_novel_progress(novel_path), progress(10));

    library.update_novel_progress(novel_path, progress(15));
    assert_eq!(library.novels.len(), 1);
    assert_eq!(library.get_novel_progress(novel_path), progress(15));

    let non_existent = "/tmp/non_existent.txt";
    let default_progress = library.get_novel_progress(non_existent);
    assert_eq!(default_progress.scroll_offset, 0);
    assert!(default_progress.bookmarks.is_empty());
}

#[test]
fn test_reading_progress_default() {
    let progress = ReadingProgress::default();
    assert_eq!(progress.scroll_offset, 0);
    assert!(progress.bookmarks.is_empty());
}

#[test]
fn test_reading_progress_equality() {
    let progress1 = progress(10);
    let progress2 = progress(10);
    let progress3 = progress(5);

    assert_eq!(progress1, progress2);
    assert_ne!(progress1, progress3);
}

#[test]
fn test_novel_title_extraction() {
    let novel1 = Novel::new("/path/to/novel.txt".to_string());
    assert_eq!(novel1.title, "novel");

    let novel2 = Novel::new("/path/to/红楼梦.txt".to_string());
    assert_eq!(novel2.title, "红楼梦");

    let novel3 = Novel::new("/path/to/novel-part1_chapter1😄@@.txt".to_string());
    assert_eq!(novel3.title, "novel-part1_chapter1😄@@");

    let novel4 = Novel::new("/path/to/novel".to_string());
    assert_eq!(novel4.title, "novel");
}

#[test]
fn model_test_library_new() {
    let library = Library::new();
    assert!(library.novels.is_empty());
}

#[test]
fn test_library_multiple_novels() {
    let mut library = Library::new();

    library.update_novel_progress("/tmp/novel1.txt", progress(5));
    library.update_novel_progress("/tmp/novel2.txt", progress(15));
    library.update_novel_progress("/tmp/novel3.txt", progress(25));

    assert_eq!(library.novels.len(), 3);
    assert_eq!(library.get_novel_progress("/tmp/novel1.txt"), progress(5));
    assert_eq!(library.get_novel_progress("/tmp/novel2.txt"), progress(15));
    assert_eq!(library.get_novel_progress("/tmp/novel3.txt"), progress(25));
}

#[test]
fn test_library_same_path_update() {
    let mut library = Library::new();
    let novel_path = "/tmp/same_novel.txt";

    library.update_novel_progress(novel_path, progress(5));
    assert_eq!(library.novels.len(), 1);
    assert_eq!(library.get_novel_progress(novel_path), progress(5));

    library.update_novel_progress(novel_path, progress(15));
    assert_eq!(library.novels.len(), 1);
    assert_eq!(library.get_novel_progress(novel_path), progress(15));
}

#[test]
fn test_library_special_filename() {
    let mut library = Library::new();

    let special_paths = vec![
        "/tmp/小说 with spaces.txt",
        "/tmp/novel-with-dashes.txt",
        "/tmp/novel_with_underscores.txt",
        "/tmp/novel.with.dots.txt",
        "/tmp/红楼梦.txt",
    ];

    for (i, path) in special_paths.iter().enumerate() {
        library.update_novel_progress(path, progress((i as u64) * 10));
    }

    assert_eq!(library.novels.len(), special_paths.len());

    let titles: Vec<&str> = library.novels.iter().map(|n| n.title.as_str()).collect();
    assert!(titles.contains(&"小说 with spaces"));
    assert!(titles.contains(&"novel-with-dashes"));
    assert!(titles.contains(&"novel_with_underscores"));
    assert!(titles.contains(&"novel.with.dots"));
    assert!(titles.contains(&"红楼梦"));
}

#[test]
fn test_bookmarks_stay_sorted_and_replace_on_same_position() {
    let mut progress = ReadingProgress::default();
    progress.add_bookmark("c".to_string(), 30, 3);
    progress.add_bookmark("a".to_string(), 10, 1);
    progress.add_bookmark("b".to_string(), 20, 2);
    let positions: Vec<u64> = progress.bookmarks.iter().map(|b| b.position).collect();
    assert_eq!(positions, vec![10, 20, 30]);

    progress.add_bookmark("b2".to_string(), 20, 9);
    assert_eq!(progress.bookmarks.len(), 3);
    assert_eq!(progress.bookmarks[1].name, "b2");
    assert_eq!(progress.bookmarks[1].timestamp, 9);
}

#[test]
fn test_remove_bookmark_by_index() {
    let mut progress = ReadingProgress::default();
    progress.add_bookmark("a".to_string(), 10, 1);
    progress.add_bookmark("b".to_string(), 20, 2);

    let removed = progress.remove_bookmark(0);
    assert_eq!(
        removed,
        Some(Bookmark { name: "a".to_string(), position: 10, timestamp: 1 })
    );
    assert_eq!(progress.bookmarks.len(), 1);
    assert!(progress.remove_bookmark(5).is_none());
}

#[test]
fn test_update_keeps_existing_title_and_migrates_path() {
    let mut library = Library::new();
    library.novels.push(NovelInfo {
        title: "My Novel".to_string(),
        path: "/old/novels/demo.txt".to_string(),
        progress: progress(7),
    });

    library.update_novel_progress("/new/novels/demo.txt", progress(9));
    assert_eq!(library.novels.len(), 1);
    assert_eq!(library.novels[0].title, "My Novel");
    assert_eq!(library.novels[0].path, "/new/novels/demo.txt");
    assert_eq!(library.novels[0].progress.scroll_offset, 9);
}
