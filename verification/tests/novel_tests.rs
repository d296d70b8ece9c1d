use fish_reader::novel::{find_chapter_index, is_chapter_title, Chapter, Novel};

#[test]
fn test_novel_new() {
    let novel = Novel::new("/path/to/my_novel.txt".to_string());
    assert_eq!(novel.title, "my_novel");
}

#[test]
fn test_is_chapter_title() {
    assert!(is_chapter_title("第一章 标题"));
    assert!(is_chapter_title("第100回"));
    assert!(is_chapter_title("Chapter 1: The Beginning"));
    assert!(is_chapter_title("序章"));
    assert!(is_chapter_title("123."));
    assert!(is_chapter_title("一二三、"));
    assert!(!is_chapter_title("This is a normal line."));
    assert!(!is_chapter_title("第一 章")); // space
}

#[test]
fn test_parse_chapters() {
    let mut novel = Novel::new("test.txt".to_string());
    novel.content = "序章
Some content

第一章 The Real Start
More content
Chapter 2
Final content"
        .to_string();
    novel.parse_chapters();

    assert_eq!(novel.chapters.len(), 3);
    assert_eq!(
        novel.chapters[0],
        Chapter { title: "序章".to_string(), start_line: 0 }
    );
    assert_eq!(
        novel.chapters[1],
        Chapter { title: "第一章 The Real Start".to_string(), start_line: 3 }
    );
    assert_eq!(
        novel.chapters[2],
        Chapter { title: "Chapter 2".to_string(), start_line: 5 }
    );
}

#[test]
fn test_find_chapter_index_boundaries() {
    let chapters = vec![
        Chapter { title: "A".to_string(), start_line: 10 },
        Chapter { title: "B".to_string(), start_line: 20 },
        Chapter { title: "C".to_string(), start_line: 30 },
    ];

    assert_eq!(find_chapter_index(&chapters, 0), 0);
    assert_eq!(find_chapter_index(&chapters, 20), 1);
    assert_eq!(find_chapter_index(&chapters, 999), 2);
}
