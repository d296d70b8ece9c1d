use fish_reader::display::{count_physical_lines, navigate_list};
use fish_reader::app_state::{BookmarkState, SearchState, SettingsState};
use fish_reader::state::SettingsMode;

#[test]
fn test_count_physical_lines_empty() {
    assert_eq!(count_physical_lines("", 80), 1);
}

#[test]
fn test_count_physical_lines_zero_width() {
    assert_eq!(count_physical_lines("hello", 0), 1);
}

#[test]
fn test_count_physical_lines_single_line() {
    assert_eq!(count_physical_lines("hello", 80), 1);
}

#[test]
fn test_count_physical_lines_wrap() {
    assert_eq!(count_physical_lines("1234567890", 4), 3);
    assert_eq!(count_physical_lines("12345678", 4), 2);
}

#[test]
fn test_count_physical_lines_chinese() {
    assert_eq!(count_physical_lines("你好", 4), 1);
    assert_eq!(count_physical_lines("你好", 3), 2);
    assert_eq!(count_physical_lines("你好世界", 4), 2);
}

#[test]
fn test_count_physical_lines_exact_fit() {
    assert_eq!(count_physical_lines("1234", 4), 1);
    assert_eq!(count_physical_lines("12345", 5), 1);
}

#[test]
fn test_navigate_list_wrap_and_empty() {
    assert_eq!(navigate_list(None, 3, false), Some(0));
    assert_eq!(navigate_list(Some(0), 3, true), Some(2));
    assert_eq!(navigate_list(Some(2), 3, false), Some(0));
    assert_eq!(navigate_list(Some(0), 0, false), None);
}

#[test]
fn test_search_state_clear() {
    let mut search = SearchState::default();
    search.input = "query".to_string();
    search.results = vec![(1, "result".to_string())];
    search.selected_index = Some(0);

    search.clear();

    assert!(search.input.is_empty());
    assert!(search.results.is_empty());
    assert!(search.selected_index.is_none());
}

#[test]
fn test_settings_state_reset() {
    let mut settings = SettingsState::default();
    settings.mode = SettingsMode::DeleteNovel;
    settings.selected_option = Some(5);

    settings.reset();

    assert_eq!(settings.mode, SettingsMode::MainMenu);
    assert!(settings.selected_option.is_none());
}

#[test]
fn test_clear_bookmark_inputs() {
    let mut bookmark = BookmarkState::default();
    bookmark.input = "some input".to_string();
    bookmark.clear_input();
    assert!(bookmark.input.is_empty());
}
