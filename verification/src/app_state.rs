//! The plain interaction state carried by the reader application: search,
//! bookmark and settings sub-states.

use vstd::prelude::*;

use crate::library::NovelInfo;
use crate::state::SettingsMode;
use crate::sync_config::WebDavConfig;

verus! {

/// State of the in-novel search screen.
pub struct SearchState {
    /// Text in the search box.
    pub input: String,
    /// Matches: line index and line text.
    pub results: Vec<(usize, String)>,
    /// The selected match.
    pub selected_index: Option<usize>,
}

impl Default for SearchState {
    fn default() -> (r: Self)
        ensures
            r.input@.len() == 0,
            r.results@.len() == 0,
            r.selected_index is None,
    {
        SearchState { input: String::new(), results: Vec::new(), selected_index: None }
    }
}

impl SearchState {
    /// Clears the box, the matches, and the selection.
    pub fn clear(&mut self)
        ensures
            final(self).input@.len() == 0,
            final(self).results@.len() == 0,
            final(self).selected_index is None,
    {
        self.input = String::new();
        self.results = Vec::new();
        self.selected_index = None;
    }
}

/// State of the bookmark screens.
pub struct BookmarkState {
    /// The selected bookmark.
    pub selected_index: Option<usize>,
    /// Text in the new-bookmark name box.
    pub input: String,
}

impl Default for BookmarkState {
    fn default() -> (r: Self)
        ensures
            r.selected_index is None,
            r.input@.len() == 0,
    {
        BookmarkState { selected_index: None, input: String::new() }
    }
}

impl BookmarkState {
    /// Clears the name box.
    pub fn clear_input(&mut self)
        ensures
            final(self).input@.len() == 0,
            final(self).selected_index == old(self).selected_index,
    {
        self.input = String::new();
    }
}

/// State of the endpoint-configuration editor.
pub struct WebDavConfigState {
    /// The selected field.
    pub selected_field: usize,
    /// The configuration being edited.
    pub temp_config: WebDavConfig,
    /// Whether a field is being typed into.
    pub edit_mode: bool,
    /// Whether the password is shown in clear.
    pub show_password: bool,
    /// Outcome of the last connection test.
    pub connection_status: Option<Result<(), String>>,
}

impl Default for WebDavConfigState {
    fn default() -> (r: Self)
        ensures
            r.selected_field == 0,
            !r.edit_mode,
            !r.show_password,
            r.connection_status is None,
    {
        WebDavConfigState {
            selected_field: 0,
            temp_config: WebDavConfig::default(),
            edit_mode: false,
            show_password: false,
            connection_status: None,
        }
    }
}

/// State of the settings screens.
pub struct SettingsState {
    /// The settings sub-mode shown.
    pub mode: SettingsMode,
    /// The selected main-menu entry.
    pub selected_option: Option<usize>,
    /// The novel selected for deletion.
    pub selected_delete_novel_index: Option<usize>,
    /// Tracked novels whose file is gone from disk.
    pub orphaned_novels: Vec<NovelInfo>,
    /// The selected orphaned record.
    pub selected_orphaned_index: Option<usize>,
    /// The endpoint editor's state.
    pub webdav_config_state: WebDavConfigState,
}

impl Default for SettingsState {
    fn default() -> (r: Self)
        ensures
            r.mode == SettingsMode::MainMenu,
            r.selected_option is None,
            r.selected_delete_novel_index is None,
            r.orphaned_novels@.len() == 0,
            r.selected_orphaned_index is None,
    {
        SettingsState {
            mode: SettingsMode::MainMenu,
            selected_option: None,
            selected_delete_novel_index: None,
            orphaned_novels: Vec::new(),
            selected_orphaned_index: None,
            webdav_config_state: WebDavConfigState::default(),
        }
    }
}

impl SettingsState {
    /// Returns the settings screens to the main menu and discards any
    /// half-edited endpoint configuration.
    pub fn reset(&mut self)
        ensures
            final(self).mode == SettingsMode::MainMenu,
            final(self).selected_option is None,
            !final(self).webdav_config_state.edit_mode,
            final(self).orphaned_novels == old(self).orphaned_novels,
    {
        self.mode = SettingsMode::MainMenu;
        self.selected_option = None;
        self.webdav_config_state = WebDavConfigState::default();
    }
}

} // verus!
