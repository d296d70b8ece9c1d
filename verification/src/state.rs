//! Top-level interaction states of the reading application.

use vstd::prelude::*;

verus! {

/// The screen the application is currently showing.
#[derive(Clone, PartialEq, Eq, Structural, Debug)]
pub enum AppState {
    Bookshelf,
    Reading,
    Searching,
    ChapterList,
    Settings,
    BookmarkList,
    BookmarkAdd,
}

/// The sub-mode of the settings screen.
#[derive(Clone, PartialEq, Eq, Structural, Debug)]
pub enum SettingsMode {
    /// Main menu: choose between the settings actions.
    MainMenu,
    /// Deleting a novel file.
    DeleteNovel,
    /// Deleting orphaned progress records.
    DeleteOrphaned,
    /// Editing the remote endpoint configuration.
    WebDavConfig,
}

impl Default for SettingsMode {
    fn default() -> (r: Self)
        ensures
            r == SettingsMode::MainMenu,
    {
        SettingsMode::MainMenu
    }
}

} // verus!
