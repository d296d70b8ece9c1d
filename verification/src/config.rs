//! Application-wide configuration values.
//!
//! The configuration is an explicit value handed to whoever needs it, so
//! that tests and embedders can point the store at arbitrary directories
//! without global state.

use vstd::prelude::*;

verus! {

/// Directory names, file names and backup policy of the local store.
pub struct AppConfig {
    /// Name of the per-user data directory.
    pub dir_name: String,
    /// File extensions of tracked novel files.
    pub supported_extensions: Vec<String>,
    /// Name of the progress document.
    pub progress_filename: String,
    /// Backup file infix (full form: `{progress_filename}.{backup_suffix}.{timestamp}`).
    pub backup_suffix: String,
    /// Width of a backup time bucket in seconds; one backup is kept per bucket.
    pub backup_timestamp_interval: u64,
    /// How many days backups are retained.
    pub backup_retention_days: u64,
    /// Number of entries in the settings menu.
    pub settings_menu_count: usize,
}

impl Default for AppConfig {
    /// The stock configuration of the reader.
    fn default() -> (r: Self)
        ensures
            r.dir_name@ == ".fish_reader"@,
            r.supported_extensions@.len() == 1,
            r.supported_extensions@[0]@ == "txt"@,
            r.progress_filename@ == "progress.json"@,
            r.backup_suffix@ == "backup"@,
            r.backup_timestamp_interval == 600,
            r.backup_retention_days == 3,
            r.settings_menu_count == 2,
    {
        let mut exts: Vec<String> = Vec::new();
        exts.push(String::from_str("txt"));
        AppConfig {
            dir_name: String::from_str(".fish_reader"),
            supported_extensions: exts,
            progress_filename: String::from_str("progress.json"),
            backup_suffix: String::from_str("backup"),
            backup_timestamp_interval: 600,
            backup_retention_days: 3,
            settings_menu_count: 2,
        }
    }
}

} // verus!
