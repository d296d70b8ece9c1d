//! Sync metadata: a version counter and the time it was last bumped.

use vstd::prelude::*;

verus! {

/// Relies on `std::time::SystemTime::now`: the seconds since the Unix
/// epoch, or zero should the clock read before the epoch. Nothing is
/// promised of the value.
#[verifier::external_body]
fn now_epoch_secs() -> u64 {
    match std::time::SystemTime::now().duration_since(std::time::UNIX_EPOCH) {
        Ok(d) => d.as_secs(),
        Err(_) => 0,
    }
}

/// Version counter of the synced state, with the files it covered.
#[derive(Debug, PartialEq)]
pub struct SyncMetadata {
    pub version: u64,
    pub timestamp: u64,
    pub file_list: Vec<String>,
}

impl Default for SyncMetadata {
    /// Metadata of a never-synced store.
    fn default() -> (r: Self)
        ensures
            r.version == 0,
            r.timestamp == 0,
            r.file_list@.len() == 0,
    {
        SyncMetadata { version: 0, timestamp: 0, file_list: Vec::new() }
    }
}

impl SyncMetadata {
    /// Bumps the version by one and stamps the current time.
    pub fn increment_version(&mut self)
        requires
            old(self).version < u64::MAX,
        ensures
            final(self).version == old(self).version + 1,
            final(self).file_list == old(self).file_list,
    {
        self.version = self.version + 1;
        self.timestamp = now_epoch_secs();
    }
}

} // verus!
