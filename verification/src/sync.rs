//! The sync engine's decision layer: messages, remote path construction,
//! and the manifest finalized after a successful upload.
//!
//! The embedding application runs the transfer loops; every choice they
//! make — which files move, where they go, which paths are safe — is
//! computed here.

use vstd::prelude::*;

use crate::manifest::{FileMap, SyncManifest};
use crate::paths::{spec_segments, spec_join, split_segments};
use crate::strutil::str_eq;

verus! {

/// A progress report from a running sync operation.
#[derive(Debug, PartialEq)]
pub enum SyncMessage {
    /// A human-readable progress line for the status bar.
    Progress(String),
    /// The upload pipeline ran to completion.
    UploadComplete,
    /// The download pipeline ran to completion; local data needs reloading.
    DownloadComplete,
    /// The operation aborted with the given message.
    Failed(String),
}

/// What the status bar shows about syncing.
#[derive(Debug, PartialEq)]
pub enum SyncStatus {
    Idle,
    InProgress(String),
    Success(String),
    Error(String),
}

impl SyncStatus {
    /// The text to show: empty when idle, else the carried message.
    pub fn text(&self) -> (r: &str)
        ensures
            match self {
                SyncStatus::Idle => r@.len() == 0,
                SyncStatus::InProgress(m) => r@ == m@,
                SyncStatus::Success(m) => r@ == m@,
                SyncStatus::Error(m) => r@ == m@,
            },
    {
        proof {
            reveal_strlit("");
        }
        match self {
            SyncStatus::Idle => "",
            SyncStatus::InProgress(m) => m.as_str(),
            SyncStatus::Success(m) => m.as_str(),
            SyncStatus::Error(m) => m.as_str(),
        }
    }

    /// Only a sync in progress blocks a new request.
    pub fn is_busy(&self) -> (r: bool)
        ensures
            r == (self is InProgress),
    {
        match self {
            SyncStatus::InProgress(_) => true,
            _ => false,
        }
    }
}

/// A string with its trailing `'/'` characters removed.
pub open spec fn spec_trim_trailing_slashes(s: Seq<char>) -> Seq<char>
    decreases s.len(),
{
    if s.len() > 0 && s.last() == '/' {
        spec_trim_trailing_slashes(s.drop_last())
    } else {
        s
    }
}

proof fn lemma_trim_trailing_at(s: Seq<char>, b: int)
    requires
        0 <= b <= s.len(),
        forall|k: int| b <= k < s.len() ==> #[trigger] s[k] == '/',
        b > 0 ==> s[b - 1] != '/',
    ensures
        spec_trim_trailing_slashes(s) == s.take(b),
    decreases s.len(),
{
    if b == s.len() {
        assert(s.take(b) =~= s);
    } else {
        lemma_trim_trailing_at(s.drop_last(), b);
        assert(s.drop_last().take(b) =~= s.take(b));
    }
}

/// The remote base collection: the configured remote path without its
/// trailing slashes.
pub fn remote_base(remote_path: &str) -> (r: String)
    ensures
        r@ == spec_trim_trailing_slashes(remote_path@),
{
    let n = remote_path.unicode_len();
    let mut b: usize = n;
    while b > 0 && remote_path.get_char(b - 1) == '/'
        invariant
            n == remote_path@.len(),
            b <= n,
            forall|k: int| b <= k < n ==> #[trigger] remote_path@[k] == '/',
        decreases b,
    {
        b = b - 1;
    }
    proof {
        lemma_trim_trailing_at(remote_path@, b as int);
    }
    let t = remote_path.substring_char(0, b);
    proof {
        assert(t@ =~= spec_trim_trailing_slashes(remote_path@));
    }
    t.to_owned()
}

/// The remote path of one synced file: the trimmed base, a slash, and the
/// relative file name.
pub fn remote_file_path(remote_path: &str, filename: &str) -> (r: String)
    ensures
        r@ == spec_trim_trailing_slashes(remote_path@) + seq!['/'] + filename@,
{
    let mut out = remote_base(remote_path);
    out.append("/");
    out.append(filename);
    proof {
        reveal_strlit("/");
        assert("/"@ =~= seq!['/']);
    }
    out
}

/// Whether a relative path names the progress document, which is merged on
/// download rather than overwritten.
pub fn is_progress_path(rel_path: &str) -> (r: bool)
    ensures
        r == (rel_path@ == "progress.json"@),
{
    str_eq(rel_path, "progress.json")
}

/// The cumulative parent directories of a relative path: for each proper
/// ancestor, its segments joined with `'/'`, shortest first. These are the
/// collections to create before uploading the file.
pub open spec fn spec_parent_prefixes(p: Seq<char>) -> Seq<Seq<char>> {
    let segs = spec_segments(p);
    if segs.len() == 0 {
        Seq::<Seq<char>>::empty()
    } else {
        Seq::new((segs.len() - 1) as nat, |i: int| spec_join(segs.take(i + 1)))
    }
}

/// The parent collections to create, in creation order, for one upload.
pub fn parent_dirs(rel_path: &str) -> (r: Vec<String>)
    ensures
        r.deep_view() == spec_parent_prefixes(rel_path@),
{
    let segs = split_segments(rel_path);
    let n = segs.len();
    let mut out: Vec<String> = Vec::new();
    if n == 0 {
        proof {
            assert(out.deep_view() =~~= spec_parent_prefixes(rel_path@));
        }
        return out;
    }
    let mut cum = String::new();
    let mut i: usize = 0;
    while i + 1 < n
        invariant
            n == segs@.len(),
            n >= 1,
            i <= n - 1,
            segs.deep_view() == spec_segments(rel_path@),
            out.deep_view().len() == i,
            forall|k: int|
                0 <= k < i ==> #[trigger] out.deep_view()[k] == spec_join(
                    spec_segments(rel_path@).take(k + 1),
                ),
            i > 0 ==> cum@ == spec_join(spec_segments(rel_path@).take(i as int)),
            i == 0 ==> cum@.len() == 0,
        decreases n - i,
    {
        let ghost segsv = spec_segments(rel_path@);
        proof {
            assert(segs.deep_view()[i as int] == segs@[i as int]@);
            assert(segsv.take(i + 1).drop_last() =~~= segsv.take(i as int));
            assert(segsv.take(i + 1).last() == segsv[i as int]);
        }
        if i > 0 {
            cum.append("/");
            proof {
                reveal_strlit("/");
                assert("/"@ =~= seq!['/']);
            }
        }
        cum.append(segs[i].as_str());
        proof {
            if i == 0 {
                assert(segsv.take(1).len() == 1);
                assert(cum@ =~= spec_join(segsv.take(1)));
            } else {
                assert(cum@ =~= spec_join(segsv.take(i + 1)));
            }
        }
        let ghost out0 = out.deep_view();
        out.push(cum.clone());
        proof {
            assert(out.deep_view() =~~= out0.push(cum@));
        }
        i = i + 1;
    }
    proof {
        assert(out.deep_view() =~~= spec_parent_prefixes(rel_path@));
    }
    out
}

/// The manifest persisted and uploaded after a fully successful upload run:
/// version 1, stamped with the given time, carrying the scanned files.
pub fn finalize_manifest(files: FileMap, now: u64) -> (r: SyncManifest)
    ensures
        r.version == 1,
        r.last_sync == now,
        r.files == files,
{
    SyncManifest { version: 1, last_sync: now, files }
}

} // verus!
