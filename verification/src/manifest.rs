//! The sync manifest: a versioned map from relative file path to content
//! fingerprint, used to detect changes without re-reading file bytes.

use vstd::prelude::*;

verus! {

/// Per-file fingerprint: content hash plus the metadata it was taken under.
#[derive(Clone, Copy, Debug, PartialEq, Eq, Structural)]
pub struct FileEntry {
    /// Content hash of the file bytes.
    pub hash: u32,
    /// File size in bytes.
    pub size: u64,
    /// Modification time, in seconds since the epoch.
    pub mtime: u64,
}

/// The CRC-32 checksum of a byte sequence, as `crc32fast` computes it:
/// a function of the bytes alone.
pub uninterp spec fn crc32_of(data: Seq<u8>) -> u32;

/// Relies on `crc32fast::hash`: the IEEE CRC-32 of the bytes, which depends
/// on the bytes alone.
#[verifier::external_body]
fn crc32(data: &[u8]) -> (r: u32)
    ensures
        r == crc32_of(data@),
{
    crc32fast::hash(data)
}

/// A finite map from relative path to [`FileEntry`], stored as an
/// association list with pairwise distinct keys.
pub struct FileMap {
    entries: Vec<(String, FileEntry)>,
}

/// The map denoted by an association list, later bindings winning.
pub open spec fn map_of(s: Seq<(Seq<char>, FileEntry)>) -> Map<Seq<char>, FileEntry>
    decreases s.len(),
{
    if s.len() == 0 {
        Map::<Seq<char>, FileEntry>::empty()
    } else {
        map_of(s.drop_last()).insert(s.last().0, s.last().1)
    }
}

proof fn lemma_map_of_dom(s: Seq<(Seq<char>, FileEntry)>)
    ensures
        forall|k: Seq<char>|
            map_of(s).dom().contains(k) <==> exists|i: int| 0 <= i < s.len() && (#[trigger] s[i]).0
                == k,
    decreases s.len(),
{
    if s.len() > 0 {
        lemma_map_of_dom(s.drop_last());
        assert forall|k: Seq<char>| map_of(s).dom().contains(k) implies exists|i: int|
            0 <= i < s.len() && (#[trigger] s[i]).0 == k by {
            if k == s.last().0 {
                assert((s[s.len() - 1]).0 == k);
            } else {
                assert(map_of(s.drop_last()).dom().contains(k));
                let i = choose|i: int|
                    0 <= i < s.drop_last().len() && (#[trigger] s.drop_last()[i]).0 == k;
                assert(s.drop_last()[i] == s[i]);
                assert((s[i]).0 == k);
            }
        }
        assert forall|k: Seq<char>|
            (exists|i: int| 0 <= i < s.len() && (#[trigger] s[i]).0 == k) implies map_of(
            s,
        ).dom().contains(k) by {
            let i = choose|i: int| 0 <= i < s.len() && (#[trigger] s[i]).0 == k;
            if i < s.len() - 1 {
                assert(s.drop_last()[i] == s[i]);
                assert((s.drop_last()[i]).0 == k);
                assert(map_of(s.drop_last()).dom().contains(k));
            }
        }
    }
}

proof fn lemma_map_of_val(s: Seq<(Seq<char>, FileEntry)>, i: int)
    requires
        0 <= i < s.len(),
        forall|a: int, b: int| 0 <= a < b < s.len() ==> (#[trigger] s[a]).0 != (#[trigger] s[b]).0,
    ensures
        map_of(s).dom().contains(s[i].0),
        map_of(s)[s[i].0] == s[i].1,
    decreases s.len(),
{
    lemma_map_of_dom(s);
    if i == s.len() - 1 {
    } else {
        lemma_map_of_val(s.drop_last(), i);
        assert(s[i].0 != s.last().0);
    }
}

impl View for FileMap {
    type V = Map<Seq<char>, FileEntry>;

    closed spec fn view(&self) -> Map<Seq<char>, FileEntry> {
        map_of(self.entries_seq())
    }
}

impl FileMap {
    /// The key/value pairs in storage order.
    pub closed spec fn entries_seq(&self) -> Seq<(Seq<char>, FileEntry)> {
        Seq::new(self.entries@.len(), |i: int| (self.entries@[i].0@, self.entries@[i].1))
    }

    /// Keys are pairwise distinct. Constructors establish this and every
    /// mutating operation preserves it.
    pub closed spec fn wf(&self) -> bool {
        forall|a: int, b: int|
            0 <= a < b < self.entries_seq().len() ==> (#[trigger] self.entries_seq()[a]).0 != (
            #[trigger] self.entries_seq()[b]).0
    }

    /// The stored pairs are pairwise distinct in key, each pair is in the
    /// map, and every map entry comes from a pair.
    pub proof fn lemma_entries(&self)
        requires
            self.wf(),
        ensures
            forall|a: int, b: int|
                0 <= a < b < self.entries_seq().len() ==> (#[trigger] self.entries_seq()[a]).0 != (
                #[trigger] self.entries_seq()[b]).0,
            forall|i: int|
                0 <= i < self.entries_seq().len() ==> self@.dom().contains(
                    (#[trigger] self.entries_seq()[i]).0,
                ) && self@[self.entries_seq()[i].0] == self.entries_seq()[i].1,
            forall|k: Seq<char>|
                self@.dom().contains(k) <==> exists|i: int|
                    0 <= i < self.entries_seq().len() && (#[trigger] self.entries_seq()[i]).0 == k,
    {
        lemma_map_of_dom(self.entries_seq());
        assert forall|i: int| 0 <= i < self.entries_seq().len() implies self@.dom().contains(
            (#[trigger] self.entries_seq()[i]).0,
        ) && self@[self.entries_seq()[i].0] == self.entries_seq()[i].1 by {
            lemma_map_of_val(self.entries_seq(), i);
        }
    }

    /// An empty map.
    pub fn new() -> (r: Self)
        ensures
            r@ == Map::<Seq<char>, FileEntry>::empty(),
            r.wf(),
    {
        let r = FileMap { entries: Vec::new() };
        proof {
            assert(r.entries_seq() =~= Seq::<(Seq<char>, FileEntry)>::empty());
        }
        r
    }

    /// The number of stored entries.
    pub fn num_entries(&self) -> (r: usize)
        ensures
            r == self.entries_seq().len(),
    {
        self.entries.len()
    }

    /// The key of the entry at `i`.
    pub fn key_at(&self, i: usize) -> (r: &String)
        requires
            i < self.entries_seq().len(),
        ensures
            r@ == self.entries_seq()[i as int].0,
    {
        &self.entries[i].0
    }

    /// The fingerprint of the entry at `i`.
    pub fn entry_at(&self, i: usize) -> (r: FileEntry)
        requires
            i < self.entries_seq().len(),
        ensures
            r == self.entries_seq()[i as int].1,
    {
        self.entries[i].1
    }

    /// Looks a path up.
    pub fn get(&self, path: &str) -> (r: Option<FileEntry>)
        requires
            self.wf(),
        ensures
            match r {
                Some(e) => self@.dom().contains(path@) && e == self@[path@],
                None => !self@.dom().contains(path@),
            },
    {
        proof {
            self.lemma_entries();
        }
        let n = self.entries.len();
        let mut i: usize = 0;
        while i < n
            invariant
                n == self.entries@.len(),
                n == self.entries_seq().len(),
                i <= n,
                forall|k: int| 0 <= k < i ==> (#[trigger] self.entries_seq()[k]).0 != path@,
                forall|a: int, b: int|
                    0 <= a < b < n ==> (#[trigger] self.entries_seq()[a]).0 != (
                    #[trigger] self.entries_seq()[b]).0,
                forall|j: int|
                    0 <= j < n ==> self@.dom().contains((#[trigger] self.entries_seq()[j]).0)
                        && self@[self.entries_seq()[j].0] == self.entries_seq()[j].1,
                forall|k: Seq<char>|
                    self@.dom().contains(k) ==> exists|j: int|
                        0 <= j < n && (#[trigger] self.entries_seq()[j]).0 == k,
            decreases n - i,
        {
            proof {
                assert(self.entries_seq()[i as int] == (
                    self.entries@[i as int].0@,
                    self.entries@[i as int].1,
                ));
            }
            if crate::strutil::str_eq(self.entries[i].0.as_str(), path) {
                return Some(self.entries[i].1);
            }
            i = i + 1;
        }
        None
    }

    /// True when the map holds `path`.
    pub fn contains_key(&self, path: &str) -> (r: bool)
        requires
            self.wf(),
        ensures
            r == self@.dom().contains(path@),
    {
        match self.get(path) {
            Some(_) => true,
            None => false,
        }
    }

    /// Adds or replaces the entry for `path`.
    pub fn insert(&mut self, path: String, entry: FileEntry)
        requires
            old(self).wf(),
        ensures
            final(self)@ == old(self)@.insert(path@, entry),
            final(self).wf(),
    {
        proof {
            self.lemma_entries();
        }
        let ghost s0 = self.entries_seq();
        let mut es: Vec<(String, FileEntry)> = Vec::new();
        core::mem::swap(&mut es, &mut self.entries);
        let n = es.len();
        let mut i: usize = 0;
        let mut found = false;
        while i < n && !found
            invariant
                n == es@.len(),
                i <= n,
                Seq::new(es@.len(), |j: int| (es@[j].0@, es@[j].1)) == s0,
                !found ==> forall|k: int| 0 <= k < i ==> (#[trigger] s0[k]).0 != path@,
                found ==> i > 0 && s0[i - 1].0 == path@,
            decreases n - i + (if found { 0int } else { 1int }),
        {
            if crate::strutil::str_eq(es[i].0.as_str(), path.as_str()) {
                found = true;
            }
            i = i + 1;
        }
        if found {
            es.remove(i - 1);
            es.insert(i - 1, (path, entry));
        } else {
            es.push((path, entry));
        }
        let ghost s1 = Seq::new(es@.len(), |j: int| (es@[j].0@, es@[j].1));
        proof {
            if found {
                assert(s1 =~= s0.update(i - 1, (path@, entry)));
            } else {
                assert(s1 =~= s0.push((path@, entry)));
            }
            lemma_map_of_insert(s0, s1, path@, entry, if found { i - 1 } else { s0.len() as int });
        }
        self.entries = es;
    }
}

/// Replacing or appending a binding updates the denoted map accordingly.
proof fn lemma_map_of_insert(
    s0: Seq<(Seq<char>, FileEntry)>,
    s1: Seq<(Seq<char>, FileEntry)>,
    key: Seq<char>,
    entry: FileEntry,
    i: int,
)
    requires
        0 <= i <= s0.len(),
        forall|a: int, b: int| 0 <= a < b < s0.len() ==> (#[trigger] s0[a]).0 != (#[trigger] s0[b]).0,
        i < s0.len() ==> s0[i].0 == key,
        i == s0.len() ==> !(exists|j: int| 0 <= j < s0.len() && (#[trigger] s0[j]).0 == key),
        s1 == if i < s0.len() {
            s0.update(i, (key, entry))
        } else {
            s0.push((key, entry))
        },
    ensures
        map_of(s1) == map_of(s0).insert(key, entry),
        forall|a: int, b: int| 0 <= a < b < s1.len() ==> (#[trigger] s1[a]).0 != (#[trigger] s1[b]).0,
{
    lemma_map_of_dom(s0);
    lemma_map_of_dom(s1);
    assert forall|a: int, b: int| 0 <= a < b < s1.len() implies (#[trigger] s1[a]).0 != (
    #[trigger] s1[b]).0 by {
        if i == s0.len() {
            if b == s1.len() - 1 {
                assert((s1[a]).0 == (s0[a]).0);
            }
        }
    }
    assert forall|k: Seq<char>|
        map_of(s1).dom().contains(k) == map_of(s0).insert(key, entry).dom().contains(k) by {
        if k == key {
            assert((s1[i]).0 == key);
        } else {
            if map_of(s1).dom().contains(k) {
                let j = choose|j: int| 0 <= j < s1.len() && (#[trigger] s1[j]).0 == k;
                assert((s0[j]).0 == k);
            }
            if map_of(s0).dom().contains(k) {
                let j = choose|j: int| 0 <= j < s0.len() && (#[trigger] s0[j]).0 == k;
                assert((s1[j]).0 == k);
            }
        }
    }
    assert forall|k: Seq<char>| #[trigger]
        map_of(s1).dom().contains(k) implies map_of(s1)[k] == map_of(s0).insert(key, entry)[k] by {
        let j = choose|j: int| 0 <= j < s1.len() && (#[trigger] s1[j]).0 == k;
        lemma_map_of_val(s1, j);
        if k == key {
        } else {
            assert((s0[j]).0 == k);
            lemma_map_of_val(s0, j);
        }
    }
    assert(map_of(s1) =~= map_of(s0).insert(key, entry));
}

/// A manifest: format version, time of the last successful sync, and the
/// per-file fingerprints.
pub struct SyncManifest {
    pub version: u32,
    pub last_sync: u64,
    pub files: FileMap,
}

/// The cached fingerprint the scanner may reuse for a file: the one the old
/// manifest records under the same path, provided its modification time and
/// size are unchanged.
pub open spec fn spec_scan_cached(
    files: Map<Seq<char>, FileEntry>,
    path: Seq<char>,
    mtime: u64,
    size: u64,
) -> Option<FileEntry> {
    if files.dom().contains(path) && files[path].mtime == mtime && files[path].size == size {
        Some(files[path])
    } else {
        None
    }
}

impl SyncManifest {
    /// The manifest of a never-synced store: version 1, epoch zero, no files.
    pub fn new() -> (r: Self)
        ensures
            r.version == 1,
            r.last_sync == 0,
            r.files@ == Map::<Seq<char>, FileEntry>::empty(),
            r.files.wf(),
    {
        SyncManifest { version: 1, last_sync: 0, files: FileMap::new() }
    }

    /// The recorded fingerprint of `rel_path`, when its metadata is
    /// unchanged; `None` when the file must be read and hashed afresh.
    pub fn cached_entry(&self, rel_path: &str, mtime: u64, size: u64) -> (r: Option<FileEntry>)
        requires
            self.files.wf(),
        ensures
            r == spec_scan_cached(self.files@, rel_path@, mtime, size),
    {
        match self.files.get(rel_path) {
            Some(e) => if e.mtime == mtime && e.size == size {
                Some(e)
            } else {
                None
            },
            None => None,
        }
    }
}

/// A fresh fingerprint taken from the file bytes and their metadata.
pub fn fresh_entry(contents: &[u8], mtime: u64, size: u64) -> (e: FileEntry)
    ensures
        e.hash == crc32_of(contents@),
        e.size == size,
        e.mtime == mtime,
{
    FileEntry { hash: crc32(contents), size, mtime }
}

/// Scanning is idempotent on an unchanged store: a file recorded in the
/// manifest whose modification time and size have not moved is answered
/// from the cache, with the recorded fingerprint returned unchanged — its
/// contents are never read again.
pub proof fn lemma_scan_reuses_cache(
    files: Map<Seq<char>, FileEntry>,
    path: Seq<char>,
    e: FileEntry,
)
    requires
        files.dom().contains(path),
        files[path] == e,
    ensures
        spec_scan_cached(files, path, e.mtime, e.size) == Some(e),
{
}

} // verus!
