//! The library document: every tracked novel with its reading progress.
//!
//! Novels are looked up by sync key rather than by raw path, so progress
//! survives a restore on a machine whose absolute paths differ.

use vstd::prelude::*;

use crate::model::{ProgressView, ReadingProgress};
use crate::paths::{
    localize_novel_path, same_novel_path, spec_localize_path, spec_same_novel_path, spec_title_of,
    title_from_path,
};

verus! {

/// One tracked novel: display title, OS path, and reading progress.
#[derive(Debug, PartialEq)]
pub struct NovelInfo {
    pub title: String,
    pub path: String,
    pub progress: ReadingProgress,
}

/// Mathematical image of a [`NovelInfo`].
pub struct NovelInfoView {
    pub title: Seq<char>,
    pub path: Seq<char>,
    pub progress: ProgressView,
}

impl View for NovelInfo {
    type V = NovelInfoView;

    open spec fn view(&self) -> NovelInfoView {
        NovelInfoView { title: self.title@, path: self.path@, progress: self.progress@ }
    }
}

impl DeepView for NovelInfo {
    type V = NovelInfoView;

    open spec fn deep_view(&self) -> NovelInfoView {
        self.view()
    }
}

impl Clone for NovelInfo {
    fn clone(&self) -> (r: Self)
        ensures
            r@ == self@,
    {
        NovelInfo {
            title: self.title.clone(),
            path: self.path.clone(),
            progress: self.progress.clone(),
        }
    }
}

/// The persisted library: the sequence of tracked novels.
#[derive(Debug, PartialEq)]
pub struct Library {
    pub novels: Vec<NovelInfo>,
}

impl View for Library {
    type V = Seq<NovelInfoView>;

    open spec fn view(&self) -> Seq<NovelInfoView> {
        self.novels.deep_view()
    }
}

impl Default for Library {
    /// An empty library.
    fn default() -> (r: Self)
        ensures
            r@ == Seq::<NovelInfoView>::empty(),
    {
        let r = Library { novels: Vec::new() };
        proof {
            assert(r@ =~= Seq::<NovelInfoView>::empty());
        }
        r
    }
}

/// The progress of a freshly opened novel: offset zero, no bookmarks.
pub open spec fn spec_default_progress() -> ProgressView {
    ProgressView { scroll_offset: 0, bookmarks: Seq::<crate::model::BookmarkView>::empty() }
}

/// The first novel of `s` whose path denotes the same novel as `path`.
pub open spec fn spec_find_novel(s: Seq<NovelInfoView>, path: Seq<char>) -> Option<NovelInfoView>
    decreases s.len(),
{
    if s.len() == 0 {
        None
    } else if spec_same_novel_path(s[0].path, path) {
        Some(s[0])
    } else {
        spec_find_novel(s.drop_first(), path)
    }
}

/// `s` after an update of the progress at `path`: the first novel with the
/// same sync key takes the new path and progress; when none matches, a new
/// entry is appended whose title comes from the path.
pub open spec fn spec_update_novel_progress(
    s: Seq<NovelInfoView>,
    path: Seq<char>,
    prog: ProgressView,
) -> Seq<NovelInfoView>
    decreases s.len(),
{
    if s.len() == 0 {
        seq![NovelInfoView { title: spec_title_of(path), path: path, progress: prog }]
    } else if spec_same_novel_path(s[0].path, path) {
        seq![NovelInfoView { title: s[0].title, path: path, progress: prog }] + s.drop_first()
    } else {
        seq![s[0]] + spec_update_novel_progress(s.drop_first(), path, prog)
    }
}

proof fn lemma_find_novel_at(s: Seq<NovelInfoView>, path: Seq<char>, i: int)
    requires
        0 <= i <= s.len(),
        forall|k: int| 0 <= k < i ==> !spec_same_novel_path(#[trigger] s[k].path, path),
        i < s.len() ==> spec_same_novel_path(s[i].path, path),
    ensures
        spec_find_novel(s, path) == if i < s.len() {
            Some(s[i])
        } else {
            None::<NovelInfoView>
        },
    decreases i,
{
    if i == 0 {
    } else {
        lemma_find_novel_at(s.drop_first(), path, i - 1);
    }
}

proof fn lemma_update_novel_at(s: Seq<NovelInfoView>, path: Seq<char>, prog: ProgressView, i: int)
    requires
        0 <= i <= s.len(),
        forall|k: int| 0 <= k < i ==> !spec_same_novel_path(#[trigger] s[k].path, path),
        i < s.len() ==> spec_same_novel_path(s[i].path, path),
    ensures
        spec_update_novel_progress(s, path, prog) == if i < s.len() {
            s.update(i, NovelInfoView { title: s[i].title, path: path, progress: prog })
        } else {
            s.push(NovelInfoView { title: spec_title_of(path), path: path, progress: prog })
        },
    decreases i,
{
    if i == 0 {
        if 0 < s.len() {
            assert(spec_update_novel_progress(s, path, prog) =~= s.update(
                0,
                NovelInfoView { title: s[0].title, path: path, progress: prog },
            ));
        } else {
            assert(spec_update_novel_progress(s, path, prog) =~= s.push(
                NovelInfoView { title: spec_title_of(path), path: path, progress: prog },
            ));
        }
    } else {
        lemma_update_novel_at(s.drop_first(), path, prog, i - 1);
        if i < s.len() {
            assert(spec_update_novel_progress(s, path, prog) =~= s.update(
                i,
                NovelInfoView { title: s[i].title, path: path, progress: prog },
            ));
        } else {
            assert(spec_update_novel_progress(s, path, prog) =~= s.push(
                NovelInfoView { title: spec_title_of(path), path: path, progress: prog },
            ));
        }
    }
}

impl Library {
    /// An empty library.
    pub fn new() -> (r: Self)
        ensures
            r@ == Seq::<NovelInfoView>::empty(),
    {
        let r = Library { novels: Vec::new() };
        proof {
            assert(r@ =~= Seq::<NovelInfoView>::empty());
        }
        r
    }

    /// Records `progress` for the novel at `novel_path`. The entry is
    /// matched by sync key, not by raw path; a matching entry also takes
    /// over the given path. Without a match, a new entry is appended with
    /// a title taken from the path's base name.
    pub fn update_novel_progress(&mut self, novel_path: &str, progress: ReadingProgress)
        ensures
            final(self)@ == spec_update_novel_progress(old(self)@, novel_path@, progress@),
    {
        let ghost s0 = self@;
        let n = self.novels.len();
        let mut i: usize = 0;
        while i < n && !same_novel_path(self.novels[i].path.as_str(), novel_path)
            invariant
                n == self.novels@.len(),
                i <= n,
                self@ == s0,
                forall|k: int| 0 <= k < i ==> !spec_same_novel_path(#[trigger] s0[k].path, novel_path@),
            decreases n - i,
        {
            i = i + 1;
        }
        proof {
            lemma_update_novel_at(s0, novel_path@, progress@, i as int);
        }
        if i < n {
            let old_entry = self.novels.remove(i);
            self.novels.insert(
                i,
                NovelInfo { title: old_entry.title, path: novel_path.to_owned(), progress },
            );
            proof {
                assert(self@ =~= spec_update_novel_progress(s0, novel_path@, progress@));
            }
        } else {
            self.novels.push(
                NovelInfo { title: title_from_path(novel_path), path: novel_path.to_owned(), progress },
            );
            proof {
                assert(self@ =~= spec_update_novel_progress(s0, novel_path@, progress@));
            }
        }
    }

    /// The recorded progress of the novel at `novel_path`, matched by sync
    /// key; default progress when no entry matches.
    pub fn get_novel_progress(&self, novel_path: &str) -> (r: ReadingProgress)
        ensures
            r@ == match spec_find_novel(self@, novel_path@) {
                Some(n) => n.progress,
                None => spec_default_progress(),
            },
    {
        let n = self.novels.len();
        let mut i: usize = 0;
        while i < n && !same_novel_path(self.novels[i].path.as_str(), novel_path)
            invariant
                n == self.novels@.len(),
                i <= n,
                forall|k: int|
                    0 <= k < i ==> !spec_same_novel_path(#[trigger] self@[k].path, novel_path@),
            decreases n - i,
        {
            i = i + 1;
        }
        proof {
            lemma_find_novel_at(self@, novel_path@, i as int);
        }
        if i < n {
            self.novels[i].progress.clone()
        } else {
            let r = ReadingProgress::default();
            proof {
                assert(r@.bookmarks =~= spec_default_progress().bookmarks);
            }
            r
        }
    }

    /// Rewrites every novel path with a sync key to live under the local
    /// novels directory. Returns whether anything changed.
    pub fn normalize_novel_paths(&mut self, novels_dir: &str) -> (changed: bool)
        ensures
            final(self)@.len() == old(self)@.len(),
            forall|k: int|
                0 <= k < old(self)@.len() ==> #[trigger] final(self)@[k] == (NovelInfoView {
                    path: spec_localize_path(old(self)@[k].path, novels_dir@),
                    ..old(self)@[k]
                }),
            changed <==> (exists|k: int|
                0 <= k < old(self)@.len() && #[trigger] old(self)@[k].path != spec_localize_path(
                    old(self)@[k].path,
                    novels_dir@,
                )),
    {
        let ghost s0 = self@;
        let n = self.novels.len();
        let mut changed = false;
        let mut i: usize = 0;
        while i < n
            invariant
                n == self.novels@.len(),
                n == s0.len(),
                i <= n,
                forall|k: int|
                    i <= k < n ==> #[trigger] self@[k] == s0[k],
                forall|k: int|
                    0 <= k < i ==> #[trigger] self@[k] == (NovelInfoView {
                        path: spec_localize_path(s0[k].path, novels_dir@),
                        ..s0[k]
                    }),
                changed <==> (exists|k: int|
                    0 <= k < i && #[trigger] s0[k].path != spec_localize_path(
                        s0[k].path,
                        novels_dir@,
                    )),
            decreases n - i,
        {
            let ghost dv0 = self.novels.deep_view();
            proof {
                assert(self@[i as int] == s0[i as int]);
                assert(dv0[i as int] == self.novels@[i as int].deep_view());
            }
            let new_path = localize_novel_path(self.novels[i].path.as_str(), novels_dir);
            if !crate::strutil::str_eq(new_path.as_str(), self.novels[i].path.as_str()) {
                let entry = self.novels.remove(i);
                proof {
                    assert(entry@ == dv0[i as int]);
                }
                self.novels.insert(
                    i,
                    NovelInfo { title: entry.title, path: new_path, progress: entry.progress },
                );
                changed = true;
                proof {
                    assert(self.novels.deep_view() =~~= dv0.update(
                        i as int,
                        (NovelInfoView {
                            path: spec_localize_path(s0[i as int].path, novels_dir@),
                            ..s0[i as int]
                        }),
                    ));
                }
            } else {
                proof {
                    assert(s0[i as int].path == spec_localize_path(s0[i as int].path, novels_dir@));
                    assert(self@[i as int] == (NovelInfoView {
                        path: spec_localize_path(s0[i as int].path, novels_dir@),
                        ..s0[i as int]
                    }));
                }
            }
            i = i + 1;
        }
        changed
    }
}

} // verus!
