//! The typed reading-progress model: bookmarks, per-novel progress, and the
//! library document that is persisted as `progress.json`.
//!
//! Bookmark lists are kept sorted strictly ascending by position: no two
//! bookmarks of one novel share a position.

use vstd::prelude::*;

verus! {

/// A named position in a novel.
#[derive(Debug, PartialEq)]
pub struct Bookmark {
    pub name: String,
    /// Line index the bookmark points at.
    pub position: u64,
    /// Creation time, in seconds since the epoch.
    pub timestamp: u64,
}

/// Mathematical image of a [`Bookmark`].
pub struct BookmarkView {
    pub name: Seq<char>,
    pub position: u64,
    pub timestamp: u64,
}

impl View for Bookmark {
    type V = BookmarkView;

    open spec fn view(&self) -> BookmarkView {
        BookmarkView { name: self.name@, position: self.position, timestamp: self.timestamp }
    }
}

impl DeepView for Bookmark {
    type V = BookmarkView;

    open spec fn deep_view(&self) -> BookmarkView {
        self.view()
    }
}

impl Clone for Bookmark {
    fn clone(&self) -> (r: Self)
        ensures
            r == *self,
    {
        Bookmark { name: self.name.clone(), position: self.position, timestamp: self.timestamp }
    }
}

/// How far a novel has been read, plus its bookmarks.
#[derive(Debug, PartialEq)]
pub struct ReadingProgress {
    /// Scroll offset of the reader view, counted in lines.
    pub scroll_offset: u64,
    /// Bookmarks, sorted strictly ascending by position.
    pub bookmarks: Vec<Bookmark>,
}

/// Mathematical image of a [`ReadingProgress`].
pub struct ProgressView {
    pub scroll_offset: u64,
    pub bookmarks: Seq<BookmarkView>,
}

impl View for ReadingProgress {
    type V = ProgressView;

    open spec fn view(&self) -> ProgressView {
        ProgressView { scroll_offset: self.scroll_offset, bookmarks: self.bookmarks.deep_view() }
    }
}

impl DeepView for ReadingProgress {
    type V = ProgressView;

    open spec fn deep_view(&self) -> ProgressView {
        self.view()
    }
}

impl Clone for ReadingProgress {
    fn clone(&self) -> (r: Self)
        ensures
            r@ == self@,
    {
        ReadingProgress {
            scroll_offset: self.scroll_offset,
            bookmarks: clone_bookmarks(&self.bookmarks),
        }
    }
}

impl Default for ReadingProgress {
    /// Progress at the start of a novel: offset zero, no bookmarks.
    fn default() -> (r: Self)
        ensures
            r.scroll_offset == 0,
            r.bookmarks@.len() == 0,
    {
        ReadingProgress { scroll_offset: 0, bookmarks: Vec::new() }
    }
}

/// An element-wise copy of a bookmark list.
pub fn clone_bookmarks(v: &Vec<Bookmark>) -> (r: Vec<Bookmark>)
    ensures
        r.deep_view() == v.deep_view(),
{
    let mut r: Vec<Bookmark> = Vec::new();
    let n = v.len();
    let mut i: usize = 0;
    while i < n
        invariant
            n == v@.len(),
            i <= n,
            r@.len() == i,
            forall|k: int| 0 <= k < i ==> r@[k] == v@[k],
        decreases n - i,
    {
        r.push(v[i].clone());
        i = i + 1;
    }
    proof {
        assert(r.deep_view() =~= v.deep_view());
    }
    r
}

/// Bookmarks in strictly ascending position order (hence all positions distinct).
pub open spec fn sorted_by_position(s: Seq<BookmarkView>) -> bool {
    forall|i: int, j: int| 0 <= i < j < s.len() ==> s[i].position < s[j].position
}

/// True when some bookmark of `s` sits at position `p`.
pub open spec fn has_position(s: Seq<BookmarkView>, p: u64) -> bool {
    exists|i: int| 0 <= i < s.len() && s[i].position == p
}

/// Insertion sorted by position, replacing an existing bookmark at the
/// same position.
pub open spec fn spec_add_bookmark(s: Seq<BookmarkView>, bm: BookmarkView) -> Seq<BookmarkView>
    decreases s.len(),
{
    if s.len() == 0 {
        seq![bm]
    } else if bm.position == s[0].position {
        seq![bm] + s.drop_first()
    } else if bm.position < s[0].position {
        seq![bm] + s
    } else {
        seq![s[0]] + spec_add_bookmark(s.drop_first(), bm)
    }
}

/// Insertion sorted by position, keeping an existing bookmark at the
/// same position.
pub open spec fn spec_insert_new_bookmark(s: Seq<BookmarkView>, bm: BookmarkView) -> Seq<
    BookmarkView,
>
    decreases s.len(),
{
    if s.len() == 0 {
        seq![bm]
    } else if bm.position == s[0].position {
        s
    } else if bm.position < s[0].position {
        seq![bm] + s
    } else {
        seq![s[0]] + spec_insert_new_bookmark(s.drop_first(), bm)
    }
}

/// Every element of the insertion result comes from `s` or is `bm` itself.
pub proof fn lemma_add_bookmark_elems(s: Seq<BookmarkView>, bm: BookmarkView)
    ensures
        forall|j: int|
            0 <= j < spec_add_bookmark(s, bm).len() ==> (#[trigger] spec_add_bookmark(s, bm)[j]
                == bm || s.contains(spec_add_bookmark(s, bm)[j])),
        spec_add_bookmark(s, bm).len() <= s.len() + 1,
    decreases s.len(),
{
    if s.len() == 0 {
    } else if bm.position == s[0].position {
        assert forall|j: int| 0 <= j < spec_add_bookmark(s, bm).len() implies (
        #[trigger] spec_add_bookmark(s, bm)[j] == bm || s.contains(spec_add_bookmark(s, bm)[j])) by {
            if j > 0 {
                assert(spec_add_bookmark(s, bm)[j] == s[j]);
            }
        }
    } else if bm.position < s[0].position {
        assert forall|j: int| 0 <= j < spec_add_bookmark(s, bm).len() implies (
        #[trigger] spec_add_bookmark(s, bm)[j] == bm || s.contains(spec_add_bookmark(s, bm)[j])) by {
            if j > 0 {
                assert(spec_add_bookmark(s, bm)[j] == s[j - 1]);
            }
        }
    } else {
        lemma_add_bookmark_elems(s.drop_first(), bm);
        let r = spec_add_bookmark(s, bm);
        let rr = spec_add_bookmark(s.drop_first(), bm);
        assert forall|j: int| 0 <= j < r.len() implies (#[trigger] r[j] == bm || s.contains(
            r[j],
        )) by {
            if j == 0 {
                assert(r[0] == s[0]);
                assert(s.contains(s[0]));
            } else {
                assert(r[j] == rr[j - 1]);
                if rr[j - 1] != bm {
                    let k = choose|k: int|
                        0 <= k < s.drop_first().len() && s.drop_first()[k] == rr[j - 1];
                    assert(s[k + 1] == rr[j - 1]);
                }
            }
        }
    }
}

/// As [`lemma_add_bookmark_elems`], for the keep-existing insertion.
pub proof fn lemma_insert_new_bookmark_elems(s: Seq<BookmarkView>, bm: BookmarkView)
    ensures
        forall|j: int|
            0 <= j < spec_insert_new_bookmark(s, bm).len() ==> (
            #[trigger] spec_insert_new_bookmark(s, bm)[j] == bm || s.contains(
                spec_insert_new_bookmark(s, bm)[j],
            )),
        spec_insert_new_bookmark(s, bm).len() <= s.len() + 1,
    decreases s.len(),
{
    if s.len() == 0 {
    } else if bm.position == s[0].position {
    } else if bm.position < s[0].position {
        assert forall|j: int| 0 <= j < spec_insert_new_bookmark(s, bm).len() implies (
        #[trigger] spec_insert_new_bookmark(s, bm)[j] == bm || s.contains(
            spec_insert_new_bookmark(s, bm)[j],
        )) by {
            if j > 0 {
                assert(spec_insert_new_bookmark(s, bm)[j] == s[j - 1]);
            }
        }
    } else {
        lemma_insert_new_bookmark_elems(s.drop_first(), bm);
        let r = spec_insert_new_bookmark(s, bm);
        let rr = spec_insert_new_bookmark(s.drop_first(), bm);
        assert forall|j: int| 0 <= j < r.len() implies (#[trigger] r[j] == bm || s.contains(
            r[j],
        )) by {
            if j == 0 {
                assert(r[0] == s[0]);
                assert(s.contains(s[0]));
            } else {
                assert(r[j] == rr[j - 1]);
                if rr[j - 1] != bm {
                    let k = choose|k: int|
                        0 <= k < s.drop_first().len() && s.drop_first()[k] == rr[j - 1];
                    assert(s[k + 1] == rr[j - 1]);
                }
            }
        }
    }
}

/// Replacing insertion keeps the list strictly sorted by position.
pub proof fn lemma_add_bookmark_sorted(s: Seq<BookmarkView>, bm: BookmarkView)
    requires
        sorted_by_position(s),
    ensures
        sorted_by_position(spec_add_bookmark(s, bm)),
    decreases s.len(),
{
    if s.len() == 0 {
    } else if bm.position == s[0].position {
    } else if bm.position < s[0].position {
    } else {
        assert(sorted_by_position(s.drop_first()));
        lemma_add_bookmark_sorted(s.drop_first(), bm);
        lemma_add_bookmark_elems(s.drop_first(), bm);
        let r = spec_add_bookmark(s, bm);
        let rr = spec_add_bookmark(s.drop_first(), bm);
        assert forall|i: int, j: int| 0 <= i < j < r.len() implies r[i].position
            < r[j].position by {
            if i == 0 {
                assert(r[j] == rr[j - 1]);
                if rr[j - 1] == bm {
                    assert(s[0].position < bm.position);
                } else {
                    let k = choose|k: int|
                        0 <= k < s.drop_first().len() && s.drop_first()[k] == rr[j - 1];
                    assert(s[k + 1] == rr[j - 1]);
                    assert(s[0].position < s[k + 1].position);
                }
            } else {
                assert(r[i] == rr[i - 1] && r[j] == rr[j - 1]);
            }
        }
    }
}

/// Keep-existing insertion keeps the list strictly sorted by position.
pub proof fn lemma_insert_new_bookmark_sorted(s: Seq<BookmarkView>, bm: BookmarkView)
    requires
        sorted_by_position(s),
    ensures
        sorted_by_position(spec_insert_new_bookmark(s, bm)),
    decreases s.len(),
{
    if s.len() == 0 {
    } else if bm.position == s[0].position {
    } else if bm.position < s[0].position {
    } else {
        assert(sorted_by_position(s.drop_first()));
        lemma_insert_new_bookmark_sorted(s.drop_first(), bm);
        lemma_insert_new_bookmark_elems(s.drop_first(), bm);
        let r = spec_insert_new_bookmark(s, bm);
        let rr = spec_insert_new_bookmark(s.drop_first(), bm);
        assert forall|i: int, j: int| 0 <= i < j < r.len() implies r[i].position
            < r[j].position by {
            if i == 0 {
                assert(r[j] == rr[j - 1]);
                if rr[j - 1] == bm {
                    assert(s[0].position < bm.position);
                } else {
                    let k = choose|k: int|
                        0 <= k < s.drop_first().len() && s.drop_first()[k] == rr[j - 1];
                    assert(s[k + 1] == rr[j - 1]);
                }
            } else {
                assert(r[i] == rr[i - 1] && r[j] == rr[j - 1]);
            }
        }
    }
}

/// Index-based reading of the replacing insertion: given the first index `i`
/// whose position is not below `bm.position`, the result is a replacement
/// or a true insertion at `i`.
pub proof fn lemma_add_bookmark_at(s: Seq<BookmarkView>, bm: BookmarkView, i: int)
    requires
        0 <= i <= s.len(),
        forall|k: int| 0 <= k < i ==> s[k].position < bm.position,
        i < s.len() ==> s[i].position >= bm.position,
    ensures
        spec_add_bookmark(s, bm) == if i < s.len() && s[i].position == bm.position {
            s.update(i, bm)
        } else {
            s.subrange(0, i) + seq![bm] + s.subrange(i, s.len() as int)
        },
    decreases i,
{
    if i == 0 {
        if 0 < s.len() && s[0].position == bm.position {
            assert(spec_add_bookmark(s, bm) =~= s.update(0, bm));
        } else {
            assert(spec_add_bookmark(s, bm) =~= s.subrange(0, 0) + seq![bm] + s.subrange(
                0,
                s.len() as int,
            ));
        }
    } else {
        let t = s.drop_first();
        lemma_add_bookmark_at(t, bm, i - 1);
        if i < s.len() && s[i].position == bm.position {
            assert(spec_add_bookmark(s, bm) =~= s.update(i, bm));
        } else {
            assert(spec_add_bookmark(s, bm) =~= s.subrange(0, i) + seq![bm] + s.subrange(
                i,
                s.len() as int,
            ));
        }
    }
}

/// Index-based reading of the keep-existing insertion.
pub proof fn lemma_insert_new_bookmark_at(s: Seq<BookmarkView>, bm: BookmarkView, i: int)
    requires
        0 <= i <= s.len(),
        forall|k: int| 0 <= k < i ==> s[k].position < bm.position,
        i < s.len() ==> s[i].position >= bm.position,
    ensures
        spec_insert_new_bookmark(s, bm) == if i < s.len() && s[i].position == bm.position {
            s
        } else {
            s.subrange(0, i) + seq![bm] + s.subrange(i, s.len() as int)
        },
    decreases i,
{
    if i == 0 {
        if 0 < s.len() && s[0].position == bm.position {
        } else {
            assert(spec_insert_new_bookmark(s, bm) =~= s.subrange(0, 0) + seq![bm] + s.subrange(
                0,
                s.len() as int,
            ));
        }
    } else {
        let t = s.drop_first();
        lemma_insert_new_bookmark_at(t, bm, i - 1);
        if i < s.len() && s[i].position == bm.position {
            assert(spec_insert_new_bookmark(s, bm) =~= s);
        } else {
            assert(spec_insert_new_bookmark(s, bm) =~= s.subrange(0, i) + seq![bm] + s.subrange(
                i,
                s.len() as int,
            ));
        }
    }
}

impl ReadingProgress {
    /// Places a bookmark at `position`, replacing any bookmark already
    /// there, and keeps the list sorted by position.
    pub fn add_bookmark(&mut self, name: String, position: u64, timestamp: u64)
        ensures
            final(self).scroll_offset == old(self).scroll_offset,
            final(self)@.bookmarks == spec_add_bookmark(
                old(self)@.bookmarks,
                BookmarkView { name: name@, position, timestamp },
            ),
    {
        let ghost s0 = self@.bookmarks;
        let ghost bmv = BookmarkView { name: name@, position, timestamp };
        let n = self.bookmarks.len();
        let mut i: usize = 0;
        while i < n && self.bookmarks[i].position < position
            invariant
                n == self.bookmarks@.len(),
                i <= n,
                self.bookmarks.deep_view() == s0,
                forall|k: int| 0 <= k < i ==> s0[k].position < position,
            decreases n - i,
    {
            i = i + 1;
        }
        let bm = Bookmark { name, position, timestamp };
        if i < n && self.bookmarks[i].position == position {
            self.bookmarks.remove(i);
            self.bookmarks.insert(i, bm);
            proof {
                lemma_add_bookmark_at(s0, bmv, i as int);
                assert(self.bookmarks.deep_view() =~= spec_add_bookmark(s0, bmv));
            }
        } else {
            self.bookmarks.insert(i, bm);
            proof {
                lemma_add_bookmark_at(s0, bmv, i as int);
                assert(self.bookmarks.deep_view() =~= spec_add_bookmark(s0, bmv));
            }
        }
    }

    /// Removes the bookmark at `index`, returning it; `None` when the
    /// index is out of range.
    pub fn remove_bookmark(&mut self, index: usize) -> (r: Option<Bookmark>)
        ensures
            final(self).scroll_offset == old(self).scroll_offset,
            index < old(self)@.bookmarks.len() ==> {
                &&& r is Some
                &&& r->Some_0@ == old(self)@.bookmarks[index as int]
                &&& final(self)@.bookmarks == old(self)@.bookmarks.remove(index as int)
            },
            index >= old(self)@.bookmarks.len() ==> r is None && final(self)@ == old(self)@,
    {
        if index < self.bookmarks.len() {
            let bm = self.bookmarks.remove(index);
            proof {
                assert(self.bookmarks.deep_view() =~= old(self)@.bookmarks.remove(index as int));
            }
            Some(bm)
        } else {
            None
        }
    }
}

} // verus!
