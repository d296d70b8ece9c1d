//! The conflict-free merge of two progress documents: per novel the larger
//! scroll offset wins and bookmarks are united by position (the remote one
//! kept on a shared position); novels are matched across documents by
//! title, and every merged path is rewritten to its portable form.

use vstd::prelude::*;

use crate::library::{Library, NovelInfo, NovelInfoView};
use crate::model::{
    lemma_insert_new_bookmark_at, lemma_insert_new_bookmark_sorted, sorted_by_position, Bookmark,
    BookmarkView, ProgressView, ReadingProgress, spec_insert_new_bookmark,
};
use crate::paths::{portable_novel_path, spec_portable_path};

verus! {

/// Folds the bookmarks of `s` from index `i` on into `acc`, inserting each
/// sorted by position and keeping the earlier bookmark on a shared position.
pub open spec fn spec_insert_all(
    s: Seq<BookmarkView>,
    i: int,
    acc: Seq<BookmarkView>,
) -> Seq<BookmarkView>
    decreases s.len() - i,
{
    if i >= s.len() || i < 0 {
        acc
    } else {
        spec_insert_all(s, i + 1, spec_insert_new_bookmark(acc, s[i]))
    }
}

/// The merged bookmark list: all remote bookmarks, then all local ones,
/// each inserted sorted by position, with the earliest insertion winning a
/// shared position — so the remote side is preferred.
pub open spec fn spec_merge_bookmarks(l: Seq<BookmarkView>, r: Seq<BookmarkView>) -> Seq<
    BookmarkView,
> {
    spec_insert_all(l, 0, spec_insert_all(r, 0, Seq::<BookmarkView>::empty()))
}

proof fn lemma_insert_all_sorted(s: Seq<BookmarkView>, i: int, acc: Seq<BookmarkView>)
    requires
        sorted_by_position(acc),
    ensures
        sorted_by_position(spec_insert_all(s, i, acc)),
    decreases s.len() - i,
{
    if 0 <= i < s.len() {
        lemma_insert_new_bookmark_sorted(acc, s[i]);
        lemma_insert_all_sorted(s, i + 1, spec_insert_new_bookmark(acc, s[i]));
    }
}

/// The merged bookmark list is strictly ascending in position: it is sorted,
/// and no two of its bookmarks share a position.
pub proof fn lemma_merge_bookmarks_sorted(l: Seq<BookmarkView>, r: Seq<BookmarkView>)
    ensures
        sorted_by_position(spec_merge_bookmarks(l, r)),
        forall|i: int, j: int|
            0 <= i < j < spec_merge_bookmarks(l, r).len() ==> (#[trigger] spec_merge_bookmarks(
                l,
                r,
            )[i]).position != (#[trigger] spec_merge_bookmarks(l, r)[j]).position,
{
    lemma_insert_all_sorted(r, 0, Seq::<BookmarkView>::empty());
    lemma_insert_all_sorted(l, 0, spec_insert_all(r, 0, Seq::<BookmarkView>::empty()));
}

/// Inserts `bm` into `acc`, which is kept sorted by position; a bookmark
/// already sitting at the same position is kept.
fn insert_new_bookmark(acc: &mut Vec<Bookmark>, bm: Bookmark)
    ensures
        final(acc).deep_view() == spec_insert_new_bookmark(old(acc).deep_view(), bm@),
{
    let ghost s0 = acc.deep_view();
    let n = acc.len();
    let mut i: usize = 0;
    while i < n && acc[i].position < bm.position
        invariant
            n == acc@.len(),
            i <= n,
            acc.deep_view() == s0,
            forall|k: int| 0 <= k < i ==> s0[k].position < bm@.position,
        decreases n - i,
    {
        i = i + 1;
    }
    proof {
        lemma_insert_new_bookmark_at(s0, bm@, i as int);
    }
    if i < n && acc[i].position == bm.position {
        // keep the bookmark already there
    } else {
        acc.insert(i, bm);
        proof {
            assert(acc.deep_view() =~= spec_insert_new_bookmark(s0, bm@));
        }
    }
}

/// Merges two bookmark lists: the union by position, remote bookmarks
/// preferred on a shared position, sorted ascending by position.
pub fn merge_bookmarks(local: &Vec<Bookmark>, remote: &Vec<Bookmark>) -> (m: Vec<Bookmark>)
    ensures
        m.deep_view() == spec_merge_bookmarks(local.deep_view(), remote.deep_view()),
{
    let mut acc: Vec<Bookmark> = Vec::new();
    proof {
        assert(acc.deep_view() =~= Seq::<BookmarkView>::empty());
    }
    let rn = remote.len();
    let mut i: usize = 0;
    while i < rn
        invariant
            rn == remote@.len(),
            i <= rn,
            spec_insert_all(remote.deep_view(), 0, Seq::<BookmarkView>::empty())
                == spec_insert_all(remote.deep_view(), i as int, acc.deep_view()),
        decreases rn - i,
    {
        insert_new_bookmark(&mut acc, remote[i].clone());
        i = i + 1;
    }
    let ln = local.len();
    let mut j: usize = 0;
    while j < ln
        invariant
            ln == local@.len(),
            j <= ln,
            spec_merge_bookmarks(local.deep_view(), remote.deep_view()) == spec_insert_all(
                local.deep_view(),
                j as int,
                acc.deep_view(),
            ),
        decreases ln - j,
    {
        insert_new_bookmark(&mut acc, local[j].clone());
        j = j + 1;
    }
    acc
}

/// The merged form of one novel tracked on both sides: the remote record
/// with the local path, the larger scroll offset, and the united bookmarks.
pub open spec fn spec_merge_novel(l: NovelInfoView, r: NovelInfoView) -> NovelInfoView {
    NovelInfoView {
        title: r.title,
        path: l.path,
        progress: ProgressView {
            scroll_offset: if l.progress.scroll_offset >= r.progress.scroll_offset {
                l.progress.scroll_offset
            } else {
                r.progress.scroll_offset
            },
            bookmarks: spec_merge_bookmarks(l.progress.bookmarks, r.progress.bookmarks),
        },
    }
}

/// Merges the two records of one novel.
pub fn merge_novel(local: &NovelInfo, remote: &NovelInfo) -> (m: NovelInfo)
    ensures
        m@ == spec_merge_novel(local@, remote@),
{
    let scroll_offset: u64 = if local.progress.scroll_offset >= remote.progress.scroll_offset {
        local.progress.scroll_offset
    } else {
        remote.progress.scroll_offset
    };
    NovelInfo {
        title: remote.title.clone(),
        path: local.path.clone(),
        progress: ReadingProgress {
            scroll_offset,
            bookmarks: merge_bookmarks(&local.progress.bookmarks, &remote.progress.bookmarks),
        },
    }
}

/// The merged scroll offset is the maximum of the two sides, and the merged
/// bookmark list is sorted ascending by position with no position repeated.
pub proof fn lemma_merge_novel_progress(l: NovelInfoView, r: NovelInfoView)
    ensures
        spec_merge_novel(l, r).progress.scroll_offset >= l.progress.scroll_offset,
        spec_merge_novel(l, r).progress.scroll_offset >= r.progress.scroll_offset,
        spec_merge_novel(l, r).progress.scroll_offset == l.progress.scroll_offset
            || spec_merge_novel(l, r).progress.scroll_offset == r.progress.scroll_offset,
        sorted_by_position(spec_merge_novel(l, r).progress.bookmarks),
        forall|i: int, j: int|
            0 <= i < j < spec_merge_novel(l, r).progress.bookmarks.len() ==> (
            #[trigger] spec_merge_novel(l, r).progress.bookmarks[i]).position != (
            #[trigger] spec_merge_novel(l, r).progress.bookmarks[j]).position,
{
    lemma_merge_bookmarks_sorted(l.progress.bookmarks, r.progress.bookmarks);
}

/// Whether some novel of `s` bears the title `t`.
pub open spec fn titles_contain(s: Seq<NovelInfoView>, t: Seq<char>) -> bool {
    exists|i: int| 0 <= i < s.len() && (#[trigger] s[i]).title == t
}

/// The last novel of `s` bearing the title `t`.
pub open spec fn last_with_title(s: Seq<NovelInfoView>, t: Seq<char>) -> NovelInfoView
    decreases s.len(),
{
    if s.len() == 0 {
        arbitrary()
    } else if s.last().title == t {
        s.last()
    } else {
        last_with_title(s.drop_last(), t)
    }
}

proof fn lemma_last_with_title_at(s: Seq<NovelInfoView>, t: Seq<char>, i: int)
    requires
        0 <= i < s.len(),
        s[i].title == t,
        forall|k: int| i < k < s.len() ==> (#[trigger] s[k]).title != t,
    ensures
        last_with_title(s, t) == s[i],
    decreases s.len(),
{
    if i < s.len() - 1 {
        lemma_last_with_title_at(s.drop_last(), t, i);
    }
}

/// A novel with its path rewritten to the portable `novels/<relative>` form.
pub open spec fn spec_portable_novel(n: NovelInfoView) -> NovelInfoView {
    NovelInfoView { path: spec_portable_path(n.path), ..n }
}

/// The merged remote pass: every remote novel, merged with the last local
/// record of the same title when one exists.
pub open spec fn spec_merged_remote(l: Seq<NovelInfoView>, r: Seq<NovelInfoView>) -> Seq<
    NovelInfoView,
> {
    Seq::new(
        r.len(),
        |i: int|
            if titles_contain(l, r[i].title) {
                spec_merge_novel(last_with_title(l, r[i].title), r[i])
            } else {
                r[i]
            },
    )
}

/// The local novels whose titles the remote side does not have.
pub open spec fn spec_kept_local(l: Seq<NovelInfoView>, r: Seq<NovelInfoView>) -> Seq<
    NovelInfoView,
> {
    l.filter(|n: NovelInfoView| !titles_contain(r, n.title))
}

/// The merged library: the remote novels in order, each merged with its
/// local counterpart when the title is tracked on both sides, then the
/// local novels whose title the remote lacks, in order; every path
/// rewritten to its portable form.
pub open spec fn spec_merge_libraries(l: Seq<NovelInfoView>, r: Seq<NovelInfoView>) -> Seq<
    NovelInfoView,
> {
    (spec_merged_remote(l, r) + spec_kept_local(l, r)).map_values(
        |n: NovelInfoView| spec_portable_novel(n),
    )
}

proof fn lemma_kept_local_step(l: Seq<NovelInfoView>, r: Seq<NovelInfoView>, j: int)
    requires
        0 <= j < l.len(),
    ensures
        spec_kept_local(l.take(j + 1), r) == if titles_contain(r, l[j].title) {
            spec_kept_local(l.take(j), r)
        } else {
            spec_kept_local(l.take(j), r).push(l[j])
        },
{
    reveal(Seq::filter);
    assert(l.take(j + 1).drop_last() =~= l.take(j));
    assert(l.take(j + 1).last() == l[j]);
}

fn find_last_with_title(novels: &Vec<NovelInfo>, title: &str) -> (r: Option<usize>)
    ensures
        match r {
            Some(i) => {
                &&& i < novels.deep_view().len()
                &&& titles_contain(novels.deep_view(), title@)
                &&& last_with_title(novels.deep_view(), title@) == novels.deep_view()[i as int]
            },
            None => !titles_contain(novels.deep_view(), title@),
        },
{
    let n = novels.len();
    let mut i: usize = n;
    while i > 0
        invariant
            n == novels@.len(),
            i <= n,
            forall|k: int| i <= k < n ==> (#[trigger] novels.deep_view()[k]).title != title@,
        decreases i,
    {
        let hit = crate::strutil::str_eq(novels[i - 1].title.as_str(), title);
        proof {
            assert(novels.deep_view()[i - 1] == novels@[i - 1]@);
        }
        if hit {
            proof {
                lemma_last_with_title_at(novels.deep_view(), title@, (i - 1) as int);
            }
            return Some(i - 1);
        }
        i = i - 1;
    }
    proof {
        assert forall|k: int| 0 <= k < novels.deep_view().len() implies (
        #[trigger] novels.deep_view()[k]).title != title@ by {}
    }
    None
}

fn titles_contain_exec(novels: &Vec<NovelInfo>, title: &str) -> (r: bool)
    ensures
        r == titles_contain(novels.deep_view(), title@),
{
    match find_last_with_title(novels, title) {
        Some(_) => true,
        None => false,
    }
}

/// Rewrites a novel's path to its portable form.
fn portable_novel(n: NovelInfo) -> (r: NovelInfo)
    ensures
        r@ == spec_portable_novel(n@),
{
    let path = portable_novel_path(n.path.as_str());
    NovelInfo { title: n.title, path, progress: n.progress }
}

/// Merges two library documents: titles on both sides are merged novel by
/// novel, titles on one side are carried through, and every path is made
/// portable.
pub fn merge_libraries(local: &Library, remote: &Library) -> (m: Library)
    ensures
        m@ == spec_merge_libraries(local@, remote@),
{
    let mut out: Vec<NovelInfo> = Vec::new();
    let rn = remote.novels.len();
    let mut i: usize = 0;
    while i < rn
        invariant
            rn == remote.novels@.len(),
            i <= rn,
            out.deep_view().len() == i,
            forall|k: int|
                0 <= k < i ==> #[trigger] out.deep_view()[k] == spec_portable_novel(
                    spec_merged_remote(local@, remote@)[k],
                ),
        decreases rn - i,
    {
        proof {
            assert(remote@[i as int] == remote.novels@[i as int]@);
            assert(spec_merged_remote(local@, remote@)[i as int] == (
            if titles_contain(local@, remote@[i as int].title) {
                spec_merge_novel(
                    last_with_title(local@, remote@[i as int].title),
                    remote@[i as int],
                )
            } else {
                remote@[i as int]
            }));
        }
        let merged = match find_last_with_title(&local.novels, remote.novels[i].title.as_str()) {
            Some(j) => merge_novel(&local.novels[j], &remote.novels[i]),
            None => remote.novels[i].clone(),
        };
        proof {
            assert(merged@ == spec_merged_remote(local@, remote@)[i as int]);
        }
        let ghost out0 = out.deep_view();
        out.push(portable_novel(merged));
        proof {
            assert(out.deep_view() =~= out0.push(
                spec_portable_novel(spec_merged_remote(local@, remote@)[i as int]),
            ));
        }
        i = i + 1;
    }
    let ghost remote_part = out.deep_view();
    proof {
        assert(remote_part =~= spec_merged_remote(local@, remote@).map_values(
            |n: NovelInfoView| spec_portable_novel(n),
        ));
        assert(spec_kept_local(local@.take(0), remote@) =~= Seq::<NovelInfoView>::empty()) by {
            reveal(Seq::filter);
            assert(local@.take(0) =~= Seq::<NovelInfoView>::empty());
        }
    }
    let ln = local.novels.len();
    let mut j: usize = 0;
    while j < ln
        invariant
            ln == local.novels@.len(),
            out.deep_view() == remote_part + spec_kept_local(local@.take(j as int), remote@).map_values(
                |n: NovelInfoView| spec_portable_novel(n),
            ),
            j <= ln,
        decreases ln - j,
    {
        proof {
            assert(local@[j as int] == local.novels@[j as int]@);
            lemma_kept_local_step(local@, remote@, j as int);
        }
        let ghost out0 = out.deep_view();
        if !titles_contain_exec(&remote.novels, local.novels[j].title.as_str()) {
            out.push(portable_novel(local.novels[j].clone()));
            proof {
                assert(out.deep_view() =~= out0.push(
                    spec_portable_novel(local@[j as int]),
                ));
                assert(out.deep_view() =~= remote_part + spec_kept_local(
                    local@.take(j + 1),
                    remote@,
                ).map_values(|n: NovelInfoView| spec_portable_novel(n)));
            }
        } else {
            proof {
                assert(out.deep_view() =~= remote_part + spec_kept_local(
                    local@.take(j + 1),
                    remote@,
                ).map_values(|n: NovelInfoView| spec_portable_novel(n)));
            }
        }
        j = j + 1;
    }
    proof {
        assert(local@.take(ln as int) =~= local@);
        assert(out.deep_view() =~= spec_merge_libraries(local@, remote@));
    }
    Library { novels: out }
}

/// Document-level decision taken when the progress document is downloaded:
/// with a readable local document the two are merged; without one the
/// remote document is used verbatim.
pub fn merge_progress_docs(local: &Option<Library>, remote: &Library) -> (m: Library)
    ensures
        match local {
            Some(l) => m@ == spec_merge_libraries(l@, remote@),
            None => m@ == remote@,
        },
{
    match local {
        Some(l) => merge_libraries(l, remote),
        None => {
            let mut out: Vec<NovelInfo> = Vec::new();
            let n = remote.novels.len();
            let mut i: usize = 0;
            while i < n
                invariant
                    n == remote.novels@.len(),
                    i <= n,
                    out.deep_view().len() == i,
                    forall|k: int|
                        0 <= k < i ==> #[trigger] out.deep_view()[k] == remote@[k],
                decreases n - i,
            {
                proof {
                    assert(remote@[i as int] == remote.novels@[i as int]@);
                }
                let ghost out0 = out.deep_view();
                out.push(remote.novels[i].clone());
                proof {
                    assert(out.deep_view() =~= out0.push(remote@[i as int]));
                }
                i = i + 1;
            }
            proof {
                assert(out.deep_view() =~= remote@);
            }
            Library { novels: out }
        },
    }
}

/// No two novels of `s` share a title.
pub open spec fn distinct_titles(s: Seq<NovelInfoView>) -> bool {
    forall|i: int, j: int|
        0 <= i < j < s.len() ==> (#[trigger] s[i]).title != (#[trigger] s[j]).title
}

proof fn lemma_kept_local_props(l: Seq<NovelInfoView>, r: Seq<NovelInfoView>)
    requires
        distinct_titles(l),
    ensures
        forall|k: int|
            0 <= k < spec_kept_local(l, r).len() ==> !titles_contain(
                r,
                (#[trigger] spec_kept_local(l, r)[k]).title,
            ) && titles_contain(l, spec_kept_local(l, r)[k].title),
        distinct_titles(spec_kept_local(l, r)),
        forall|t: Seq<char>|
            titles_contain(l, t) && !titles_contain(r, t) ==> titles_contain(
                spec_kept_local(l, r),
                t,
            ),
    decreases l.len(),
{
    reveal(Seq::filter);
    if l.len() == 0 {
    } else {
        let dl = l.drop_last();
        assert(distinct_titles(dl)) by {
            assert forall|i: int, j: int| 0 <= i < j < dl.len() implies (#[trigger] dl[i]).title
                != (#[trigger] dl[j]).title by {
                assert(dl[i] == l[i] && dl[j] == l[j]);
            }
        }
        lemma_kept_local_props(dl, r);
        let kd = spec_kept_local(dl, r);
        let k = spec_kept_local(l, r);
        assert(k == if !titles_contain(r, l.last().title) {
            kd.push(l.last())
        } else {
            kd
        });
        assert forall|j: int| 0 <= j < k.len() implies !titles_contain(
            r,
            (#[trigger] k[j]).title,
        ) && titles_contain(l, k[j].title) by {
            if j < kd.len() {
                assert(k[j] == kd[j]);
                assert(titles_contain(dl, kd[j].title));
                let w = choose|w: int| 0 <= w < dl.len() && (#[trigger] dl[w]).title == kd[j].title;
                assert((l[w]).title == kd[j].title);
            } else {
                assert(k[j] == l.last());
                assert((l[l.len() - 1]).title == l.last().title);
            }
        }
        assert forall|i: int, j: int| 0 <= i < j < k.len() implies (#[trigger] k[i]).title != (
        #[trigger] k[j]).title by {
            if j < kd.len() {
                assert(k[i] == kd[i] && k[j] == kd[j]);
            } else {
                // j names the last local novel; i names one from the prefix,
                // whose title occurs in the prefix, while l is duplicate-free
                assert(k[i] == kd[i]);
                assert(titles_contain(dl, kd[i].title));
                let w = choose|w: int| 0 <= w < dl.len() && (#[trigger] dl[w]).title == kd[i].title;
                assert(l[w] == dl[w]);
                assert(l[w].title != l[l.len() - 1].title);
                assert(k[j] == l.last());
            }
        }
        assert forall|t: Seq<char>|
            titles_contain(l, t) && !titles_contain(r, t) implies titles_contain(k, t) by {
            let w = choose|w: int| 0 <= w < l.len() && (#[trigger] l[w]).title == t;
            if w < l.len() - 1 {
                assert(dl[w] == l[w]);
                assert(titles_contain(dl, t));
                let v = choose|v: int| 0 <= v < kd.len() && (#[trigger] kd[v]).title == t;
                assert(k[v] == kd[v]);
                assert((k[v]).title == t);
            } else {
                assert(!titles_contain(r, l.last().title));
                assert(k[k.len() - 1] == l.last());
                assert((k[k.len() - 1]).title == t);
            }
        }
    }
}

/// The merged library names every title of either input exactly once, when
/// each input names each of its titles once: a title appears in the merge
/// if and only if one side has it, and no title appears twice.
pub proof fn lemma_merge_libraries_titles(l: Seq<NovelInfoView>, r: Seq<NovelInfoView>)
    requires
        distinct_titles(l),
        distinct_titles(r),
    ensures
        forall|t: Seq<char>|
            titles_contain(spec_merge_libraries(l, r), t) <==> titles_contain(l, t)
                || titles_contain(r, t),
        distinct_titles(spec_merge_libraries(l, r)),
{
    let mr = spec_merged_remote(l, r);
    let kept = spec_kept_local(l, r);
    let m = spec_merge_libraries(l, r);
    lemma_kept_local_props(l, r);
    assert(m.len() == mr.len() + kept.len());
    assert forall|k: int| 0 <= k < m.len() implies (#[trigger] m[k]).title == (mr + kept)[k].title by {
        assert(m[k] == spec_portable_novel((mr + kept)[k]));
    }
    assert forall|k: int| 0 <= k < mr.len() implies (#[trigger] mr[k]).title == r[k].title by {}
    assert forall|t: Seq<char>|
        titles_contain(m, t) <==> titles_contain(l, t) || titles_contain(r, t) by {
        if titles_contain(m, t) {
            let k = choose|k: int| 0 <= k < m.len() && (#[trigger] m[k]).title == t;
            if k < mr.len() {
                assert((mr + kept)[k] == mr[k]);
                assert((r[k]).title == t);
            } else {
                assert((mr + kept)[k] == kept[k - mr.len()]);
                assert(titles_contain(l, kept[k - mr.len()].title));
            }
        }
        if titles_contain(r, t) {
            let k = choose|k: int| 0 <= k < r.len() && (#[trigger] r[k]).title == t;
            assert((m[k]).title == (mr + kept)[k].title);
            assert((mr + kept)[k] == mr[k]);
            assert((m[k]).title == t);
        }
        if titles_contain(l, t) && !titles_contain(r, t) {
            let v = choose|v: int| 0 <= v < kept.len() && (#[trigger] kept[v]).title == t;
            assert((mr + kept)[mr.len() + v] == kept[v]);
            assert((m[mr.len() + v]).title == t);
        }
    }
    assert forall|i: int, j: int| 0 <= i < j < m.len() implies (#[trigger] m[i]).title != (
    #[trigger] m[j]).title by {
        assert((m[i]).title == (mr + kept)[i].title);
        assert((m[j]).title == (mr + kept)[j].title);
        if j < mr.len() {
            assert((mr + kept)[i] == mr[i] && (mr + kept)[j] == mr[j]);
        } else if i >= mr.len() {
            assert((mr + kept)[i] == kept[i - mr.len()] && (mr + kept)[j] == kept[j - mr.len()]);
        } else {
            assert((mr + kept)[i] == mr[i] && (mr + kept)[j] == kept[j - mr.len()]);
            assert((mr[i]).title == r[i].title);
            assert(!titles_contain(r, kept[j - mr.len()].title));
            assert((r[i]).title == r[i].title);
        }
    }
}

/// The first bookmark of `s` sitting at position `p`.
pub open spec fn find_at_position(s: Seq<BookmarkView>, p: u64) -> Option<BookmarkView>
    decreases s.len(),
{
    if s.len() == 0 {
        None
    } else if s[0].position == p {
        Some(s[0])
    } else {
        find_at_position(s.drop_first(), p)
    }
}

proof fn lemma_find_at_position_has(s: Seq<BookmarkView>, p: u64)
    ensures
        find_at_position(s, p) is Some <==> crate::model::has_position(s, p),
        find_at_position(s, p) is Some ==> find_at_position(s, p)->Some_0.position == p,
    decreases s.len(),
{
    if s.len() == 0 {
        assert(!crate::model::has_position(s, p));
    } else if s[0].position == p {
    } else {
        lemma_find_at_position_has(s.drop_first(), p);
        if crate::model::has_position(s, p) {
            let i = choose|i: int| 0 <= i < s.len() && s[i].position == p;
            assert(s.drop_first()[i - 1].position == p);
            assert(crate::model::has_position(s.drop_first(), p));
        }
        if crate::model::has_position(s.drop_first(), p) {
            let i = choose|i: int| 0 <= i < s.drop_first().len() && s.drop_first()[i].position == p;
            assert(s[i + 1].position == p);
        }
    }
}

proof fn lemma_find_none_below(s: Seq<BookmarkView>, p: u64)
    requires
        sorted_by_position(s),
        s.len() > 0 ==> p < s[0].position,
    ensures
        find_at_position(s, p) is None,
    decreases s.len(),
{
    if s.len() > 0 {
        assert(sorted_by_position(s.drop_first()));
        if s.drop_first().len() > 0 {
            assert(s[0].position < s[1].position);
        }
        lemma_find_none_below(s.drop_first(), p);
    }
}

proof fn lemma_insert_new_bookmark_find(s: Seq<BookmarkView>, bm: BookmarkView, p: u64)
    requires
        sorted_by_position(s),
    ensures
        find_at_position(spec_insert_new_bookmark(s, bm), p) == if find_at_position(s, p) is Some {
            find_at_position(s, p)
        } else if p == bm.position {
            Some(bm)
        } else {
            None::<BookmarkView>
        },
    decreases s.len(),
{
    if s.len() == 0 {
        let r = spec_insert_new_bookmark(s, bm);
        assert(r =~= seq![bm]);
        assert(r[0] == bm);
        assert(r.drop_first() =~= Seq::<BookmarkView>::empty());
        assert(find_at_position(r.drop_first(), p) is None);
        assert(find_at_position(s, p) is None);
    } else if bm.position == s[0].position {
        assert(spec_insert_new_bookmark(s, bm) == s);
        if s[0].position != p {
            assert(find_at_position(s, p) == find_at_position(s.drop_first(), p));
        }
    } else if bm.position < s[0].position {
        let r = spec_insert_new_bookmark(s, bm);
        assert(r == seq![bm] + s);
        assert(r[0] == bm);
        if p != bm.position {
            assert(r.drop_first() =~= s);
            assert(find_at_position(r, p) == find_at_position(s, p));
        } else {
            lemma_find_none_below(s, p);
            assert(find_at_position(r, p) == Some(bm));
        }
    } else {
        assert(sorted_by_position(s.drop_first()));
        lemma_insert_new_bookmark_find(s.drop_first(), bm, p);
        let r = spec_insert_new_bookmark(s, bm);
        assert(r == seq![s[0]] + spec_insert_new_bookmark(s.drop_first(), bm));
        assert(r[0] == s[0]);
        if p != s[0].position {
            assert(r.drop_first() =~= spec_insert_new_bookmark(s.drop_first(), bm));
        } else {
            // p sits at the head on both sides
        }
    }
}

/// The first bookmark at position `p` among `s[i..]`.
pub open spec fn first_at_from(s: Seq<BookmarkView>, i: int, p: u64) -> Option<BookmarkView>
    decreases s.len() - i,
{
    if i < 0 || i >= s.len() {
        None
    } else if s[i].position == p {
        Some(s[i])
    } else {
        first_at_from(s, i + 1, p)
    }
}

proof fn lemma_insert_all_find(s: Seq<BookmarkView>, i: int, acc: Seq<BookmarkView>, p: u64)
    requires
        sorted_by_position(acc),
    ensures
        find_at_position(spec_insert_all(s, i, acc), p) == if find_at_position(acc, p) is Some {
            find_at_position(acc, p)
        } else {
            first_at_from(s, i, p)
        },
    decreases s.len() - i,
{
    if 0 <= i < s.len() {
        lemma_insert_new_bookmark_sorted(acc, s[i]);
        lemma_insert_new_bookmark_find(acc, s[i], p);
        lemma_insert_all_find(s, i + 1, spec_insert_new_bookmark(acc, s[i]), p);
    }
}

/// The merge unites the two sides position by position: a position is in
/// the merged list exactly when one side has it, and the bookmark kept
/// there is the remote one when the remote side has that position, else
/// the local one.
pub proof fn lemma_merge_bookmarks_membership(l: Seq<BookmarkView>, r: Seq<BookmarkView>, p: u64)
    ensures
        find_at_position(spec_merge_bookmarks(l, r), p) == if first_at_from(r, 0, p) is Some {
            first_at_from(r, 0, p)
        } else {
            first_at_from(l, 0, p)
        },
        crate::model::has_position(spec_merge_bookmarks(l, r), p) <==> (crate::model::has_position(
            l,
            p,
        ) || crate::model::has_position(r, p)),
{
    let empty = Seq::<BookmarkView>::empty();
    let inner = spec_insert_all(r, 0, empty);
    lemma_insert_all_find(r, 0, empty, p);
    lemma_insert_all_sorted(r, 0, empty);
    lemma_insert_all_find(l, 0, inner, p);
    lemma_find_at_position_has(spec_merge_bookmarks(l, r), p);
    lemma_first_at_from_has(l, p);
    lemma_first_at_from_has(r, p);
}

proof fn lemma_first_at_from_has(s: Seq<BookmarkView>, p: u64)
    ensures
        first_at_from(s, 0, p) is Some <==> crate::model::has_position(s, p),
{
    lemma_first_at_from_has_from(s, 0, p);
    if crate::model::has_position(s, p) {
        let k = choose|k: int| 0 <= k < s.len() && s[k].position == p;
        lemma_first_at_from_found(s, 0, p, k);
    }
}

proof fn lemma_first_at_from_has_from(s: Seq<BookmarkView>, i: int, p: u64)
    requires
        0 <= i,
    ensures
        first_at_from(s, i, p) is Some ==> crate::model::has_position(s, p),
    decreases s.len() - i,
{
    if i < s.len() {
        if s[i].position == p {
        } else {
            lemma_first_at_from_has_from(s, i + 1, p);
        }
    }
}

proof fn lemma_first_at_from_found(s: Seq<BookmarkView>, i: int, p: u64, k: int)
    requires
        0 <= i <= k < s.len(),
        s[k].position == p,
    ensures
        first_at_from(s, i, p) is Some,
    decreases k - i,
{
    if i < k && s[i].position != p {
        lemma_first_at_from_found(s, i + 1, p, k);
    }
}

} // verus!
