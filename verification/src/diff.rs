//! The diff algorithm: the pure comparison of two manifests that yields the
//! upload, download, and delete actions of a sync run.

use vstd::prelude::*;

use crate::manifest::{FileEntry, FileMap};

verus! {

/// What a diff action does to the file at its path.
#[derive(Clone, Copy, Debug, PartialEq, Eq, Structural)]
pub enum ActionKind {
    Upload,
    Download,
    Delete,
}

/// One instruction of a sync plan.
#[derive(Debug, PartialEq)]
pub struct DiffAction {
    pub kind: ActionKind,
    /// The relative, forward-slash path the action applies to.
    pub path: String,
}

impl View for DiffAction {
    type V = (ActionKind, Seq<char>);

    open spec fn view(&self) -> (ActionKind, Seq<char>) {
        (self.kind, self.path@)
    }
}

impl DeepView for DiffAction {
    type V = (ActionKind, Seq<char>);

    open spec fn deep_view(&self) -> (ActionKind, Seq<char>) {
        self.view()
    }
}

/// Some action of `r` has the given kind and path.
pub open spec fn has_action(r: Seq<(ActionKind, Seq<char>)>, kind: ActionKind, p: Seq<char>) -> bool {
    exists|i: int| 0 <= i < r.len() && r[i] == (kind, p)
}

/// A local entry at `p` must be pushed to the remote: the remote lacks `p`
/// or records a different hash.
pub open spec fn needs_copy(
    src: Map<Seq<char>, FileEntry>,
    dst: Map<Seq<char>, FileEntry>,
    p: Seq<char>,
) -> bool {
    src.dom().contains(p) && !(dst.dom().contains(p) && dst[p].hash == src[p].hash)
}

/// Characterization of `diff_for_upload`: uploads are exactly the local
/// paths that are absent from or differ on the remote, deletes are exactly
/// the remote paths with no local counterpart, and nothing is downloaded.
pub open spec fn is_upload_diff(
    local: Map<Seq<char>, FileEntry>,
    remote: Map<Seq<char>, FileEntry>,
    r: Seq<(ActionKind, Seq<char>)>,
) -> bool {
    &&& forall|p: Seq<char>| has_action(r, ActionKind::Upload, p) <==> needs_copy(local, remote, p)
    &&& forall|p: Seq<char>|
        has_action(r, ActionKind::Delete, p) <==> remote.dom().contains(p) && !local.dom().contains(
            p,
        )
    &&& forall|i: int| 0 <= i < r.len() ==> (#[trigger] r[i]).0 != ActionKind::Download
}

/// Characterization of `diff_for_download`: the mirror image, with the
/// roles of the two manifests swapped.
pub open spec fn is_download_diff(
    local: Map<Seq<char>, FileEntry>,
    remote: Map<Seq<char>, FileEntry>,
    r: Seq<(ActionKind, Seq<char>)>,
) -> bool {
    &&& forall|p: Seq<char>|
        has_action(r, ActionKind::Download, p) <==> needs_copy(remote, local, p)
    &&& forall|p: Seq<char>|
        has_action(r, ActionKind::Delete, p) <==> local.dom().contains(p) && !remote.dom().contains(
            p,
        )
    &&& forall|i: int| 0 <= i < r.len() ==> (#[trigger] r[i]).0 != ActionKind::Upload
}

proof fn lemma_has_action_push(
    r: Seq<(ActionKind, Seq<char>)>,
    a: (ActionKind, Seq<char>),
    kind: ActionKind,
    p: Seq<char>,
)
    ensures
        has_action(r.push(a), kind, p) <==> (has_action(r, kind, p) || a == (kind, p)),
{
    if has_action(r, kind, p) {
        let i = choose|i: int| 0 <= i < r.len() && r[i] == (kind, p);
        assert(r.push(a)[i] == (kind, p));
    }
    if a == (kind, p) {
        assert(r.push(a)[r.len() as int] == (kind, p));
    }
    if has_action(r.push(a), kind, p) {
        let i = choose|i: int| 0 <= i < r.push(a).len() && r.push(a)[i] == (kind, p);
        if i < r.len() {
            assert(r[i] == (kind, p));
        }
    }
}

/// Computes the actions that bring the remote in line with the local
/// snapshot: `Upload` for every local path absent from or differing on the
/// remote, `Delete` for every remote path with no local counterpart, and
/// no action for a path recorded equal on both sides. No path appears in
/// both an `Upload` and a `Delete`.
pub fn diff_for_upload(local: &FileMap, remote: &FileMap) -> (r: Vec<DiffAction>)
    requires
        local.wf(),
        remote.wf(),
    ensures
        is_upload_diff(local@, remote@, r.deep_view()),
{
    proof {
        local.lemma_entries();
        remote.lemma_entries();
    }
    let mut r: Vec<DiffAction> = Vec::new();
    let n = local.num_entries();
    let mut i: usize = 0;
    while i < n
        invariant
            local.wf(),
            remote.wf(),
            n == local.entries_seq().len(),
            i <= n,
            forall|p: Seq<char>|
                has_action(r.deep_view(), ActionKind::Upload, p) <==> (exists|j: int|
                    0 <= j < i && (#[trigger] local.entries_seq()[j]).0 == p && needs_copy(
                        local@,
                        remote@,
                        p,
                    )),
            forall|k: int| 0 <= k < r.deep_view().len() ==> (#[trigger] r.deep_view()[k]).0 == ActionKind::Upload,
        decreases n - i,
    {
        proof {
            local.lemma_entries();
            remote.lemma_entries();
        }
        let ghost r0 = r.deep_view();
        let path = local.key_at(i);
        let entry = local.entry_at(i);
        let copy = match remote.get(path.as_str()) {
            Some(re) => re.hash != entry.hash,
            None => true,
        };
        if copy {
            let action = DiffAction { kind: ActionKind::Upload, path: path.clone() };
            r.push(action);
            proof {
                assert(r.deep_view() =~= r0.push(
                    (ActionKind::Upload, local.entries_seq()[i as int].0),
                ));
            }
        }
        proof {
            let p_i = local.entries_seq()[i as int].0;
            if copy {
                lemma_has_action_push_all(r0, (ActionKind::Upload, p_i));
            }
            assert forall|p: Seq<char>|
                has_action(r.deep_view(), ActionKind::Upload, p) <==> (exists|j: int|
                    0 <= j < i + 1 && (#[trigger] local.entries_seq()[j]).0 == p && needs_copy(
                        local@,
                        remote@,
                        p,
                    )) by {
                if has_action(r.deep_view(), ActionKind::Upload, p) {
                    if copy {
                        lemma_has_action_push(r0, (ActionKind::Upload, p_i), ActionKind::Upload, p);
                    }
                    if !copy || p != p_i {
                        let j = choose|j: int|
                            0 <= j < i && (#[trigger] local.entries_seq()[j]).0 == p && needs_copy(
                                local@,
                                remote@,
                                p,
                            );
                        assert(0 <= j < i + 1 && (local.entries_seq()[j]).0 == p);
                    } else {
                        assert((local.entries_seq()[i as int]).0 == p_i);
                    }
                }
                if exists|j: int|
                    0 <= j < i + 1 && (#[trigger] local.entries_seq()[j]).0 == p && needs_copy(
                        local@,
                        remote@,
                        p,
                    ) {
                    let j = choose|j: int|
                        0 <= j < i + 1 && (#[trigger] local.entries_seq()[j]).0 == p && needs_copy(
                            local@,
                            remote@,
                            p,
                        );
                    if copy {
                        lemma_has_action_push(r0, (ActionKind::Upload, p_i), ActionKind::Upload, p);
                    }
                    if j < i {
                        assert(has_action(r0, ActionKind::Upload, p));
                        if copy {
                            let k = choose|k: int| 0 <= k < r0.len() && r0[k] == (ActionKind::Upload, p);
                            assert(r.deep_view()[k] == (ActionKind::Upload, p));
                        }
                    } else {
                        // j == i: the entry handled this turn; it needs a copy,
                        // so the action was pushed
                        assert(copy);
                    }
                }
            }
        }
        i = i + 1;
    }
    // second pass: deletions for remote paths with no local counterpart
    let m = remote.num_entries();
    let ghost uploads = r.deep_view();
    let mut k: usize = 0;
    while k < m
        invariant
            local.wf(),
            remote.wf(),
            m == remote.entries_seq().len(),
            k <= m,
            r.deep_view().len() >= uploads.len(),
            r.deep_view().subrange(0, uploads.len() as int) == uploads,
            forall|p: Seq<char>|
                has_action(uploads, ActionKind::Upload, p) <==> needs_copy(local@, remote@, p),
            forall|j: int|
                0 <= j < uploads.len() ==> (#[trigger] uploads[j]).0 == ActionKind::Upload,
            forall|j: int|
                uploads.len() <= j < r.deep_view().len() ==> (#[trigger] r.deep_view()[j]).0
                    == ActionKind::Delete,
            forall|p: Seq<char>|
                has_action(r.deep_view(), ActionKind::Delete, p) <==> (exists|j: int|
                    0 <= j < k && (#[trigger] remote.entries_seq()[j]).0 == p && !local@.dom().contains(
                        p,
                    )),
            forall|p: Seq<char>|
                has_action(r.deep_view(), ActionKind::Upload, p) <==> has_action(
                    uploads,
                    ActionKind::Upload,
                    p,
                ),
        decreases m - k,
    {
        proof {
            remote.lemma_entries();
        }
        let ghost r0 = r.deep_view();
        let path = remote.key_at(k);
        let gone = !local.contains_key(path.as_str());
        if gone {
            let action = DiffAction { kind: ActionKind::Delete, path: path.clone() };
            r.push(action);
            proof {
                assert(r.deep_view() =~= r0.push(
                    (ActionKind::Delete, remote.entries_seq()[k as int].0),
                ));
            }
        }
        proof {
            let p_k = remote.entries_seq()[k as int].0;
            if gone {
                assert(r.deep_view().subrange(0, uploads.len() as int) =~= r0.subrange(
                    0,
                    uploads.len() as int,
                ));
            }
            assert forall|p: Seq<char>|
                has_action(r.deep_view(), ActionKind::Delete, p) <==> (exists|j: int|
                    0 <= j < k + 1 && (#[trigger] remote.entries_seq()[j]).0 == p
                        && !local@.dom().contains(p)) by {
                if gone {
                    lemma_has_action_push(r0, (ActionKind::Delete, p_k), ActionKind::Delete, p);
                }
                if has_action(r.deep_view(), ActionKind::Delete, p) {
                    if !gone || p != p_k {
                        let j = choose|j: int|
                            0 <= j < k && (#[trigger] remote.entries_seq()[j]).0 == p
                                && !local@.dom().contains(p);
                        assert(0 <= j < k + 1 && (remote.entries_seq()[j]).0 == p);
                    } else {
                        assert((remote.entries_seq()[k as int]).0 == p_k);
                    }
                }
                if exists|j: int|
                    0 <= j < k + 1 && (#[trigger] remote.entries_seq()[j]).0 == p
                        && !local@.dom().contains(p) {
                    let j = choose|j: int|
                        0 <= j < k + 1 && (#[trigger] remote.entries_seq()[j]).0 == p
                            && !local@.dom().contains(p);
                    if j < k {
                        assert(has_action(r0, ActionKind::Delete, p));
                        if gone {
                            let t = choose|t: int| 0 <= t < r0.len() && r0[t] == (ActionKind::Delete, p);
                            assert(r.deep_view()[t] == (ActionKind::Delete, p));
                        }
                    } else {
                        assert(gone);
                    }
                }
            }
            if gone {
                assert forall|p: Seq<char>|
                    has_action(r.deep_view(), ActionKind::Upload, p) <==> has_action(
                        uploads,
                        ActionKind::Upload,
                        p,
                    ) by {
                    lemma_has_action_push(r0, (ActionKind::Delete, p_k), ActionKind::Upload, p);
                }
            }
        }
        k = k + 1;
    }
    proof {
        local.lemma_entries();
        remote.lemma_entries();
        assert forall|p: Seq<char>|
            has_action(r.deep_view(), ActionKind::Upload, p) <==> needs_copy(
                local@,
                remote@,
                p,
            ) by {
            assert(has_action(r.deep_view(), ActionKind::Upload, p) <==> has_action(
                uploads,
                ActionKind::Upload,
                p,
            ));
            assert(has_action(uploads, ActionKind::Upload, p) <==> needs_copy(local@, remote@, p));
        }
        assert forall|p: Seq<char>|
            has_action(r.deep_view(), ActionKind::Delete, p) <==> (remote@.dom().contains(p)
                && !local@.dom().contains(p)) by {
            if remote@.dom().contains(p) && !local@.dom().contains(p) {
                let j = choose|j: int|
                    0 <= j < remote.entries_seq().len() && (#[trigger] remote.entries_seq()[j]).0
                        == p;
                assert(0 <= j < remote.entries_seq().len() && (#[trigger] remote.entries_seq()[j]).0
                    == p && !local@.dom().contains(p));
            }
            if has_action(r.deep_view(), ActionKind::Delete, p) {
                let j = choose|j: int|
                    0 <= j < remote.entries_seq().len() && (#[trigger] remote.entries_seq()[j]).0
                        == p && !local@.dom().contains(p);
                assert(remote@.dom().contains((remote.entries_seq()[j]).0));
            }
        }
        assert forall|i2: int|
            0 <= i2 < r.deep_view().len() implies (#[trigger] r.deep_view()[i2]).0
            != ActionKind::Download by {
            if i2 < uploads.len() {
                assert(r.deep_view().subrange(0, uploads.len() as int)[i2] == r.deep_view()[i2]);
                assert(uploads[i2] == r.deep_view()[i2]);
            }
        }
    }
    r
}

/// Computes the actions that bring the local store in line with the remote
/// snapshot: `Download` for every remote path absent from or differing in
/// the local store, `Delete` for every local path with no remote
/// counterpart, and no action for a path recorded equal on both sides.
pub fn diff_for_download(local: &FileMap, remote: &FileMap) -> (r: Vec<DiffAction>)
    requires
        remote.wf(),
        local.wf(),
    ensures
        is_download_diff(local@, remote@, r.deep_view()),
{
    proof {
        remote.lemma_entries();
        local.lemma_entries();
    }
    let mut r: Vec<DiffAction> = Vec::new();
    let n = remote.num_entries();
    let mut i: usize = 0;
    while i < n
        invariant
            remote.wf(),
            local.wf(),
            n == remote.entries_seq().len(),
            i <= n,
            forall|p: Seq<char>|
                has_action(r.deep_view(), ActionKind::Download, p) <==> (exists|j: int|
                    0 <= j < i && (#[trigger] remote.entries_seq()[j]).0 == p && needs_copy(
                        remote@,
                        local@,
                        p,
                    )),
            forall|k: int| 0 <= k < r.deep_view().len() ==> (#[trigger] r.deep_view()[k]).0 == ActionKind::Download,
        decreases n - i,
    {
        proof {
            remote.lemma_entries();
            local.lemma_entries();
        }
        let ghost r0 = r.deep_view();
        let path = remote.key_at(i);
        let entry = remote.entry_at(i);
        let copy = match local.get(path.as_str()) {
            Some(re) => re.hash != entry.hash,
            None => true,
        };
        if copy {
            let action = DiffAction { kind: ActionKind::Download, path: path.clone() };
            r.push(action);
            proof {
                assert(r.deep_view() =~= r0.push(
                    (ActionKind::Download, remote.entries_seq()[i as int].0),
                ));
            }
        }
        proof {
            let p_i = remote.entries_seq()[i as int].0;
            if copy {
                lemma_has_action_push_all(r0, (ActionKind::Download, p_i));
            }
            assert forall|p: Seq<char>|
                has_action(r.deep_view(), ActionKind::Download, p) <==> (exists|j: int|
                    0 <= j < i + 1 && (#[trigger] remote.entries_seq()[j]).0 == p && needs_copy(
                        remote@,
                        local@,
                        p,
                    )) by {
                if has_action(r.deep_view(), ActionKind::Download, p) {
                    if copy {
                        lemma_has_action_push(r0, (ActionKind::Download, p_i), ActionKind::Download, p);
                    }
                    if !copy || p != p_i {
                        let j = choose|j: int|
                            0 <= j < i && (#[trigger] remote.entries_seq()[j]).0 == p && needs_copy(
                                remote@,
                                local@,
                                p,
                            );
                        assert(0 <= j < i + 1 && (remote.entries_seq()[j]).0 == p);
                    } else {
                        assert((remote.entries_seq()[i as int]).0 == p_i);
                    }
                }
                if exists|j: int|
                    0 <= j < i + 1 && (#[trigger] remote.entries_seq()[j]).0 == p && needs_copy(
                        remote@,
                        local@,
                        p,
                    ) {
                    let j = choose|j: int|
                        0 <= j < i + 1 && (#[trigger] remote.entries_seq()[j]).0 == p && needs_copy(
                            remote@,
                            local@,
                            p,
                        );
                    if copy {
                        lemma_has_action_push(r0, (ActionKind::Download, p_i), ActionKind::Download, p);
                    }
                    if j < i {
                        assert(has_action(r0, ActionKind::Download, p));
                        if copy {
                            let k = choose|k: int| 0 <= k < r0.len() && r0[k] == (ActionKind::Download, p);
                            assert(r.deep_view()[k] == (ActionKind::Download, p));
                        }
                    } else {
                        // j == i: the entry handled this turn; it needs a copy,
                        // so the action was pushed
                        assert(copy);
                    }
                }
            }
        }
        i = i + 1;
    }
    // second pass: deletions for local paths with no remote counterpart
    let m = local.num_entries();
    let ghost downloads = r.deep_view();
    let mut k: usize = 0;
    while k < m
        invariant
            remote.wf(),
            local.wf(),
            m == local.entries_seq().len(),
            k <= m,
            r.deep_view().len() >= downloads.len(),
            r.deep_view().subrange(0, downloads.len() as int) == downloads,
            forall|p: Seq<char>|
                has_action(downloads, ActionKind::Download, p) <==> needs_copy(remote@, local@, p),
            forall|j: int|
                0 <= j < downloads.len() ==> (#[trigger] downloads[j]).0 == ActionKind::Download,
            forall|j: int|
                downloads.len() <= j < r.deep_view().len() ==> (#[trigger] r.deep_view()[j]).0
                    == ActionKind::Delete,
            forall|p: Seq<char>|
                has_action(r.deep_view(), ActionKind::Delete, p) <==> (exists|j: int|
                    0 <= j < k && (#[trigger] local.entries_seq()[j]).0 == p && !remote@.dom().contains(
                        p,
                    )),
            forall|p: Seq<char>|
                has_action(r.deep_view(), ActionKind::Download, p) <==> has_action(
                    downloads,
                    ActionKind::Download,
                    p,
                ),
        decreases m - k,
    {
        proof {
            local.lemma_entries();
        }
        let ghost r0 = r.deep_view();
        let path = local.key_at(k);
        let gone = !remote.contains_key(path.as_str());
        if gone {
            let action = DiffAction { kind: ActionKind::Delete, path: path.clone() };
            r.push(action);
            proof {
                assert(r.deep_view() =~= r0.push(
                    (ActionKind::Delete, local.entries_seq()[k as int].0),
                ));
            }
        }
        proof {
            let p_k = local.entries_seq()[k as int].0;
            if gone {
                assert(r.deep_view().subrange(0, downloads.len() as int) =~= r0.subrange(
                    0,
                    downloads.len() as int,
                ));
            }
            assert forall|p: Seq<char>|
                has_action(r.deep_view(), ActionKind::Delete, p) <==> (exists|j: int|
                    0 <= j < k + 1 && (#[trigger] local.entries_seq()[j]).0 == p
                        && !remote@.dom().contains(p)) by {
                if gone {
                    lemma_has_action_push(r0, (ActionKind::Delete, p_k), ActionKind::Delete, p);
                }
                if has_action(r.deep_view(), ActionKind::Delete, p) {
                    if !gone || p != p_k {
                        let j = choose|j: int|
                            0 <= j < k && (#[trigger] local.entries_seq()[j]).0 == p
                                && !remote@.dom().contains(p);
                        assert(0 <= j < k + 1 && (local.entries_seq()[j]).0 == p);
                    } else {
                        assert((local.entries_seq()[k as int]).0 == p_k);
                    }
                }
                if exists|j: int|
                    0 <= j < k + 1 && (#[trigger] local.entries_seq()[j]).0 == p
                        && !remote@.dom().contains(p) {
                    let j = choose|j: int|
                        0 <= j < k + 1 && (#[trigger] local.entries_seq()[j]).0 == p
                            && !remote@.dom().contains(p);
                    if j < k {
                        assert(has_action(r0, ActionKind::Delete, p));
                        if gone {
                            let t = choose|t: int| 0 <= t < r0.len() && r0[t] == (ActionKind::Delete, p);
                            assert(r.deep_view()[t] == (ActionKind::Delete, p));
                        }
                    } else {
                        assert(gone);
                    }
                }
            }
            if gone {
                assert forall|p: Seq<char>|
                    has_action(r.deep_view(), ActionKind::Download, p) <==> has_action(
                        downloads,
                        ActionKind::Download,
                        p,
                    ) by {
                    lemma_has_action_push(r0, (ActionKind::Delete, p_k), ActionKind::Download, p);
                }
            }
        }
        k = k + 1;
    }
    proof {
        remote.lemma_entries();
        local.lemma_entries();
        assert forall|p: Seq<char>|
            has_action(r.deep_view(), ActionKind::Download, p) <==> needs_copy(
                remote@,
                local@,
                p,
            ) by {
            assert(has_action(r.deep_view(), ActionKind::Download, p) <==> has_action(
                downloads,
                ActionKind::Download,
                p,
            ));
            assert(has_action(downloads, ActionKind::Download, p) <==> needs_copy(remote@, local@, p));
        }
        assert forall|p: Seq<char>|
            has_action(r.deep_view(), ActionKind::Delete, p) <==> (local@.dom().contains(p)
                && !remote@.dom().contains(p)) by {
            if local@.dom().contains(p) && !remote@.dom().contains(p) {
                let j = choose|j: int|
                    0 <= j < local.entries_seq().len() && (#[trigger] local.entries_seq()[j]).0
                        == p;
                assert(0 <= j < local.entries_seq().len() && (#[trigger] local.entries_seq()[j]).0
                    == p && !remote@.dom().contains(p));
            }
            if has_action(r.deep_view(), ActionKind::Delete, p) {
                let j = choose|j: int|
                    0 <= j < local.entries_seq().len() && (#[trigger] local.entries_seq()[j]).0
                        == p && !remote@.dom().contains(p);
                assert(local@.dom().contains((local.entries_seq()[j]).0));
            }
        }
        assert forall|i2: int|
            0 <= i2 < r.deep_view().len() implies (#[trigger] r.deep_view()[i2]).0
            != ActionKind::Upload by {
            if i2 < downloads.len() {
                assert(r.deep_view().subrange(0, downloads.len() as int)[i2] == r.deep_view()[i2]);
                assert(downloads[i2] == r.deep_view()[i2]);
            }
        }
    }
    r
}

proof fn lemma_has_action_push_all(r: Seq<(ActionKind, Seq<char>)>, a: (ActionKind, Seq<char>))
    ensures
        forall|kind: ActionKind, p: Seq<char>|
            #[trigger] has_action(r.push(a), kind, p) <==> (has_action(r, kind, p) || a == (
                kind,
                p,
            )),
{
    assert forall|kind: ActionKind, p: Seq<char>| #[trigger]
        has_action(r.push(a), kind, p) <==> (has_action(r, kind, p) || a == (kind, p)) by {
        lemma_has_action_push(r, a, kind, p);
    }
}

/// No path gets both an `Upload` and a `Delete` from one diff: an upload
/// concerns a local path, a delete a path absent locally.
pub proof fn lemma_upload_diff_disjoint(
    local: Map<Seq<char>, FileEntry>,
    remote: Map<Seq<char>, FileEntry>,
    r: Seq<(ActionKind, Seq<char>)>,
)
    requires
        is_upload_diff(local, remote, r),
    ensures
        forall|p: Seq<char>|
            !(has_action(r, ActionKind::Upload, p) && has_action(r, ActionKind::Delete, p)),
{
}

/// Swaps `Upload` and `Download` in one action; `Delete` is kept.
pub open spec fn mirror_action(a: (ActionKind, Seq<char>)) -> (ActionKind, Seq<char>) {
    match a.0 {
        ActionKind::Upload => (ActionKind::Download, a.1),
        ActionKind::Download => (ActionKind::Upload, a.1),
        ActionKind::Delete => a,
    }
}

/// Swaps `Upload` and `Download` throughout an action list.
pub open spec fn mirror_actions(r: Seq<(ActionKind, Seq<char>)>) -> Seq<(ActionKind, Seq<char>)> {
    r.map_values(|a: (ActionKind, Seq<char>)| mirror_action(a))
}

proof fn lemma_mirror_has_action(r: Seq<(ActionKind, Seq<char>)>, kind: ActionKind, p: Seq<char>)
    ensures
        has_action(mirror_actions(r), kind, p) <==> has_action(r, mirror_action((kind, p)).0, p),
{
    let m = mirror_actions(r);
    if has_action(m, kind, p) {
        let i = choose|i: int| 0 <= i < m.len() && m[i] == (kind, p);
        assert(m[i] == mirror_action(r[i]));
        assert(r[i] == (mirror_action((kind, p)).0, p));
    }
    if has_action(r, mirror_action((kind, p)).0, p) {
        let i = choose|i: int| 0 <= i < r.len() && r[i] == (mirror_action((kind, p)).0, p);
        assert(m[i] == mirror_action(r[i]));
        assert(m[i] == (kind, p));
    }
}

/// The download diff is the exact mirror of the upload diff with the two
/// manifests' roles swapped: swapping `Upload` and `Download` in a download
/// diff of `(local, remote)` yields an upload diff of `(remote, local)`.
pub proof fn lemma_diff_mirror(
    local: Map<Seq<char>, FileEntry>,
    remote: Map<Seq<char>, FileEntry>,
    r: Seq<(ActionKind, Seq<char>)>,
)
    requires
        is_download_diff(local, remote, r),
    ensures
        is_upload_diff(remote, local, mirror_actions(r)),
{
    let m = mirror_actions(r);
    assert forall|p: Seq<char>|
        has_action(m, ActionKind::Upload, p) <==> needs_copy(remote, local, p) by {
        lemma_mirror_has_action(r, ActionKind::Upload, p);
    }
    assert forall|p: Seq<char>|
        has_action(m, ActionKind::Delete, p) <==> local.dom().contains(p) && !remote.dom().contains(
            p,
        ) by {
        lemma_mirror_has_action(r, ActionKind::Delete, p);
    }
    assert forall|i: int| 0 <= i < m.len() implies (#[trigger] m[i]).0 != ActionKind::Download by {
        assert(m[i] == mirror_action(r[i]));
        assert(r[i].0 != ActionKind::Upload);
    }
}

} // verus!
