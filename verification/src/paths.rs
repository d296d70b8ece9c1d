//! Path handling: separator-agnostic segmentation, the portable `novels/...`
//! sync key that identifies one novel across machines, and the traversal
//! check applied to every relative path taken from a manifest.

use vstd::prelude::*;

use crate::strutil::push_char;

verus! {

/// Path separator characters, host-independent.
pub open spec fn is_sep(c: char) -> bool {
    c == '/' || c == '\\'
}

/// Raw split of a character sequence at separators; empty parts are kept,
/// so the result always has at least one part.
pub open spec fn spec_split(s: Seq<char>) -> Seq<Seq<char>>
    decreases s.len(),
{
    if s.len() == 0 {
        seq![Seq::<char>::empty()]
    } else {
        let rest = spec_split(s.drop_last());
        if is_sep(s.last()) {
            rest + seq![Seq::<char>::empty()]
        } else {
            rest.update(rest.len() - 1, rest.last().push(s.last()))
        }
    }
}

/// Drops the empty parts of a raw split.
pub open spec fn nonempty_parts(parts: Seq<Seq<char>>) -> Seq<Seq<char>> {
    parts.filter(|p: Seq<char>| p.len() > 0)
}

/// The non-empty, separator-free segments of a path.
pub open spec fn spec_segments(s: Seq<char>) -> Seq<Seq<char>> {
    nonempty_parts(spec_split(s))
}

proof fn lemma_nonempty_parts_push(parts: Seq<Seq<char>>, x: Seq<char>)
    ensures
        nonempty_parts(parts.push(x)) == if x.len() > 0 {
            nonempty_parts(parts).push(x)
        } else {
            nonempty_parts(parts)
        },
{
    reveal(Seq::filter);
    assert(parts.push(x).drop_last() =~~= parts);
    assert(parts.push(x).last() == x);
}

pub proof fn lemma_split_len(s: Seq<char>)
    ensures
        spec_split(s).len() >= 1,
    decreases s.len(),
{
    if s.len() > 0 {
        lemma_split_len(s.drop_last());
    }
}

/// Splits a path into its raw parts.
fn split_raw(s: &str) -> (r: Vec<String>)
    ensures
        r.deep_view() == spec_split(s@),
        r@.len() >= 1,
    decreases s@.len(),
{
    let n = s.unicode_len();
    if n == 0 {
        let mut v: Vec<String> = Vec::new();
        v.push(String::new());
        proof {
            assert(v.deep_view() =~~= spec_split(s@));
        }
        v
    } else {
        let c = s.get_char(n - 1);
        let init = s.substring_char(0, n - 1);
        proof {
            assert(init@ =~= s@.drop_last());
        }
        let mut r = split_raw(init);
        if c == '/' || c == '\\' {
            r.push(String::new());
            proof {
                assert(r.deep_view() =~~= spec_split(s@));
            }
            r
        } else {
            let last = r.pop();
            match last {
                Some(mut part) => {
                    push_char(&mut part, c);
                    r.push(part);
                    proof {
                        assert(r.deep_view() =~~= spec_split(s@));
                    }
                    r
                },
                None => {
                    // unreachable: a raw split always has at least one part
                    proof {
                        assert(false);
                    }
                    r
                },
            }
        }
    }
}

/// Splits a path into its non-empty segments.
pub fn split_segments(s: &str) -> (r: Vec<String>)
    ensures
        r.deep_view() == spec_segments(s@),
{
    broadcast use vstd::seq_lib::group_seq_properties;

    let raw = split_raw(s);
    let mut out: Vec<String> = Vec::new();
    let n = raw.len();
    let mut i: usize = 0;
    while i < n
        invariant
            n == raw@.len(),
            i <= n,
            out.deep_view() == nonempty_parts(raw.deep_view().subrange(0, i as int)),
        decreases n - i,
    {
        let ghost pre = raw.deep_view().subrange(0, i as int);
        let ghost cur = raw.deep_view()[i as int];
        proof {
            assert(raw.deep_view().subrange(0, i + 1) =~~= pre.push(cur));
            lemma_nonempty_parts_push(pre, cur);
        }
        if !raw[i].as_str().is_empty() {
            out.push(raw[i].clone());
            proof {
                assert(out.deep_view() =~~= nonempty_parts(raw.deep_view().subrange(0, i + 1)));
            }
        } else {
            proof {
                assert(out.deep_view() =~~= nonempty_parts(raw.deep_view().subrange(0, i + 1)));
            }
        }
        i = i + 1;
    }
    proof {
        assert(raw.deep_view().subrange(0, n as int) =~~= raw.deep_view());
    }
    out
}

/// Joins parts with `'/'`.
pub open spec fn spec_join(parts: Seq<Seq<char>>) -> Seq<char>
    decreases parts.len(),
{
    if parts.len() == 0 {
        Seq::<char>::empty()
    } else if parts.len() == 1 {
        parts[0]
    } else {
        spec_join(parts.drop_last()) + seq!['/'] + parts.last()
    }
}

/// Joins the segments from index `from` on with `'/'`.
pub fn join_from(parts: &Vec<String>, from: usize) -> (r: String)
    requires
        from <= parts@.len(),
    ensures
        r@ == spec_join(parts.deep_view().subrange(from as int, parts.deep_view().len() as int)),
{
    let n = parts.len();
    let mut out = String::new();
    let mut i: usize = from;
    while i < n
        invariant
            n == parts@.len(),
            from <= i <= n,
            out@ == spec_join(parts.deep_view().subrange(from as int, i as int)),
        decreases n - i,
    {
        let ghost pre = parts.deep_view().subrange(from as int, i as int);
        let ghost nxt = parts.deep_view().subrange(from as int, i + 1);
        proof {
            assert(nxt.drop_last() =~~= pre);
            assert(nxt.last() == parts.deep_view()[i as int]);
        }
        if i > from {
            out.append("/");
            proof {
                reveal_strlit("/");
                assert("/"@ =~= seq!['/']);
            }
        }
        out.append(parts[i].as_str());
        proof {
            if i == from {
                assert(out@ =~= spec_join(nxt));
            } else {
                assert(out@ =~= spec_join(nxt));
            }
        }
        i = i + 1;
    }
    out
}

/// True for a segment spelling `novels`, ASCII case-insensitively.
pub open spec fn is_novels_segment(seg: Seq<char>) -> bool {
    seg.len() == 6 && (seg[0] == 'n' || seg[0] == 'N') && (seg[1] == 'o' || seg[1] == 'O') && (
    seg[2] == 'v' || seg[2] == 'V') && (seg[3] == 'e' || seg[3] == 'E') && (seg[4] == 'l' || seg[4]
        == 'L') && (seg[5] == 's' || seg[5] == 'S')
}

fn is_novels_segment_exec(seg: &str) -> (r: bool)
    ensures
        r == is_novels_segment(seg@),
{
    if seg.unicode_len() != 6 {
        return false;
    }
    let c0 = seg.get_char(0);
    let c1 = seg.get_char(1);
    let c2 = seg.get_char(2);
    let c3 = seg.get_char(3);
    let c4 = seg.get_char(4);
    let c5 = seg.get_char(5);
    (c0 == 'n' || c0 == 'N') && (c1 == 'o' || c1 == 'O') && (c2 == 'v' || c2 == 'V') && (c3 == 'e'
        || c3 == 'E') && (c4 == 'l' || c4 == 'L') && (c5 == 's' || c5 == 'S')
}

/// The segments after the last `novels` segment, or `None` when there is
/// no `novels` segment.
pub open spec fn spec_tail_after_novels(parts: Seq<Seq<char>>) -> Option<Seq<Seq<char>>>
    decreases parts.len(),
{
    if parts.len() == 0 {
        None
    } else if is_novels_segment(parts.last()) {
        Some(Seq::<Seq<char>>::empty())
    } else {
        match spec_tail_after_novels(parts.drop_last()) {
            Some(t) => Some(t.push(parts.last())),
            None => None,
        }
    }
}

/// The relative path of a novel below its last `novels` directory:
/// the segments after that directory, joined with `'/'`. `None` when the
/// path has no `novels` segment or nothing follows it.
pub open spec fn spec_novels_rel(p: Seq<char>) -> Option<Seq<char>> {
    match spec_tail_after_novels(spec_segments(p)) {
        Some(t) => if t.len() > 0 {
            Some(spec_join(t))
        } else {
            None
        },
        None => None,
    }
}

pub proof fn lemma_tail_after_novels_at(parts: Seq<Seq<char>>, i: int)
    requires
        0 <= i < parts.len(),
        is_novels_segment(parts[i]),
        forall|j: int| i < j < parts.len() ==> !is_novels_segment(#[trigger] parts[j]),
    ensures
        spec_tail_after_novels(parts) == Some(parts.subrange(i + 1, parts.len() as int)),
    decreases parts.len(),
{
    if i == parts.len() - 1 {
        assert(parts.subrange(i + 1, parts.len() as int) =~~= Seq::<Seq<char>>::empty());
    } else {
        lemma_tail_after_novels_at(parts.drop_last(), i);
        assert(parts.drop_last().subrange(i + 1, parts.len() - 1) =~~= parts.subrange(
            i + 1,
            parts.len() - 1,
        ));
        assert(parts.subrange(i + 1, parts.len() - 1).push(parts.last()) =~~= parts.subrange(
            i + 1,
            parts.len() as int,
        ));
    }
}

pub proof fn lemma_tail_after_novels_none(parts: Seq<Seq<char>>)
    requires
        forall|j: int| 0 <= j < parts.len() ==> !is_novels_segment(#[trigger] parts[j]),
    ensures
        spec_tail_after_novels(parts) is None,
    decreases parts.len(),
{
    if parts.len() > 0 {
        lemma_tail_after_novels_none(parts.drop_last());
    }
}

/// The relative path of a novel below its last `novels` directory.
pub fn novels_rel_path(path: &str) -> (r: Option<String>)
    ensures
        match r {
            Some(s) => spec_novels_rel(path@) == Some(s@),
            None => spec_novels_rel(path@) is None,
        },
{
    let segs = split_segments(path);
    let n = segs.len();
    let mut i: usize = n;
    while i > 0
        invariant
            n == segs@.len(),
            i <= n,
            segs.deep_view() == spec_segments(path@),
            forall|j: int| i <= j < n ==> !is_novels_segment(#[trigger] segs.deep_view()[j]),
        decreases i,
    {
        let hit = is_novels_segment_exec(segs[i - 1].as_str());
        proof {
            assert(segs.deep_view()[i - 1] == segs@[i - 1]@);
        }
        if hit {
            // found the last `novels` segment at i - 1
            proof {
                assert(segs.deep_view().len() == n);
                assert(is_novels_segment(segs.deep_view()[i - 1]));
                lemma_tail_after_novels_at(segs.deep_view(), (i - 1) as int);
                assert(spec_tail_after_novels(segs.deep_view()) == Some(
                    segs.deep_view().subrange(i as int, n as int),
                ));
                assert(spec_segments(path@) == segs.deep_view());
                assert(spec_tail_after_novels(spec_segments(path@)) == Some(
                    segs.deep_view().subrange(i as int, n as int),
                ));
            }
            if i < n {
                let joined = join_from(&segs, i);
                return Some(joined);
            } else {
                proof {
                    assert(segs.deep_view().subrange(i as int, n as int).len() == 0);
                }
                return None;
            }
        }
        i = i - 1;
    }
    proof {
        lemma_tail_after_novels_none(segs.deep_view());
    }
    None
}

/// The sync key of a novel path: `novels/` followed by the relative path,
/// when the path has one.
pub open spec fn spec_sync_key(p: Seq<char>) -> Option<Seq<char>> {
    match spec_novels_rel(p) {
        Some(rel) => Some(seq!['n', 'o', 'v', 'e', 'l', 's', '/'] + rel),
        None => None,
    }
}

/// Two paths denote the same novel: they are equal outright, or both have
/// a sync key and the keys agree.
pub open spec fn spec_same_novel_path(a: Seq<char>, b: Seq<char>) -> bool {
    a == b || (spec_novels_rel(a) is Some && spec_novels_rel(a) == spec_novels_rel(b))
}

/// Decides [`spec_same_novel_path`].
pub fn same_novel_path(a: &str, b: &str) -> (r: bool)
    ensures
        r == spec_same_novel_path(a@, b@),
{
    if crate::strutil::str_eq(a, b) {
        return true;
    }
    let ka = novels_rel_path(a);
    let kb = novels_rel_path(b);
    match (ka, kb) {
        (Some(x), Some(y)) => crate::strutil::str_eq(x.as_str(), y.as_str()),
        _ => false,
    }
}

/// The portable form of a novel path: rewritten to `novels/<relative>`
/// when the path has a sync key, and kept as it stands otherwise.
pub open spec fn spec_portable_path(p: Seq<char>) -> Seq<char> {
    match spec_novels_rel(p) {
        Some(rel) => seq!['n', 'o', 'v', 'e', 'l', 's', '/'] + rel,
        None => p,
    }
}

/// Rewrites a novel path to its portable form.
pub fn portable_novel_path(path: &str) -> (r: String)
    ensures
        r@ == spec_portable_path(path@),
{
    match novels_rel_path(path) {
        Some(rel) => {
            let mut out = String::from_str("novels/");
            proof {
                reveal_strlit("novels/");
                assert("novels/"@ =~= seq!['n', 'o', 'v', 'e', 'l', 's', '/']);
            }
            out.append(rel.as_str());
            out
        },
        None => path.to_owned(),
    }
}

/// The local form of a novel path: `<novels_dir>/<relative>` when the path
/// has a sync key, and the path itself otherwise.
pub open spec fn spec_localize_path(p: Seq<char>, novels_dir: Seq<char>) -> Seq<char> {
    match spec_novels_rel(p) {
        Some(rel) => novels_dir + seq!['/'] + rel,
        None => p,
    }
}

/// Rewrites a novel path to live under the local novels directory.
pub fn localize_novel_path(path: &str, novels_dir: &str) -> (r: String)
    ensures
        r@ == spec_localize_path(path@, novels_dir@),
{
    match novels_rel_path(path) {
        Some(rel) => {
            let mut out = novels_dir.to_owned();
            out.append("/");
            out.append(rel.as_str());
            proof {
                reveal_strlit("/");
                assert("/"@ =~= seq!['/']);
            }
            out
        },
        None => path.to_owned(),
    }
}

/// The characters after the last separator of a path; empty when the path
/// is empty or ends in a separator.
pub open spec fn spec_base_name(p: Seq<char>) -> Seq<char>
    decreases p.len(),
{
    if p.len() == 0 {
        Seq::<char>::empty()
    } else if is_sep(p.last()) {
        Seq::<char>::empty()
    } else {
        spec_base_name(p.drop_last()).push(p.last())
    }
}

/// The index of the last `'.'` of a name, or `-1` when it has none.
pub open spec fn last_dot_idx(name: Seq<char>) -> int
    decreases name.len(),
{
    if name.len() == 0 {
        -1
    } else if name.last() == '.' {
        name.len() - 1
    } else {
        last_dot_idx(name.drop_last())
    }
}

/// A file name without its extension. A dot in first position does not
/// begin an extension, so a hidden file keeps its full name.
pub open spec fn spec_stem(name: Seq<char>) -> Seq<char> {
    let d = last_dot_idx(name);
    if d >= 1 {
        name.take(d)
    } else {
        name
    }
}

/// The display title taken from a novel path: the base name without its
/// extension, or a fixed placeholder when the path yields no name.
pub open spec fn spec_title_of(p: Seq<char>) -> Seq<char> {
    let base = spec_base_name(p);
    if base.len() == 0 {
        "未知标题"@
    } else {
        spec_stem(base)
    }
}

proof fn lemma_base_name_at(p: Seq<char>, j: int)
    requires
        0 <= j <= p.len(),
        forall|k: int| j <= k < p.len() ==> !is_sep(#[trigger] p[k]),
        j > 0 ==> is_sep(p[j - 1]),
    ensures
        spec_base_name(p) == p.subrange(j, p.len() as int),
    decreases p.len(),
{
    if j == p.len() {
        if p.len() > 0 {
            assert(is_sep(p.last()));
        }
        assert(p.subrange(j, p.len() as int) =~= Seq::<char>::empty());
    } else {
        assert(!is_sep(p.last()));
        lemma_base_name_at(p.drop_last(), j);
        assert(p.drop_last().subrange(j, p.len() - 1) =~= p.subrange(j, p.len() - 1));
        assert(p.subrange(j, p.len() - 1).push(p.last()) =~= p.subrange(j, p.len() as int));
    }
}

proof fn lemma_last_dot_at(name: Seq<char>, d: int)
    requires
        -1 <= d < name.len(),
        d >= 0 ==> name[d] == '.',
        forall|k: int| d < k < name.len() ==> name[k] != '.',
    ensures
        last_dot_idx(name) == d,
    decreases name.len(),
{
    if name.len() == 0 {
    } else if d == name.len() - 1 {
    } else {
        assert(name.last() != '.');
        lemma_last_dot_at(name.drop_last(), d);
    }
}

/// The display title of a novel at `path`.
pub fn title_from_path(path: &str) -> (r: String)
    ensures
        r@ == spec_title_of(path@),
{
    let n = path.unicode_len();
    // find the start of the base name: the position after the last separator
    let mut j: usize = n;
    while j > 0 && !is_sep_exec(path.get_char(j - 1))
        invariant
            n == path@.len(),
            j <= n,
            forall|k: int| j <= k < n ==> !is_sep(#[trigger] path@[k]),
        decreases j,
    {
        j = j - 1;
    }
    proof {
        lemma_base_name_at(path@, j as int);
    }
    let base = path.substring_char(j, n);
    proof {
        assert(base@ =~= spec_base_name(path@));
    }
    let blen = base.unicode_len();
    if blen == 0 {
        return String::from_str("未知标题");
    }
    // find the last dot of the base name
    let mut d: usize = blen;
    while d > 0 && base.get_char(d - 1) != '.'
        invariant
            blen == base@.len(),
            d <= blen,
            forall|k: int| d <= k < blen ==> base@[k] != '.',
        decreases d,
    {
        d = d - 1;
    }
    proof {
        lemma_last_dot_at(base@, d - 1);
    }
    if d >= 2 {
        let stem = base.substring_char(0, d - 1);
        proof {
            assert(stem@ =~= spec_stem(base@));
        }
        stem.to_owned()
    } else {
        proof {
            assert(base@ == spec_stem(base@));
        }
        base.to_owned()
    }
}

/// Rejection of a relative path that could escape the data directory.
#[derive(Clone, Copy, Debug, PartialEq, Eq, Structural)]
pub enum PathError {
    /// The path holds a parent-directory segment, an absolute root, or a
    /// drive prefix.
    UnsafePath,
}

/// A parent-directory segment: `..` delimited by separators or the ends
/// of the path.
pub open spec fn has_parent_segment(p: Seq<char>) -> bool {
    exists|i: int|
        #![trigger p[i]]
        0 <= i && i + 2 <= p.len() && p[i] == '.' && p[i + 1] == '.' && (i == 0 || is_sep(
            p[i - 1],
        )) && (i + 2 == p.len() || is_sep(p[i + 2]))
}

/// An absolute path: it begins with a separator.
pub open spec fn has_root_prefix(p: Seq<char>) -> bool {
    p.len() > 0 && is_sep(p[0])
}

/// A drive prefix: a `:` as the second character, as in `C:`.
pub open spec fn has_drive_prefix(p: Seq<char>) -> bool {
    p.len() >= 2 && p[1] == ':'
}

/// A relative path that must not be joined to the data directory.
pub open spec fn is_unsafe_rel_path(p: Seq<char>) -> bool {
    has_parent_segment(p) || has_root_prefix(p) || has_drive_prefix(p)
}

fn is_sep_exec(c: char) -> (r: bool)
    ensures
        r == is_sep(c),
{
    c == '/' || c == '\\'
}

/// Validates a relative path taken from a manifest or diff action and
/// joins it to the data directory. Any path holding a parent-directory
/// segment, an absolute root, or a drive prefix is rejected; every other
/// relative path is accepted.
pub fn safe_local_path(data_dir: &str, rel_path: &str) -> (r: Result<String, PathError>)
    ensures
        r is Err <==> is_unsafe_rel_path(rel_path@),
        r is Ok ==> r->Ok_0@ == data_dir@ + seq!['/'] + rel_path@,
{
    let n = rel_path.unicode_len();
    if n > 0 && is_sep_exec(rel_path.get_char(0)) {
        return Err(PathError::UnsafePath);
    }
    if n >= 2 && rel_path.get_char(1) == ':' {
        return Err(PathError::UnsafePath);
    }
    let mut i: usize = 0;
    while i < n
        invariant
            n == rel_path@.len(),
            i <= n,
            forall|k: int|
                #![trigger rel_path@[k]]
                0 <= k < i ==> !(k + 2 <= rel_path@.len() && rel_path@[k] == '.' && rel_path@[k + 1]
                    == '.' && (k == 0 || is_sep(rel_path@[k - 1])) && (k + 2 == rel_path@.len()
                    || is_sep(rel_path@[k + 2]))),
        decreases n - i,
    {
        if rel_path.get_char(i) == '.' && i + 1 < n && rel_path.get_char(i + 1) == '.' {
            let before_ok = i == 0 || is_sep_exec(rel_path.get_char(i - 1));
            let after_ok = i + 2 == n || is_sep_exec(rel_path.get_char(i + 2));
            if before_ok && after_ok {
                assert(has_parent_segment(rel_path@));
                return Err(PathError::UnsafePath);
            }
        }
        i = i + 1;
    }
    assert(!has_parent_segment(rel_path@));
    let mut out = data_dir.to_owned();
    out.append("/");
    out.append(rel_path);
    proof {
        reveal_strlit("/");
        assert("/"@ =~= seq!['/']);
    }
    Ok(out)
}

/// A character sequence without path separators.
pub open spec fn sep_free(t: Seq<char>) -> bool {
    forall|i: int| 0 <= i < t.len() ==> !is_sep(#[trigger] t[i])
}

proof fn lemma_split_parts_sep_free(s: Seq<char>)
    ensures
        forall|k: int| 0 <= k < spec_split(s).len() ==> sep_free(#[trigger] spec_split(s)[k]),
    decreases s.len(),
{
    if s.len() == 0 {
        assert forall|k: int| 0 <= k < spec_split(s).len() implies sep_free(
            #[trigger] spec_split(s)[k],
        ) by {
            assert(spec_split(s)[k] =~= Seq::<char>::empty());
        }
    } else {
        lemma_split_parts_sep_free(s.drop_last());
        lemma_split_len(s.drop_last());
        let rest = spec_split(s.drop_last());
        if is_sep(s.last()) {
            assert forall|k: int| 0 <= k < spec_split(s).len() implies sep_free(
                #[trigger] spec_split(s)[k],
            ) by {
                if k < rest.len() {
                    assert(spec_split(s)[k] == rest[k]);
                } else {
                    assert(spec_split(s)[k] =~= Seq::<char>::empty());
                }
            }
        } else {
            assert forall|k: int| 0 <= k < spec_split(s).len() implies sep_free(
                #[trigger] spec_split(s)[k],
            ) by {
                if k < rest.len() - 1 {
                    assert(spec_split(s)[k] == rest[k]);
                } else {
                    assert(spec_split(s)[k] == rest.last().push(s.last()));
                    assert(sep_free(rest[rest.len() - 1]));
                    assert forall|i: int|
                        0 <= i < rest.last().push(s.last()).len() implies !is_sep(
                        #[trigger] rest.last().push(s.last())[i],
                    ) by {
                        if i < rest.last().len() {
                            assert(rest.last().push(s.last())[i] == rest.last()[i]);
                        }
                    }
                }
            }
        }
    }
}

proof fn lemma_nonempty_parts_elems(parts: Seq<Seq<char>>)
    ensures
        forall|k: int|
            0 <= k < nonempty_parts(parts).len() ==> (#[trigger] nonempty_parts(parts)[k]).len() > 0
                && parts.contains(nonempty_parts(parts)[k]),
    decreases parts.len(),
{
    if parts.len() == 0 {
        reveal(Seq::filter);
    } else {
        lemma_nonempty_parts_elems(parts.drop_last());
        lemma_nonempty_parts_push(parts.drop_last(), parts.last());
        assert(parts.drop_last().push(parts.last()) =~~= parts);
        let f = nonempty_parts(parts);
        let fd = nonempty_parts(parts.drop_last());
        assert forall|k: int| 0 <= k < f.len() implies (#[trigger] f[k]).len() > 0
            && parts.contains(f[k]) by {
            if k < fd.len() {
                assert(f[k] == fd[k]);
                let j = choose|j: int|
                    0 <= j < parts.drop_last().len() && parts.drop_last()[j] == fd[k];
                assert(parts[j] == fd[k]);
            } else {
                assert(f[k] == parts.last());
                assert(parts[parts.len() - 1] == parts.last());
            }
        }
    }
}

/// Every segment of a path is non-empty and free of separators.
pub proof fn lemma_segments_props(s: Seq<char>)
    ensures
        forall|k: int|
            0 <= k < spec_segments(s).len() ==> (#[trigger] spec_segments(s)[k]).len() > 0
                && sep_free(spec_segments(s)[k]),
{
    lemma_split_parts_sep_free(s);
    lemma_nonempty_parts_elems(spec_split(s));
    assert forall|k: int| 0 <= k < spec_segments(s).len() implies (
    #[trigger] spec_segments(s)[k]).len() > 0 && sep_free(spec_segments(s)[k]) by {
        let j = choose|j: int|
            0 <= j < spec_split(s).len() && spec_split(s)[j] == spec_segments(s)[k];
    }
}

proof fn lemma_split_single(w: Seq<char>)
    requires
        sep_free(w),
    ensures
        spec_split(w) == seq![w],
    decreases w.len(),
{
    if w.len() == 0 {
        assert(spec_split(w) =~~= seq![w]);
    } else {
        assert(!is_sep(w.last()));
        lemma_split_single(w.drop_last());
        assert(spec_split(w) =~~= seq![w.drop_last().push(w.last())]);
        assert(w.drop_last().push(w.last()) =~= w);
        assert(spec_split(w) =~~= seq![w]);
    }
}

proof fn lemma_split_concat(x: Seq<char>, y: Seq<char>, c: char)
    requires
        is_sep(c),
    ensures
        spec_split(x + seq![c] + y) == spec_split(x) + spec_split(y),
    decreases y.len(),
{
    let q = x + seq![c] + y;
    if y.len() == 0 {
        assert(q =~= x.push(c));
        assert(q.drop_last() =~= x);
        assert(spec_split(q) =~~= spec_split(x) + seq![Seq::<char>::empty()]);
        assert(spec_split(y) =~~= seq![Seq::<char>::empty()]);
        assert(spec_split(q) =~~= spec_split(x) + spec_split(y));
    } else {
        lemma_split_concat(x, y.drop_last(), c);
        lemma_split_len(y.drop_last());
        lemma_split_len(x);
        assert(q.drop_last() =~= x + seq![c] + y.drop_last());
        assert(q.last() == y.last());
        let u = spec_split(x) + spec_split(y.drop_last());
        assert(spec_split(q.drop_last()) == u);
        if is_sep(y.last()) {
            assert(spec_split(q) =~~= u + seq![Seq::<char>::empty()]);
            assert(spec_split(y) =~~= spec_split(y.drop_last()) + seq![Seq::<char>::empty()]);
            assert(u + seq![Seq::<char>::empty()] =~~= spec_split(x) + spec_split(y));
        } else {
            assert(u.last() == spec_split(y.drop_last()).last());
            assert(spec_split(q) =~~= u.update(u.len() - 1, u.last().push(y.last())));
            assert(spec_split(y) =~~= spec_split(y.drop_last()).update(
                spec_split(y.drop_last()).len() - 1,
                spec_split(y.drop_last()).last().push(y.last()),
            ));
            assert(u.update(u.len() - 1, u.last().push(y.last())) =~~= spec_split(x) + spec_split(
                y,
            ));
        }
    }
}

proof fn lemma_nonempty_parts_add(a: Seq<Seq<char>>, b: Seq<Seq<char>>)
    ensures
        nonempty_parts(a + b) == nonempty_parts(a) + nonempty_parts(b),
    decreases b.len(),
{
    if b.len() == 0 {
        assert(a + b =~~= a);
        reveal(Seq::filter);
        assert(nonempty_parts(b) =~~= Seq::<Seq<char>>::empty());
        assert(nonempty_parts(a) + nonempty_parts(b) =~~= nonempty_parts(a));
    } else {
        lemma_nonempty_parts_add(a, b.drop_last());
        lemma_nonempty_parts_push(a + b.drop_last(), b.last());
        lemma_nonempty_parts_push(b.drop_last(), b.last());
        assert((a + b.drop_last()).push(b.last()) =~~= a + b);
        assert(b.drop_last().push(b.last()) =~~= b);
        if b.last().len() > 0 {
            assert(nonempty_parts(a) + nonempty_parts(b.drop_last()).push(b.last()) =~~=
                (nonempty_parts(a) + nonempty_parts(b.drop_last())).push(b.last()));
        }
    }
}

proof fn lemma_segments_of_join(t: Seq<Seq<char>>)
    requires
        forall|k: int| 0 <= k < t.len() ==> (#[trigger] t[k]).len() > 0 && sep_free(t[k]),
    ensures
        spec_segments(spec_join(t)) == t,
    decreases t.len(),
{
    if t.len() == 0 {
        reveal(Seq::filter);
        assert(spec_join(t) =~= Seq::<char>::empty());
        assert(spec_split(Seq::<char>::empty()) =~~= seq![Seq::<char>::empty()]);
        lemma_nonempty_parts_push(Seq::<Seq<char>>::empty(), Seq::<char>::empty());
        assert(Seq::<Seq<char>>::empty().push(Seq::<char>::empty()) =~~= seq![
            Seq::<char>::empty(),
        ]);
        assert(spec_segments(spec_join(t)) =~~= t);
    } else if t.len() == 1 {
        lemma_split_single(t[0]);
        reveal(Seq::filter);
        lemma_nonempty_parts_push(Seq::<Seq<char>>::empty(), t[0]);
        assert(Seq::<Seq<char>>::empty().push(t[0]) =~~= seq![t[0]]);
        assert(nonempty_parts(Seq::<Seq<char>>::empty()) =~~= Seq::<Seq<char>>::empty());
        assert(spec_segments(spec_join(t)) =~~= t);
    } else {
        lemma_segments_of_join(t.drop_last());
        lemma_split_concat(spec_join(t.drop_last()), t.last(), '/');
        lemma_nonempty_parts_add(spec_split(spec_join(t.drop_last())), spec_split(t.last()));
        lemma_split_single(t.last());
        reveal(Seq::filter);
        lemma_nonempty_parts_push(Seq::<Seq<char>>::empty(), t.last());
        assert(Seq::<Seq<char>>::empty().push(t.last()) =~~= seq![t.last()]);
        assert(nonempty_parts(seq![t.last()]) =~~= seq![t.last()]);
        assert(spec_segments(spec_join(t)) =~~= t.drop_last() + seq![t.last()]);
        assert(t.drop_last() + seq![t.last()] =~~= t);
    }
}

proof fn lemma_tail_after_novels_inv(parts: Seq<Seq<char>>)
    requires
        spec_tail_after_novels(parts) is Some,
    ensures
        exists|i: int|
            #![trigger parts[i]]
            0 <= i < parts.len() && is_novels_segment(parts[i]) && (forall|j: int|
                i < j < parts.len() ==> !is_novels_segment(#[trigger] parts[j]))
                && spec_tail_after_novels(parts) == Some(
                parts.subrange(i + 1, parts.len() as int),
            ),
    decreases parts.len(),
{
    if is_novels_segment(parts.last()) {
        let i = parts.len() - 1;
        assert(parts.subrange(i + 1, parts.len() as int) =~~= Seq::<Seq<char>>::empty());
        assert(0 <= i < parts.len() && is_novels_segment(parts[i]) && (forall|j: int|
            i < j < parts.len() ==> !is_novels_segment(#[trigger] parts[j]))
            && spec_tail_after_novels(parts) == Some(
            parts.subrange(i + 1, parts.len() as int),
        ));
    } else {
        lemma_tail_after_novels_inv(parts.drop_last());
        let i = choose|i: int|
            #![trigger parts.drop_last()[i]]
            0 <= i < parts.drop_last().len() && is_novels_segment(parts.drop_last()[i]) && (
            forall|j: int|
                i < j < parts.drop_last().len() ==> !is_novels_segment(
                    #[trigger] parts.drop_last()[j],
                )) && spec_tail_after_novels(parts.drop_last()) == Some(
                parts.drop_last().subrange(i + 1, parts.drop_last().len() as int),
            );
        assert(parts[i] == parts.drop_last()[i]);
        assert forall|j: int| i < j < parts.len() implies !is_novels_segment(
            #[trigger] parts[j],
        ) by {
            if j < parts.len() - 1 {
                assert(parts[j] == parts.drop_last()[j]);
            }
        }
        assert(parts.drop_last().subrange(i + 1, parts.len() - 1).push(parts.last()) =~~=
            parts.subrange(i + 1, parts.len() as int));
        assert(0 <= i < parts.len() && is_novels_segment(parts[i]) && (forall|j: int|
            i < j < parts.len() ==> !is_novels_segment(#[trigger] parts[j]))
            && spec_tail_after_novels(parts) == Some(
            parts.subrange(i + 1, parts.len() as int),
        ));
    }
}

/// A portable `novels/<relative>` path keeps the same relative path when
/// read back.
pub proof fn lemma_novels_rel_of_portable(p: Seq<char>)
    requires
        spec_novels_rel(p) is Some,
    ensures
        spec_novels_rel(spec_portable_path(p)) == spec_novels_rel(p),
{
    let segs = spec_segments(p);
    lemma_tail_after_novels_inv(segs);
    let i = choose|i: int|
        #![trigger segs[i]]
        0 <= i < segs.len() && is_novels_segment(segs[i]) && (forall|j: int|
            i < j < segs.len() ==> !is_novels_segment(#[trigger] segs[j]))
            && spec_tail_after_novels(segs) == Some(segs.subrange(i + 1, segs.len() as int));
    let t = segs.subrange(i + 1, segs.len() as int);
    lemma_segments_props(p);
    assert forall|k: int| 0 <= k < t.len() implies (#[trigger] t[k]).len() > 0 && sep_free(
        t[k],
    ) by {
        assert(t[k] == segs[i + 1 + k]);
    }
    let nov = seq!['n', 'o', 'v', 'e', 'l', 's'];
    assert(is_novels_segment(nov));
    assert(sep_free(nov)) by {
        assert forall|k: int| 0 <= k < nov.len() implies !is_sep(#[trigger] nov[k]) by {}
    }
    assert(spec_portable_path(p) =~= nov + seq!['/'] + spec_join(t));
    lemma_split_concat(nov, spec_join(t), '/');
    lemma_nonempty_parts_add(spec_split(nov), spec_split(spec_join(t)));
    lemma_split_single(nov);
    reveal(Seq::filter);
    lemma_nonempty_parts_push(Seq::<Seq<char>>::empty(), nov);
    assert(Seq::<Seq<char>>::empty().push(nov) =~~= seq![nov]);
    assert(nonempty_parts(seq![nov]) =~~= seq![nov]);
    lemma_segments_of_join(t);
    assert(spec_segments(spec_portable_path(p)) =~~= seq![nov] + t);
    let full = seq![nov] + t;
    assert forall|j: int| 0 < j < full.len() implies !is_novels_segment(#[trigger] full[j]) by {
        assert(full[j] == t[j - 1]);
        assert(t[j - 1] == segs[i + j]);
    }
    assert(full[0] == nov);
    lemma_tail_after_novels_at(full, 0);
    assert(full.subrange(1, full.len() as int) =~~= t);
}

/// The portable rewrite loses nothing: localizing a saved, portable path
/// lands exactly where localizing the original path would. Saving and
/// loading therefore reproduce the same local novel paths.
pub proof fn lemma_portable_localize_roundtrip(p: Seq<char>, novels_dir: Seq<char>)
    ensures
        spec_localize_path(spec_portable_path(p), novels_dir) == spec_localize_path(p, novels_dir),
{
    if spec_novels_rel(p) is Some {
        lemma_novels_rel_of_portable(p);
    }
}

} // verus!
