//! A novel open in the reader: its text content and the chapter headings
//! recognised in it.

use vstd::prelude::*;

use crate::model::ReadingProgress;
use crate::paths::{spec_title_of, title_from_path};
use crate::strutil::push_char;

verus! {

/// A chapter heading: its text and the line it starts on.
#[derive(Debug, PartialEq)]
pub struct Chapter {
    pub title: String,
    pub start_line: usize,
}

/// Mathematical image of a [`Chapter`].
pub struct ChapterView {
    pub title: Seq<char>,
    pub start_line: usize,
}

impl View for Chapter {
    type V = ChapterView;

    open spec fn view(&self) -> ChapterView {
        ChapterView { title: self.title@, start_line: self.start_line }
    }
}

impl DeepView for Chapter {
    type V = ChapterView;

    open spec fn deep_view(&self) -> ChapterView {
        self.view()
    }
}

impl Clone for Chapter {
    fn clone(&self) -> (r: Self)
        ensures
            r == *self,
    {
        Chapter { title: self.title.clone(), start_line: self.start_line }
    }
}

/// A novel: display title, OS path, text content, reading progress, and
/// the chapter headings found in the content.
#[derive(Debug, PartialEq)]
pub struct Novel {
    pub title: String,
    pub path: String,
    pub content: String,
    pub progress: ReadingProgress,
    pub chapters: Vec<Chapter>,
}

impl Novel {
    /// A novel at `path`, titled after the path's base name, with nothing
    /// loaded yet.
    pub fn new(path: String) -> (r: Novel)
        ensures
            r.title@ == spec_title_of(path@),
            r.path@ == path@,
            r.content@.len() == 0,
            r.progress.scroll_offset == 0,
            r.progress.bookmarks@.len() == 0,
            r.chapters@.len() == 0,
    {
        Novel {
            title: title_from_path(path.as_str()),
            path,
            content: String::new(),
            progress: ReadingProgress::default(),
            chapters: Vec::new(),
        }
    }
}

/// The lines of a text: split at `'\n'`, keeping empty lines.
pub open spec fn spec_split_lines(s: Seq<char>) -> Seq<Seq<char>>
    decreases s.len(),
{
    if s.len() == 0 {
        seq![Seq::<char>::empty()]
    } else {
        let rest = spec_split_lines(s.drop_last());
        if s.last() == '\n' {
            rest + seq![Seq::<char>::empty()]
        } else {
            rest.update(rest.len() - 1, rest.last().push(s.last()))
        }
    }
}

proof fn lemma_split_lines_len(s: Seq<char>)
    ensures
        spec_split_lines(s).len() >= 1,
    decreases s.len(),
{
    if s.len() > 0 {
        lemma_split_lines_len(s.drop_last());
    }
}

/// Splits a text into its lines.
pub fn split_lines(s: &str) -> (r: Vec<String>)
    ensures
        r.deep_view() == spec_split_lines(s@),
{
    let n = s.unicode_len();
    let mut res: Vec<String> = Vec::new();
    let mut cur = String::new();
    let mut i: usize = 0;
    while i < n
        invariant
            n == s@.len(),
            i <= n,
            res.deep_view() == spec_split_lines(s@.take(i as int)).drop_last(),
            cur@ == spec_split_lines(s@.take(i as int)).last(),
        decreases n - i,
    {
        let ghost pre = s@.take(i as int);
        let ghost sl = spec_split_lines(pre);
        let ghost r0 = res.deep_view();
        let ghost cv = cur@;
        proof {
            lemma_split_lines_len(pre);
            assert(s@.take(i + 1).drop_last() =~= pre);
        }
        let c = s.get_char(i);
        proof {
            assert(s@.take(i + 1).last() == c);
        }
        if c == '\n' {
            res.push(cur);
            cur = String::new();
            proof {
                assert(res.deep_view() =~~= r0.push(cv));
                assert(r0.push(cv) =~~= sl);
                assert(spec_split_lines(s@.take(i + 1)) =~~= sl + seq![Seq::<char>::empty()]);
                assert(res.deep_view() =~~= spec_split_lines(s@.take(i + 1)).drop_last());
            }
        } else {
            push_char(&mut cur, c);
            proof {
                let sl2 = spec_split_lines(s@.take(i + 1));
                assert(sl2 =~~= sl.update(sl.len() - 1, sl.last().push(c)));
                assert(res.deep_view() =~~= sl2.drop_last());
                assert(cur@ =~= sl2.last());
            }
        }
        i = i + 1;
    }
    proof {
        lemma_split_lines_len(s@);
        assert(s@.take(n as int) =~= s@);
    }
    let ghost r0 = res.deep_view();
    let ghost cv = cur@;
    res.push(cur);
    proof {
        assert(res.deep_view() =~~= r0.push(cv));
        assert(r0.push(cv) =~~= spec_split_lines(s@));
    }
    res
}

/// Whitespace, for the purposes of heading detection: ASCII blanks and the
/// ideographic space.
pub open spec fn is_space_char(c: char) -> bool {
    c == ' ' || c == '\t' || c == '\r' || c == '\n' || c == '\u{3000}'
}

/// A line with leading and trailing whitespace removed.
pub open spec fn spec_trim_end(s: Seq<char>) -> Seq<char>
    decreases s.len(),
{
    if s.len() > 0 && is_space_char(s.last()) {
        spec_trim_end(s.drop_last())
    } else {
        s
    }
}

pub open spec fn spec_trim_start(s: Seq<char>) -> Seq<char>
    decreases s.len(),
{
    if s.len() > 0 && is_space_char(s[0]) {
        spec_trim_start(s.drop_first())
    } else {
        s
    }
}

pub open spec fn spec_trim(s: Seq<char>) -> Seq<char> {
    spec_trim_start(spec_trim_end(s))
}

proof fn lemma_trim_end_at(s: Seq<char>, b: int)
    requires
        0 <= b <= s.len(),
        forall|k: int| b <= k < s.len() ==> is_space_char(#[trigger] s[k]),
        b > 0 ==> !is_space_char(s[b - 1]),
    ensures
        spec_trim_end(s) == s.take(b),
    decreases s.len(),
{
    if b == s.len() {
        assert(s.take(b) =~= s);
    } else {
        lemma_trim_end_at(s.drop_last(), b);
        assert(s.drop_last().take(b) =~= s.take(b));
    }
}

proof fn lemma_trim_start_at(s: Seq<char>, a: int)
    requires
        0 <= a <= s.len(),
        forall|k: int| 0 <= k < a ==> is_space_char(#[trigger] s[k]),
        a < s.len() ==> !is_space_char(s[a]),
    ensures
        spec_trim_start(s) == s.subrange(a, s.len() as int),
    decreases a,
{
    if a == 0 {
        if s.len() > 0 {
            assert(!is_space_char(s[0]));
        }
        assert(s.subrange(0, s.len() as int) =~= s);
    } else {
        lemma_trim_start_at(s.drop_first(), a - 1);
        assert(s.drop_first().subrange(a - 1, s.drop_first().len() as int) =~= s.subrange(
            a,
            s.len() as int,
        ));
    }
}

fn is_space_exec(c: char) -> (r: bool)
    ensures
        r == is_space_char(c),
{
    c == ' ' || c == '\t' || c == '\r' || c == '\n' || c == '\u{3000}'
}

/// Removes leading and trailing whitespace.
pub fn trim_str(s: &str) -> (r: String)
    ensures
        r@ == spec_trim(s@),
{
    let n = s.unicode_len();
    let mut b: usize = n;
    while b > 0 && is_space_exec(s.get_char(b - 1))
        invariant
            n == s@.len(),
            b <= n,
            forall|k: int| b <= k < n ==> is_space_char(#[trigger] s@[k]),
        decreases b,
    {
        b = b - 1;
    }
    proof {
        lemma_trim_end_at(s@, b as int);
    }
    let mut a: usize = 0;
    while a < b && is_space_exec(s.get_char(a))
        invariant
            n == s@.len(),
            a <= b <= n,
            forall|k: int| 0 <= k < a ==> is_space_char(#[trigger] s@[k]),
        decreases b - a,
    {
        a = a + 1;
    }
    let t = s.substring_char(a, b);
    proof {
        let e = s@.take(b as int);
        assert(forall|k: int| 0 <= k < e.len() ==> e[k] == s@[k]);
        lemma_trim_start_at(e, a as int);
        assert(t@ =~= spec_trim(s@));
    }
    t.to_owned()
}

/// A chapter-count keyword.
pub open spec fn is_kw_char(c: char) -> bool {
    c == '章' || c == '回' || c == '节' || c == '卷' || c == '部' || c == '篇'
}

/// A Chinese numeral character.
pub open spec fn is_cn_num_char(c: char) -> bool {
    c == '一' || c == '二' || c == '三' || c == '四' || c == '五' || c == '六' || c == '七' || c
        == '八' || c == '九' || c == '十' || c == '百' || c == '千' || c == '万'
}

/// An ASCII decimal digit.
pub open spec fn is_digit_char(c: char) -> bool {
    '0' <= c && c <= '9'
}

/// A numbered heading: `第`, then at least one character without
/// whitespace, then a count keyword — judged at the first keyword of the line.
pub open spec fn rule_numbered_heading(line: Seq<char>) -> bool {
    line.len() >= 1 && line[0] == '第' && (exists|k: int|
        #![trigger line[k]]
        1 <= k < line.len() && is_kw_char(line[k]) && (forall|j: int|
            1 <= j < k ==> !is_kw_char(#[trigger] line[j])) && k >= 2 && (forall|j: int|
            1 <= j < k ==> !is_space_char(#[trigger] line[j])))
}

/// An English heading: the line begins with `chapter` in any case.
pub open spec fn rule_english_heading(line: Seq<char>) -> bool {
    line.len() >= 7 && (line[0] == 'c' || line[0] == 'C') && (line[1] == 'h' || line[1] == 'H') && (
    line[2] == 'a' || line[2] == 'A') && (line[3] == 'p' || line[3] == 'P') && (line[4] == 't'
        || line[4] == 'T') && (line[5] == 'e' || line[5] == 'E') && (line[6] == 'r' || line[6]
        == 'R')
}

/// A special section heading: the line begins with one of the fixed
/// two-character section words.
pub open spec fn rule_special_heading(line: Seq<char>) -> bool {
    line.len() >= 2 && ((line[0] == '序' && line[1] == '章') || (line[0] == '序' && line[1]
        == '言') || (line[0] == '楔' && line[1] == '子') || (line[0] == '尾' && line[1] == '声') || (
    line[0] == '后' && line[1] == '记') || (line[0] == '番' && line[1] == '外') || (line[0] == '终'
        && line[1] == '章') || (line[0] == '结' && line[1] == '语') || (line[0] == '引' && line[1]
        == '子') || (line[0] == '开' && line[1] == '篇'))
}

/// A short numbered list heading: digits followed by `.` or `、`.
pub open spec fn rule_digit_heading(line: Seq<char>) -> bool {
    2 <= line.len() <= 10 && (line.last() == '.' || line.last() == '、') && (forall|j: int|
        0 <= j < line.len() - 1 ==> is_digit_char(#[trigger] line[j]))
}

/// A short Chinese-numeral heading: numerals followed by `、` or `.`.
pub open spec fn rule_cn_num_heading(line: Seq<char>) -> bool {
    2 <= line.len() <= 10 && (line.last() == '、' || line.last() == '.') && (forall|j: int|
        0 <= j < line.len() - 1 ==> is_cn_num_char(#[trigger] line[j]))
}

/// The chapter-heading heuristic, applied to a trimmed line.
pub open spec fn is_chapter_title_spec(line: Seq<char>) -> bool {
    rule_numbered_heading(line) || rule_english_heading(line) || rule_special_heading(line)
        || rule_digit_heading(line) || rule_cn_num_heading(line)
}

fn is_kw_exec(c: char) -> (r: bool)
    ensures
        r == is_kw_char(c),
{
    c == '章' || c == '回' || c == '节' || c == '卷' || c == '部' || c == '篇'
}

fn is_cn_num_exec(c: char) -> (r: bool)
    ensures
        r == is_cn_num_char(c),
{
    c == '一' || c == '二' || c == '三' || c == '四' || c == '五' || c == '六' || c == '七' || c
        == '八' || c == '九' || c == '十' || c == '百' || c == '千' || c == '万'
}

fn check_numbered_heading(line: &str) -> (r: bool)
    ensures
        r == rule_numbered_heading(line@),
{
    let n = line.unicode_len();
    if n == 0 || line.get_char(0) != '第' {
        return false;
    }
    let mut k: usize = 1;
    while k < n && !is_kw_exec(line.get_char(k))
        invariant
            n == line@.len(),
            1 <= k <= n,
            forall|j: int| 1 <= j < k ==> !is_kw_char(#[trigger] line@[j]),
        decreases n - k,
    {
        k = k + 1;
    }
    if k >= n {
        // no keyword anywhere
        return false;
    }
    if k < 2 {
        return false;
    }
    let mut j: usize = 1;
    while j < k && !is_space_exec(line.get_char(j))
        invariant
            n == line@.len(),
            k < n,
            1 <= j <= k,
            forall|t: int| 1 <= t < j ==> !is_space_char(#[trigger] line@[t]),
        decreases k - j,
    {
        j = j + 1;
    }
    if j < k {
        // whitespace between the marker and the keyword
        assert forall|k2: int|
            #![trigger line@[k2]]
            1 <= k2 < line@.len() && is_kw_char(line@[k2]) && (forall|j2: int|
                1 <= j2 < k2 ==> !is_kw_char(#[trigger] line@[j2])) implies !(k2 >= 2 && (
        forall|j2: int| 1 <= j2 < k2 ==> !is_space_char(#[trigger] line@[j2]))) by {
            assert(k2 == k) by {
                if k2 < k {
                    assert(!is_kw_char(line@[k2]));
                }
                if k2 > k {
                    assert(!is_kw_char(line@[k as int]));
                }
            }
            assert(is_space_char(line@[j as int]));
        }
        return false;
    }
    true
}

fn check_english_heading(line: &str) -> (r: bool)
    ensures
        r == rule_english_heading(line@),
{
    let n = line.unicode_len();
    if n < 7 {
        return false;
    }
    let c0 = line.get_char(0);
    let c1 = line.get_char(1);
    let c2 = line.get_char(2);
    let c3 = line.get_char(3);
    let c4 = line.get_char(4);
    let c5 = line.get_char(5);
    let c6 = line.get_char(6);
    (c0 == 'c' || c0 == 'C') && (c1 == 'h' || c1 == 'H') && (c2 == 'a' || c2 == 'A') && (c3 == 'p'
        || c3 == 'P') && (c4 == 't' || c4 == 'T') && (c5 == 'e' || c5 == 'E') && (c6 == 'r' || c6
        == 'R')
}

fn check_special_heading(line: &str) -> (r: bool)
    ensures
        r == rule_special_heading(line@),
{
    let n = line.unicode_len();
    if n < 2 {
        return false;
    }
    let c0 = line.get_char(0);
    let c1 = line.get_char(1);
    (c0 == '序' && c1 == '章') || (c0 == '序' && c1 == '言') || (c0 == '楔' && c1 == '子') || (c0
        == '尾' && c1 == '声') || (c0 == '后' && c1 == '记') || (c0 == '番' && c1 == '外') || (c0
        == '终' && c1 == '章') || (c0 == '结' && c1 == '语') || (c0 == '引' && c1 == '子') || (c0
        == '开' && c1 == '篇')
}

fn check_digit_heading(line: &str) -> (r: bool)
    ensures
        r == rule_digit_heading(line@),
{
    let n = line.unicode_len();
    if n < 2 || n > 10 {
        return false;
    }
    let last = line.get_char(n - 1);
    if !(last == '.' || last == '、') {
        return false;
    }
    let mut j: usize = 0;
    while j < n - 1
        invariant
            n == line@.len(),
            2 <= n <= 10,
            j <= n - 1,
            forall|t: int| 0 <= t < j ==> is_digit_char(#[trigger] line@[t]),
        decreases n - 1 - j,
    {
        let c = line.get_char(j);
        if c < '0' || c > '9' {
            return false;
        }
        j = j + 1;
    }
    true
}

fn check_cn_num_heading(line: &str) -> (r: bool)
    ensures
        r == rule_cn_num_heading(line@),
{
    let n = line.unicode_len();
    if n < 2 || n > 10 {
        return false;
    }
    let last = line.get_char(n - 1);
    if !(last == '、' || last == '.') {
        return false;
    }
    let mut j: usize = 0;
    while j < n - 1
        invariant
            n == line@.len(),
            2 <= n <= 10,
            j <= n - 1,
            forall|t: int| 0 <= t < j ==> is_cn_num_char(#[trigger] line@[t]),
        decreases n - 1 - j,
    {
        if !is_cn_num_exec(line.get_char(j)) {
            return false;
        }
        j = j + 1;
    }
    true
}

/// Decides whether a trimmed line reads as a chapter heading.
pub fn is_chapter_title(line: &str) -> (r: bool)
    ensures
        r == is_chapter_title_spec(line@),
{
    if check_numbered_heading(line) {
        return true;
    }
    if check_english_heading(line) {
        return true;
    }
    if check_special_heading(line) {
        return true;
    }
    if check_digit_heading(line) {
        return true;
    }
    check_cn_num_heading(line)
}

/// The chapter headings of the lines from index `i` on: each non-blank
/// trimmed line that reads as a heading, with its line index.
pub open spec fn spec_chapters_from(lines: Seq<Seq<char>>, i: int) -> Seq<ChapterView>
    decreases lines.len() - i,
{
    if i < 0 || i >= lines.len() {
        Seq::<ChapterView>::empty()
    } else {
        let t = spec_trim(lines[i]);
        (if t.len() > 0 && is_chapter_title_spec(t) {
            seq![ChapterView { title: t, start_line: i as usize }]
        } else {
            Seq::<ChapterView>::empty()
        }) + spec_chapters_from(lines, i + 1)
    }
}

/// The chapter headings of a whole text.
pub open spec fn spec_chapters_of(content: Seq<char>) -> Seq<ChapterView> {
    spec_chapters_from(spec_split_lines(content), 0)
}

impl Novel {
    /// Rebuilds the chapter list from the novel's content: every non-blank
    /// line that reads as a chapter heading, in order of appearance.
    pub fn parse_chapters(&mut self)
        ensures
            final(self).chapters.deep_view() == spec_chapters_of(old(self).content@),
            final(self).title == old(self).title,
            final(self).path == old(self).path,
            final(self).content == old(self).content,
            final(self).progress == old(self).progress,
    {
        let lines = split_lines(self.content.as_str());
        let n = lines.len();
        let mut chapters: Vec<Chapter> = Vec::new();
        let ghost ldv = lines.deep_view();
        let mut i: usize = 0;
        while i < n
            invariant
                n == lines@.len(),
                i <= n,
                ldv == lines.deep_view(),
                spec_chapters_from(ldv, 0) == chapters.deep_view() + spec_chapters_from(
                    ldv,
                    i as int,
                ),
            decreases n - i,
        {
            proof {
                assert(ldv[i as int] == lines@[i as int]@);
            }
            let ghost c0 = chapters.deep_view();
            let trimmed = trim_str(lines[i].as_str());
            let keep = !trimmed.as_str().is_empty() && is_chapter_title(trimmed.as_str());
            if keep {
                let start_line = i;
                chapters.push(Chapter { title: trimmed, start_line });
                proof {
                    assert(chapters.deep_view() =~= c0.push(
                        ChapterView { title: spec_trim(ldv[i as int]), start_line: i as usize },
                    ));
                    assert(c0.push(
                        ChapterView { title: spec_trim(ldv[i as int]), start_line: i as usize },
                    ) + spec_chapters_from(ldv, i + 1) =~= c0 + (seq![
                        ChapterView { title: spec_trim(ldv[i as int]), start_line: i as usize },
                    ] + spec_chapters_from(ldv, i + 1)));
                }
            } else {
                proof {
                    assert(c0 + (Seq::<ChapterView>::empty() + spec_chapters_from(ldv, i + 1)) =~= c0
                        + spec_chapters_from(ldv, i + 1));
                }
            }
            i = i + 1;
        }
        proof {
            assert(chapters.deep_view() + spec_chapters_from(ldv, n as int) =~= chapters.deep_view());
        }
        self.chapters = chapters;
    }
}

/// The index of the first chapter whose start line exceeds `current`.
pub open spec fn first_exceeding(s: Seq<ChapterView>, current: usize) -> int
    decreases s.len(),
{
    if s.len() == 0 {
        0
    } else if s[0].start_line > current {
        0
    } else {
        1 + first_exceeding(s.drop_first(), current)
    }
}

proof fn lemma_first_exceeding_at(s: Seq<ChapterView>, current: usize, i: int)
    requires
        0 <= i <= s.len(),
        forall|k: int| 0 <= k < i ==> (#[trigger] s[k]).start_line <= current,
        i < s.len() ==> s[i].start_line > current,
    ensures
        first_exceeding(s, current) == i,
    decreases i,
{
    if i > 0 {
        lemma_first_exceeding_at(s.drop_first(), current, i - 1);
    }
}

/// The chapter the reader is in: the last chapter starting at or before
/// `current_line`, or the first chapter when all start beyond it.
pub fn find_chapter_index(chapters: &Vec<Chapter>, current_line: usize) -> (r: usize)
    ensures
        r == if first_exceeding(chapters.deep_view(), current_line) == 0 {
            0int
        } else {
            first_exceeding(chapters.deep_view(), current_line) - 1
        },
{
    let n = chapters.len();
    let mut i: usize = 0;
    while i < n && chapters[i].start_line <= current_line
        invariant
            n == chapters@.len(),
            i <= n,
            forall|k: int| 0 <= k < i ==> (#[trigger] chapters.deep_view()[k]).start_line <= current_line,
        decreases n - i,
    {
        proof {
            assert(chapters.deep_view()[i as int] == chapters@[i as int]@);
        }
        i = i + 1;
    }
    proof {
        if i < n {
            assert(chapters.deep_view()[i as int] == chapters@[i as int]@);
        }
        lemma_first_exceeding_at(chapters.deep_view(), current_line, i as int);
    }
    if i == 0 {
        0
    } else {
        i - 1
    }
}

} // verus!
