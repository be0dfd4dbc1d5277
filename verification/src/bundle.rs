//! Pure bundle-assembly logic: newline normalization, fence sizing, and the
//! export format. No I/O here.

use vstd::prelude::*;
use vstd::string::*;

use crate::anchors::{consistent, lemma_slug_step, no_counts, slug_step, Slugger};
use crate::text::{
    chars_of, decimal, ends_with, matches_at, opt_view, opt_views, push_char, push_chars,
    push_decimal, starts_with, str_ends_with, string_of, trim, trimmed,
};

verus! {

broadcast use vstd::string::group_string_axioms;

/// Output newline style. The "Platform Default" project setting resolves to
/// one of these before reaching this module.
#[derive(Clone, Copy, Debug, PartialEq, Eq, Structural)]
pub enum Newline {
    Unix,
    Windows,
}

impl Newline {
    /// The characters of one line break in this style.
    pub open spec fn text(self) -> Seq<char> {
        match self {
            Newline::Unix => seq!['\n'],
            Newline::Windows => seq!['\r', '\n'],
        }
    }

    fn as_str(self) -> (s: &'static str)
        ensures
            s@ == self.text(),
    {
        match self {
            Newline::Unix => {
                proof {
                    reveal_strlit("\n");
                }
                "\n"
            },
            Newline::Windows => {
                proof {
                    reveal_strlit("\r\n");
                }
                "\r\n"
            },
        }
    }
}

/// `s` with every line break (CRLF, lone CR, LF) replaced by `nl`.
pub open spec fn normalized(s: Seq<char>, nl: Seq<char>) -> Seq<char>
    decreases s.len(),
{
    if s.len() == 0 {
        Seq::empty()
    } else if s[0] == '\r' {
        if s.len() > 1 && s[1] == '\n' {
            nl + normalized(s.skip(2), nl)
        } else {
            nl + normalized(s.skip(1), nl)
        }
    } else if s[0] == '\n' {
        nl + normalized(s.skip(1), nl)
    } else {
        seq![s[0]] + normalized(s.skip(1), nl)
    }
}

pub(crate) fn extend_chars(out: &mut Vec<char>, src: &Vec<char>)
    ensures
        final(out)@ == old(out)@ + src@,
{
    let mut k: usize = 0;
    while k < src.len()
        invariant
            k <= src@.len(),
            out@ == old(out)@ + src@.take(k as int),
        decreases src.len() - k,
    {
        out.push(src[k]);
        assert(src@.take(k + 1) =~= src@.take(k as int).push(src@[k as int]));
        k += 1;
    }
    assert(src@.take(src@.len() as int) =~= src@);
}

pub(crate) fn normalize_vec(v: &Vec<char>, nl: Newline) -> (r: Vec<char>)
    ensures
        r@ == normalized(v@, nl.text()),
{
    let ghost t = nl.text();
    let nlv = chars_of(nl.as_str());
    let mut out: Vec<char> = Vec::new();
    let n = v.len();
    let mut i: usize = 0;
    assert(v@.skip(0) =~= v@);
    while i < n
        invariant
            i <= n == v@.len(),
            nlv@ == t,
            out@ + normalized(v@.skip(i as int), t) == normalized(v@, t),
        decreases n - i,
    {
        let ghost rest = v@.skip(i as int);
        let c = v[i];
        assert(rest[0] == c);
        if c == '\r' {
            if i + 1 < n && v[i + 1] == '\n' {
                assert(rest[1] == '\n');
                assert(rest.skip(2) =~= v@.skip(i + 2));
                extend_chars(&mut out, &nlv);
                i += 2;
            } else {
                assert(rest.skip(1) =~= v@.skip(i + 1));
                extend_chars(&mut out, &nlv);
                i += 1;
            }
        } else if c == '\n' {
            assert(rest.skip(1) =~= v@.skip(i + 1));
            extend_chars(&mut out, &nlv);
            i += 1;
        } else {
            assert(rest.skip(1) =~= v@.skip(i + 1));
            out.push(c);
            i += 1;
        }
    }
    assert(v@.skip(n as int) =~= Seq::<char>::empty());
    assert(out@ + Seq::<char>::empty() =~= out@);
    out
}

/// Normalize all newlines (CRLF, lone CR, LF) to the requested style.
pub fn normalize_newlines(s: &str, nl: Newline) -> (r: String)
    ensures
        r@ == normalized(s@, nl.text()),
{
    let v = chars_of(s);
    let out = normalize_vec(&v, nl);
    string_of(&out)
}

proof fn lemma_normalized_after_break(x: Seq<char>, nl: Newline)
    ensures
        normalized(nl.text() + x, nl.text()) == nl.text() + normalized(x, nl.text()),
{
    let t = nl.text();
    let s = t + x;
    match nl {
        Newline::Unix => {
            assert(s[0] == '\n');
            assert(s.skip(1) =~= x);
        },
        Newline::Windows => {
            assert(s[0] == '\r' && s[1] == '\n');
            assert(s.skip(2) =~= x);
        },
    }
}

proof fn lemma_normalized_after_char(c: char, x: Seq<char>, t: Seq<char>)
    requires
        c != '\r',
        c != '\n',
    ensures
        normalized(seq![c] + x, t) == seq![c] + normalized(x, t),
{
    let s = seq![c] + x;
    assert(s[0] == c);
    assert(s.skip(1) =~= x);
}

/// Unix normalization leaves no carriage return behind.
pub proof fn lemma_unix_normalized_has_no_cr(s: Seq<char>)
    ensures
        forall|i: int|
            0 <= i < normalized(s, Newline::Unix.text()).len() ==> #[trigger] normalized(
                s,
                Newline::Unix.text(),
            )[i] != '\r',
    decreases s.len(),
{
    let t = Newline::Unix.text();
    if s.len() > 0 {
        let rest = if s[0] == '\r' && s.len() > 1 && s[1] == '\n' {
            s.skip(2)
        } else {
            s.skip(1)
        };
        lemma_unix_normalized_has_no_cr(rest);
        let head = if s[0] == '\r' || s[0] == '\n' {
            t
        } else {
            seq![s[0]]
        };
        assert(normalized(s, t) == head + normalized(rest, t));
        assert forall|i: int| 0 <= i < normalized(s, t).len() implies #[trigger] normalized(
            s,
            t,
        )[i] != '\r' by {
            if i >= head.len() {
                assert(normalized(s, t)[i] == normalized(rest, t)[i - head.len()]);
            }
        }
    }
}

/// Normalizing line breaks a second time changes nothing.
pub proof fn lemma_normalize_idempotent(s: Seq<char>, nl: Newline)
    ensures
        normalized(normalized(s, nl.text()), nl.text()) == normalized(s, nl.text()),
    decreases s.len(),
{
    let t = nl.text();
    if s.len() > 0 {
        let rest = if s[0] == '\r' && s.len() > 1 && s[1] == '\n' {
            s.skip(2)
        } else {
            s.skip(1)
        };
        lemma_normalize_idempotent(rest, nl);
        if s[0] == '\r' || s[0] == '\n' {
            assert(normalized(s, t) == t + normalized(rest, t));
            lemma_normalized_after_break(normalized(rest, t), nl);
        } else {
            assert(normalized(s, t) == seq![s[0]] + normalized(rest, t));
            lemma_normalized_after_char(s[0], normalized(rest, t), t);
        }
    }
}

/// `s[i..i + k]` is a run of backticks.
pub open spec fn is_run(s: Seq<char>, i: int, k: nat) -> bool {
    &&& 0 <= i
    &&& i + k <= s.len()
    &&& forall|j: int| i <= j < i + k ==> s[j] == '`'
}

/// `s` holds a run of `k` backticks.
pub open spec fn has_run(s: Seq<char>, k: nat) -> bool {
    exists|i: int| is_run(s, i, k)
}

/// `k` is the length of the longest run of backticks in `s`.
pub open spec fn is_longest_run(s: Seq<char>, k: nat) -> bool {
    &&& has_run(s, k)
    &&& forall|m: nat| has_run(s, m) ==> m <= k
}

/// The length of the longest run of backticks in `s`.
pub open spec fn longest_run(s: Seq<char>) -> nat {
    choose|k: nat| is_longest_run(s, k)
}

/// Width of the fence for `content`: one more than its longest backtick run,
/// at least three.
pub open spec fn fence_width(content: Seq<char>) -> nat {
    if longest_run(content) + 1 > 3 {
        longest_run(content) + 1
    } else {
        3
    }
}

/// `n` backticks.
pub open spec fn backticks(n: nat) -> Seq<char> {
    Seq::new(n, |i: int| '`')
}

fn push_backticks(out: &mut String, n: usize)
    ensures
        final(out)@ == old(out)@ + backticks(n as nat),
{
    let mut k: usize = 0;
    while k < n
        invariant
            k <= n,
            out@ == old(out)@ + backticks(k as nat),
        decreases n - k,
    {
        push_char(out, '`');
        assert(backticks((k + 1) as nat) =~= backticks(k as nat).push('`'));
        k += 1;
    }
}

/// The fence for content given by its characters.
pub(crate) fn fence_of(v: &Vec<char>) -> (fence: String)
    ensures
        fence@ == backticks(fence_width(v@)),
        is_longest_run(v@, longest_run(v@)),
{
    let n = v.len();
    let mut best: usize = 0;
    let mut cur: usize = 0;
    let ghost mut best_at: int = 0;
    let mut i: usize = 0;
    while i < n
        invariant
            i <= n == v@.len(),
            cur <= i,
            best <= i,
            is_run(v@, i - cur, cur as nat),
            i == cur || v@[i - cur - 1] != '`',
            is_run(v@, best_at, best as nat),
            forall|start: int, m: nat| #[trigger] is_run(v@, start, m) && start + m <= i ==> m <= best,
        decreases n - i,
    {
        if v[i] == '`' {
            assert forall|start: int, m: nat| #[trigger] is_run(v@, start, m) && start + m <= i + 1 implies m <= cur + 1 || m <= best by {
                if start + m == i + 1 && m > cur + 1 {
                    assert(v@[i - cur - 1] == '`');
                }
            }
            cur += 1;
            assert(is_run(v@, i + 1 - cur, cur as nat));
            if cur > best {
                best = cur;
                proof {
                    best_at = i + 1 - cur;
                }
            }
        } else {
            assert forall|start: int, m: nat| #[trigger] is_run(v@, start, m) && start + m <= i + 1 implies m <= best by {
                if start + m == i + 1 && m > 0 {
                    assert(v@[i as int] == '`');
                }
            }
            cur = 0;
            assert(is_run(v@, i + 1, 0));
        }
        i += 1;
    }
    assert(is_longest_run(v@, best as nat));
    assert(longest_run(v@) == best) by {
        let l = longest_run(v@);
        assert(is_longest_run(v@, l));
    }
    let mut fence = String::new();
    if best < 2 {
        push_backticks(&mut fence, 3);
    } else {
        push_backticks(&mut fence, best);
        push_char(&mut fence, '`');
        assert(backticks(best as nat).push('`') =~= backticks((best + 1) as nat));
    }
    fence
}

/// A code fence long enough that the content cannot terminate it early:
/// one more backtick than the content's longest run, minimum three.
pub fn fence_for(content: &str) -> (fence: String)
    ensures
        fence@ == backticks(fence_width(content@)),
        !has_run(content@, fence@.len()),
{
    let v = chars_of(content);
    let fence = fence_of(&v);
    fence
}

/// How a file's section is headed in the bundle.
#[derive(Clone, Debug, PartialEq, Eq)]
pub enum BundleHeader {
    Filename,
    Omitted,
    Custom(String),
}

/// The abstract value of a `BundleHeader`.
pub enum HeaderView {
    Filename,
    Omitted,
    Custom(Seq<char>),
}

impl View for BundleHeader {
    type V = HeaderView;

    open spec fn view(&self) -> HeaderView {
        match self {
            BundleHeader::Filename => HeaderView::Filename,
            BundleHeader::Omitted => HeaderView::Omitted,
            BundleHeader::Custom(t) => HeaderView::Custom(t@),
        }
    }
}

/// One file's worth of input to bundle assembly, already read and presented.
pub struct BundleFile {
    /// Path as presented per the project's Path Presentation setting.
    pub display: String,
    /// Optional Markdown info string appended to the opening code fence.
    pub fence_tag: Option<String>,
    pub content: String,
    pub include_code_fence: bool,
    pub include_in_toc: bool,
    pub header: BundleHeader,
}

/// The abstract value of a `BundleFile`.
pub struct BundleFileView {
    pub display: Seq<char>,
    pub fence_tag: Option<Seq<char>>,
    pub content: Seq<char>,
    pub include_code_fence: bool,
    pub include_in_toc: bool,
    pub header: HeaderView,
}

impl View for BundleFile {
    type V = BundleFileView;

    open spec fn view(&self) -> BundleFileView {
        BundleFileView {
            display: self.display@,
            fence_tag: opt_view(self.fence_tag),
            content: self.content@,
            include_code_fence: self.include_code_fence,
            include_in_toc: self.include_in_toc,
            header: self.header@,
        }
    }
}

/// The views of a sequence of files.
pub open spec fn file_views(files: Seq<BundleFile>) -> Seq<BundleFileView> {
    files.map_values(|f: BundleFile| f@)
}

/// The numbered heading `File {index + 1}: {display}`.
pub open spec fn default_heading(index: nat, display: Seq<char>) -> Seq<char> {
    "File "@ + decimal(index + 1) + ": "@ + display
}

/// The heading of file number `index` (from zero), if it has one.
pub open spec fn file_heading(f: BundleFileView, index: nat) -> Option<Seq<char>> {
    match f.header {
        HeaderView::Filename => Some(default_heading(index, f.display)),
        HeaderView::Omitted => None,
        HeaderView::Custom(t) => if trim(t).len() == 0 {
            Some(default_heading(index, f.display))
        } else {
            Some(trim(t))
        },
    }
}

/// The label of a file in the table of contents.
pub open spec fn toc_label(f: BundleFileView) -> Seq<char> {
    match f.header {
        HeaderView::Custom(t) => if trim(t).len() > 0 {
            trim(t)
        } else {
            f.display
        },
        _ => f.display,
    }
}

fn numbered_heading(index: usize, display: &String) -> (h: String)
    requires
        index < usize::MAX,
    ensures
        h@ == default_heading(index as nat, display@),
{
    let mut h = String::new();
    h.append("File ");
    push_decimal(&mut h, (index + 1) as u64);
    h.append(": ");
    h.append(display.as_str());
    h
}

impl BundleFile {
    fn heading(&self, index: usize) -> (h: Option<String>)
        requires
            index < usize::MAX,
        ensures
            opt_view(h) == file_heading(self@, index as nat),
    {
        match &self.header {
            BundleHeader::Filename => Some(numbered_heading(index, &self.display)),
            BundleHeader::Omitted => None,
            BundleHeader::Custom(text) => {
                let text = trimmed(text.as_str());
                if text.as_str().is_empty() {
                    Some(numbered_heading(index, &self.display))
                } else {
                    Some(text)
                }
            },
        }
    }

    fn toc_label(&self) -> (label: String)
        ensures
            label@ == toc_label(self@),
    {
        match &self.header {
            BundleHeader::Custom(text) => {
                let t = trimmed(text.as_str());
                if !t.as_str().is_empty() {
                    t
                } else {
                    self.display.clone()
                }
            },
            _ => self.display.clone(),
        }
    }
}

/// Number of non-overlapping occurrences of `pat` in `s`, scanning from the left.
pub open spec fn count_occ(s: Seq<char>, pat: Seq<char>) -> nat
    decreases s.len(),
{
    if pat.len() == 0 || s.len() == 0 {
        0
    } else if starts_with(s, pat) {
        1 + count_occ(s.skip(pat.len() as int), pat)
    } else {
        count_occ(s.skip(1), pat)
    }
}

/// Number of lines `s` occupies once written out with line breaks `nl`
/// (a final unterminated line counts).
pub open spec fn completed_lines(s: Seq<char>, nl: Seq<char>) -> nat {
    if s.len() == 0 {
        0
    } else {
        count_occ(s, nl) + if ends_with(s, nl) {
            0nat
        } else {
            1nat
        }
    }
}

fn completed_lines_written(s: &Vec<char>, nl: &Vec<char>) -> (n: usize)
    requires
        nl@.len() > 0,
        completed_lines(s@, nl@) <= usize::MAX,
    ensures
        n == completed_lines(s@, nl@),
{
    completed_lines_count(s, nl) as usize
}

/// Lines spanned by a file section: `(start, end, next)` where the section
/// runs from line `start` (its heading, or its first line) to line `end`
/// (its closing fence, or its last line). `before` is the number of the line
/// where the section's leading blank line goes, and `next` the number of the
/// line after the section.
pub open spec fn section_span(f: BundleFileView, index: nat, nl: Seq<char>, before: nat) -> (
    nat,
    nat,
    nat,
) {
    let start = before + 1;
    let body = if file_heading(f, index) is Some {
        start + 2
    } else {
        start
    };
    let cl = completed_lines(normalized(f.content, nl), nl);
    if f.include_code_fence {
        (start, body + 1 + cl, body + 2 + cl)
    } else if cl == 0 {
        (start, start, body)
    } else {
        (start, (body + cl - 1) as nat, body + cl)
    }
}

/// Line ranges of the sections of `files` (numbered from `first`), when the
/// line before the first section is `before`.
pub open spec fn spans_from(files: Seq<BundleFileView>, nl: Seq<char>, first: nat, before: nat) -> Seq<
    (nat, nat),
>
    decreases files.len(),
{
    if files.len() == 0 {
        Seq::empty()
    } else {
        let span = section_span(files[0], first, nl, before);
        seq![(span.0, span.1)] + spans_from(files.drop_first(), nl, first + 1, span.2)
    }
}

/// The number of the line after the sections of `files`.
pub open spec fn lines_after(files: Seq<BundleFileView>, nl: Seq<char>, first: nat, before: nat) -> nat
    decreases files.len(),
{
    if files.len() == 0 {
        before
    } else {
        lines_after(
            files.drop_first(),
            nl,
            first + 1,
            section_span(files[0], first, nl, before).2,
        )
    }
}

/// Number of files listed in the table of contents.
pub open spec fn toc_count(files: Seq<BundleFileView>) -> nat
    decreases files.len(),
{
    if files.len() == 0 {
        0
    } else {
        toc_count(files.drop_last()) + if files.last().include_in_toc {
            1nat
        } else {
            0nat
        }
    }
}

/// The number of the line after the table of contents (lines count from
/// one): past the title, a blank, the description, a blank, the
/// table-of-contents heading, a blank, and the entries.
pub open spec fn lines_before_sections(description: Seq<char>, files: Seq<BundleFileView>, nl: Seq<char>) -> nat {
    6 + completed_lines(description, nl) + toc_count(files)
}

/// The line ranges of all file sections of a bundle with the (normalized)
/// `description`.
pub open spec fn line_ranges(description: Seq<char>, files: Seq<BundleFileView>, nl: Seq<char>) -> Seq<
    (nat, nat),
> {
    spans_from(files, nl, 0, lines_before_sections(description, files, nl))
}

/// One more than the number of lines of a bundle with the (normalized)
/// `description`.
pub open spec fn bundle_lines(description: Seq<char>, files: Seq<BundleFileView>, nl: Seq<char>) -> nat {
    lines_after(files, nl, 0, lines_before_sections(description, files, nl))
}

proof fn lemma_lines_after_grows(files: Seq<BundleFileView>, nl: Seq<char>, first: nat, before: nat)
    ensures
        lines_after(files, nl, first, before) >= before,
        files.len() > 0 ==> lines_after(files, nl, first, before) >= section_span(
            files[0],
            first,
            nl,
            before,
        ).2,
    decreases files.len(),
{
    if files.len() > 0 {
        lemma_lines_after_grows(
            files.drop_first(),
            nl,
            first + 1,
            section_span(files[0], first, nl, before).2,
        );
    }
}

pub(crate) proof fn lemma_spans_len(files: Seq<BundleFileView>, nl: Seq<char>, first: nat, before: nat)
    ensures
        spans_from(files, nl, first, before).len() == files.len(),
    decreases files.len(),
{
    if files.len() > 0 {
        lemma_spans_len(
            files.drop_first(),
            nl,
            first + 1,
            section_span(files[0], first, nl, before).2,
        );
    }
}

fn toc_line_count(files: &[BundleFile]) -> (n: usize)
    ensures
        n == toc_count(file_views(files@)),
{
    let mut n: usize = 0;
    let mut i: usize = 0;
    while i < files.len()
        invariant
            i <= files@.len(),
            n <= i,
            n == toc_count(file_views(files@.take(i as int))),
        decreases files.len() - i,
    {
        assert(file_views(files@.take(i + 1)).drop_last() =~= file_views(files@.take(i as int)));
        if files[i].include_in_toc {
            n += 1;
        }
        i += 1;
    }
    assert(files@.take(i as int) =~= files@);
    n
}

proof fn lemma_toc_count_bound(files: Seq<BundleFileView>)
    ensures
        toc_count(files) <= files.len(),
    decreases files.len(),
{
    if files.len() > 0 {
        lemma_toc_count_bound(files.drop_last());
    }
}

fn completed_lines_count(s: &Vec<char>, nl: &Vec<char>) -> (n: u128)
    requires
        nl@.len() > 0,
    ensures
        n == completed_lines(s@, nl@),
        n <= s@.len() + 1,
{
    if s.len() == 0 {
        return 0;
    }
    let len = s.len();
    let mut count: usize = 0;
    let mut i: usize = 0;
    assert(s@.skip(0) =~= s@);
    while i < len
        invariant
            i <= len == s@.len(),
            nl@.len() > 0,
            count <= i,
            count + count_occ(s@.skip(i as int), nl@) == count_occ(s@, nl@),
        decreases len - i,
    {
        let ghost rest = s@.skip(i as int);
        if matches_at(s, i, nl) {
            assert(rest.skip(nl@.len() as int) =~= s@.skip(i + nl@.len()));
            count += 1;
            i += nl.len();
        } else {
            assert(rest.skip(1) =~= s@.skip(i + 1));
            i += 1;
        }
    }
    assert(count_occ(s@.skip(i as int), nl@) == 0);
    if str_ends_with(s, nl) {
        count as u128
    } else {
        count as u128 + 1
    }
}

/// Whether a bundle of `files` with the (normalized) `description` spans
/// few enough lines for its line numbers to fit in `usize`.
pub(crate) fn lines_within(description: &Vec<char>, files: &[BundleFile], nl: Newline) -> (r: bool)
    requires
        files@.len() + 2 < u32::MAX,
    ensures
        r == (bundle_lines(description@, file_views(files@), nl.text()) <= usize::MAX),
{
    let ghost fs = file_views(files@);
    let ghost t = nl.text();
    let nlv = chars_of(nl.as_str());
    let ghost before0 = lines_before_sections(description@, fs, t);
    let ghost total = bundle_lines(description@, fs, t);
    let dlen = description.len();
    let dl = completed_lines_count(description, &nlv);
    let toc = toc_line_count(files);
    assert(toc <= files@.len()) by {
        lemma_toc_count_bound(file_views(files@));
    }
    let mut next: u128 = 6 + dl + toc as u128;
    let mut i: usize = 0;
    assert(fs.skip(0) =~= fs);
    while i < files.len()
        invariant
            i <= files@.len(),
            files@.len() + 2 < u32::MAX,
            fs == file_views(files@),
            nlv@ == t,
            t == nl.text(),
            total == bundle_lines(description@, fs, t),
            lines_after(fs.skip(i as int), t, i as nat, next as nat) == total,
            next <= 0x3_0000_0000_0000_0000,
        decreases files.len() - i,
    {
        let ghost rest = fs.skip(i as int);
        proof {
            lemma_lines_after_grows(rest, t, i as nat, next as nat);
            assert(rest[0] == fs[i as int]);
            assert(rest.drop_first() =~= fs.skip(i + 1));
        }
        if next > usize::MAX as u128 {
            return false;
        }
        let file = &files[i];
        assert(file@ == fs[i as int]);
        let heading = file.heading(i);
        let start = next + 1;
        let body = if heading.is_some() {
            start + 2
        } else {
            start
        };
        let cv = chars_of(file.content.as_str());
        let content = normalize_vec(&cv, nl);
        let clen = content.len();
        let cl = completed_lines_count(&content, &nlv);
        if file.include_code_fence {
            next = body + 2 + cl;
        } else if cl == 0 {
            next = body;
        } else {
            next = body + cl;
        }
        assert(next as nat == section_span(fs[i as int], i as nat, t, (start - 1) as nat).2);
        i += 1;
    }
    assert(fs.skip(i as int) =~= Seq::<BundleFileView>::empty());
    next <= usize::MAX as u128
}

/// Pairs of machine integers as pairs of naturals.
pub open spec fn nat_pairs(v: Seq<(usize, usize)>) -> Seq<(nat, nat)> {
    v.map_values(|p: (usize, usize)| (p.0 as nat, p.1 as nat))
}

fn file_line_ranges(description: &Vec<char>, files: &[BundleFile], nl: Newline, toc_lines: usize) -> (r:
    Vec<(usize, usize)>)
    requires
        toc_lines == toc_count(file_views(files@)),
        bundle_lines(description@, file_views(files@), nl.text()) <= usize::MAX,
        files@.len() < usize::MAX,
    ensures
        nat_pairs(r@) == line_ranges(description@, file_views(files@), nl.text()),
{
    let ghost fs = file_views(files@);
    let ghost t = nl.text();
    let nlv = chars_of(nl.as_str());
    let ghost before0 = lines_before_sections(description@, fs, t);
    let ghost total = bundle_lines(description@, fs, t);
    proof {
        lemma_lines_after_grows(fs, t, 0, before0);
    }
    let dl = completed_lines_written(description, &nlv);
    let mut next_line: usize = 6 + dl + toc_lines;
    let mut r: Vec<(usize, usize)> = Vec::new();
    let mut i: usize = 0;
    assert(fs.skip(0) =~= fs);
    assert(nat_pairs(r@) + spans_from(fs, t, 0, before0) =~= spans_from(fs, t, 0, before0));
    while i < files.len()
        invariant
            i <= files@.len() < usize::MAX,
            fs == file_views(files@),
            nlv@ == t,
            t == nl.text(),
            total <= usize::MAX,
            total == bundle_lines(description@, fs, t),
            lines_after(fs.skip(i as int), t, i as nat, next_line as nat) == total,
            nat_pairs(r@) + spans_from(fs.skip(i as int), t, i as nat, next_line as nat)
                == spans_from(fs, t, 0, before0),
        decreases files.len() - i,
    {
        let ghost rest = fs.skip(i as int);
        let ghost span = section_span(fs[i as int], i as nat, t, next_line as nat);
        proof {
            lemma_lines_after_grows(rest, t, i as nat, next_line as nat);
            assert(rest[0] == fs[i as int]);
            assert(rest.drop_first() =~= fs.skip(i + 1));
        }
        let file = &files[i];
        assert(file@ == fs[i as int]);
        let heading = file.heading(i);
        next_line += 1;
        let start = next_line;
        if heading.is_some() {
            next_line += 2;
        }
        let cv = chars_of(file.content.as_str());
        let content = normalize_vec(&cv, nl);
        let cl = completed_lines_written(&content, &nlv);
        let end;
        if file.include_code_fence {
            end = next_line + 1 + cl;
            next_line = end + 1;
        } else if cl == 0 {
            end = start;
        } else {
            end = next_line + cl - 1;
            next_line = next_line + cl;
        }
        assert((start as nat, end as nat, next_line as nat) == span);
        let ghost old_r = r@;
        r.push((start, end));
        proof {
            assert(nat_pairs(r@) =~= nat_pairs(old_r).push((span.0, span.1)));
            assert(spans_from(rest, t, i as nat, (span.0 - 1) as nat) == seq![(span.0, span.1)]
                + spans_from(fs.skip(i + 1), t, (i + 1) as nat, span.2));
            assert(nat_pairs(r@) + spans_from(fs.skip(i + 1), t, (i + 1) as nat, span.2)
                =~= nat_pairs(old_r) + (seq![(span.0, span.1)]
                + spans_from(fs.skip(i + 1), t, (i + 1) as nat, span.2)));
        }
        i += 1;
    }
    assert(fs.skip(i as int) =~= Seq::<BundleFileView>::empty());
    assert(nat_pairs(r@) + Seq::<(nat, nat)>::empty() =~= nat_pairs(r@));
    r
}

/// The note ` -- (lines {start} through {end})` appended to headings and
/// table-of-contents labels when line ranges are requested.
pub open spec fn range_note(r: (nat, nat)) -> Seq<char> {
    " -- (lines "@ + decimal(r.0) + " through "@ + decimal(r.1) + ")"@
}

/// The heading written for file `i`, if any.
pub open spec fn section_heading(
    files: Seq<BundleFileView>,
    i: int,
    ranges: Seq<(nat, nat)>,
    with_ranges: bool,
) -> Option<Seq<char>> {
    match file_heading(files[i], i as nat) {
        Some(h) => Some(
            if with_ranges {
                h + range_note(ranges[i])
            } else {
                h
            },
        ),
        None => None,
    }
}

/// The table-of-contents label of file `i`, if it is listed.
pub open spec fn toc_entry_label(
    files: Seq<BundleFileView>,
    i: int,
    ranges: Seq<(nat, nat)>,
    with_ranges: bool,
) -> Option<Seq<char>> {
    if files[i].include_in_toc {
        Some(
            if with_ranges {
                toc_label(files[i]) + range_note(ranges[i])
            } else {
                toc_label(files[i])
            },
        )
    } else {
        None
    }
}

/// Slugger counts after feeding the first `n` present headings of `hs`.
pub open spec fn counts_after(c0: Map<Seq<char>, nat>, hs: Seq<Option<Seq<char>>>, n: nat) -> Map<
    Seq<char>,
    nat,
>
    decreases n,
{
    if n == 0 {
        c0
    } else {
        let c = counts_after(c0, hs, (n - 1) as nat);
        match hs[n - 1] {
            Some(h) => slug_step(c, h).1,
            None => c,
        }
    }
}

/// The anchor of heading `i` of `hs`, if present.
pub open spec fn anchor_at(c0: Map<Seq<char>, nat>, hs: Seq<Option<Seq<char>>>, i: nat) -> Option<
    Seq<char>,
> {
    match hs[i as int] {
        Some(h) => Some(slug_step(counts_after(c0, hs, i), h).0),
        None => None,
    }
}

/// Slugger counts once the title and the table-of-contents heading are slugged.
pub open spec fn initial_counts(title: Seq<char>) -> Map<Seq<char>, nat> {
    slug_step(slug_step(no_counts(), title).1, "Table of Contents"@).1
}

/// One table-of-contents entry, without its line break.
pub open spec fn toc_entry(label: Seq<char>, anchor: Option<Seq<char>>, links: bool) -> Seq<char> {
    if links && anchor is Some {
        "- ["@ + label + "](#"@ + anchor->0 + ")"@
    } else {
        "- "@ + label
    }
}

/// The table-of-contents entries of the first `n` files.
pub open spec fn toc_lines(
    labels: Seq<Option<Seq<char>>>,
    anchors: Seq<Option<Seq<char>>>,
    links: bool,
    nl: Seq<char>,
    n: nat,
) -> Seq<char>
    decreases n,
{
    if n == 0 {
        Seq::empty()
    } else {
        toc_lines(labels, anchors, links, nl, (n - 1) as nat) + match labels[n - 1] {
            Some(l) => toc_entry(l, anchors[n - 1], links) + nl,
            None => Seq::empty(),
        }
    }
}

/// `c` followed by a line break unless it is empty or already ends with one.
pub open spec fn terminated(c: Seq<char>, nl: Seq<char>) -> Seq<char> {
    if c.len() > 0 && !ends_with(c, nl) {
        c + nl
    } else {
        c
    }
}

/// The heading lines of a section: the heading and a blank line, if any.
pub open spec fn section_head(heading: Option<Seq<char>>, nl: Seq<char>) -> Seq<char> {
    match heading {
        Some(h) => "## "@ + h + nl + nl,
        None => Seq::empty(),
    }
}

/// The content of a section, fenced unless the file opts out.
pub open spec fn section_body(f: BundleFileView, nl: Seq<char>) -> Seq<char> {
    let c = terminated(normalized(f.content, nl), nl);
    if f.include_code_fence {
        let fence = backticks(fence_width(f.content));
        let tag = match f.fence_tag {
            Some(t) => t,
            None => Seq::empty(),
        };
        fence + tag + nl + c + fence + nl
    } else {
        c
    }
}

/// The section of one file: a blank line, the heading (if any) and a blank
/// line, then the content.
pub open spec fn section_text(f: BundleFileView, heading: Option<Seq<char>>, nl: Seq<char>) -> Seq<
    char,
> {
    nl + section_head(heading, nl) + section_body(f, nl)
}

/// The sections of the first `n` files.
pub open spec fn sections(
    files: Seq<BundleFileView>,
    headings: Seq<Option<Seq<char>>>,
    nl: Seq<char>,
    n: nat,
) -> Seq<char>
    decreases n,
{
    if n == 0 {
        Seq::empty()
    } else {
        sections(files, headings, nl, (n - 1) as nat) + section_text(
            files[n - 1],
            headings[n - 1],
            nl,
        )
    }
}

/// Title, description slot and the table-of-contents heading.
pub open spec fn bundle_header(title: Seq<char>, description: Seq<char>, nl: Seq<char>) -> Seq<char> {
    "# "@ + title + nl + nl + terminated(description, nl) + nl + "## Table of Contents"@ + nl + nl
}

/// The headings of all sections.
pub open spec fn all_headings(
    files: Seq<BundleFileView>,
    ranges: Seq<(nat, nat)>,
    with_ranges: bool,
) -> Seq<Option<Seq<char>>> {
    Seq::new(files.len(), |i: int| section_heading(files, i, ranges, with_ranges))
}

/// The table-of-contents labels of all files.
pub open spec fn all_labels(files: Seq<BundleFileView>, ranges: Seq<(nat, nat)>, with_ranges: bool) -> Seq<
    Option<Seq<char>>,
> {
    Seq::new(files.len(), |i: int| toc_entry_label(files, i, ranges, with_ranges))
}

/// The anchors of all headings.
pub open spec fn all_anchors(title: Seq<char>, headings: Seq<Option<Seq<char>>>) -> Seq<
    Option<Seq<char>>,
> {
    Seq::new(headings.len(), |i: int| anchor_at(initial_counts(title), headings, i as nat))
}

proof fn lemma_counts_after_grow(c0: Map<Seq<char>, nat>, hs: Seq<Option<Seq<char>>>, n: nat)
    requires
        consistent(c0),
        n <= hs.len(),
    ensures
        consistent(counts_after(c0, hs, n)),
        c0.dom().subset_of(counts_after(c0, hs, n).dom()),
        forall|i: nat|
            i < n && hs[i as int] is Some ==> counts_after(c0, hs, n).dom().contains(
                (#[trigger] anchor_at(c0, hs, i))->0,
            ),
    decreases n,
{
    if n > 0 {
        let m = (n - 1) as nat;
        lemma_counts_after_grow(c0, hs, m);
        let c = counts_after(c0, hs, m);
        match hs[m as int] {
            Some(h) => {
                lemma_slug_step(c, h);
            },
            None => {},
        }
    }
}

proof fn lemma_initial_counts(title: Seq<char>)
    ensures
        consistent(initial_counts(title)),
        initial_counts(title).dom() == set![
            slug_step(no_counts(), title).0,
            slug_step(slug_step(no_counts(), title).1, "Table of Contents"@).0,
        ],
{
    assert(no_counts().dom() =~= Set::<Seq<char>>::empty());
    lemma_slug_step(no_counts(), title);
    lemma_slug_step(slug_step(no_counts(), title).1, "Table of Contents"@);
    assert(initial_counts(title).dom() =~= set![
        slug_step(no_counts(), title).0,
        slug_step(slug_step(no_counts(), title).1, "Table of Contents"@).0,
    ]);
}

proof fn lemma_anchor_fresh(title: Seq<char>, headings: Seq<Option<Seq<char>>>, i: nat)
    requires
        i < headings.len(),
        headings[i as int] is Some,
    ensures
        !counts_after(initial_counts(title), headings, i).dom().contains(
            anchor_at(initial_counts(title), headings, i)->0,
        ),
        !initial_counts(title).dom().contains(anchor_at(initial_counts(title), headings, i)->0),
{
    let c0 = initial_counts(title);
    lemma_initial_counts(title);
    lemma_counts_after_grow(c0, headings, i);
    lemma_slug_step(counts_after(c0, headings, i), headings[i as int]->0);
}

/// Law: within one bundle every heading anchor is different from every
/// other, and from the anchors of the title and of the table-of-contents
/// heading, so each table-of-contents link leads to its own section.
pub proof fn lemma_bundle_anchors_unique(title: Seq<char>, headings: Seq<Option<Seq<char>>>, i: int, j: int)
    requires
        0 <= i < j < headings.len(),
        headings[i] is Some,
        headings[j] is Some,
    ensures
        all_anchors(title, headings)[i] is Some,
        all_anchors(title, headings)[j] is Some,
        all_anchors(title, headings)[i]->0 != all_anchors(title, headings)[j]->0,
        all_anchors(title, headings)[j]->0 != slug_step(no_counts(), title).0,
        all_anchors(title, headings)[j]->0 != slug_step(
            slug_step(no_counts(), title).1,
            "Table of Contents"@,
        ).0,
        all_anchors(title, headings)[i]->0 != slug_step(no_counts(), title).0,
        all_anchors(title, headings)[i]->0 != slug_step(
            slug_step(no_counts(), title).1,
            "Table of Contents"@,
        ).0,
{
    let c0 = initial_counts(title);
    lemma_initial_counts(title);
    lemma_counts_after_grow(c0, headings, j as nat);
    assert(counts_after(c0, headings, j as nat).dom().contains(anchor_at(c0, headings, i as nat)->0));
    lemma_anchor_fresh(title, headings, i as nat);
    lemma_anchor_fresh(title, headings, j as nat);
}

/// The exported Markdown document.
pub open spec fn assembled(
    title: Seq<char>,
    description: Seq<char>,
    files: Seq<BundleFileView>,
    newline: Newline,
    toc_links: bool,
    with_ranges: bool,
) -> Seq<char> {
    let nl = newline.text();
    let d = normalized(description, nl);
    let ranges = line_ranges(d, files, nl);
    let headings = all_headings(files, ranges, with_ranges);
    let labels = all_labels(files, ranges, with_ranges);
    let anchors = all_anchors(title, headings);
    bundle_header(title, d, nl) + toc_lines(labels, anchors, toc_links, nl, files.len()) + sections(
        files,
        headings,
        nl,
        files.len(),
    )
}

fn push_range_note(out: &mut String, r: (usize, usize))
    ensures
        final(out)@ == old(out)@ + range_note((r.0 as nat, r.1 as nat)),
{
    out.append(" -- (lines ");
    push_decimal(out, r.0 as u64);
    out.append(" through ");
    push_decimal(out, r.1 as u64);
    out.append(")");
}

fn build_headings(
    files: &[BundleFile],
    ranges: &Vec<(usize, usize)>,
    with_ranges: bool,
    Ghost(sr): Ghost<Seq<(nat, nat)>>,
) -> (hs: Vec<Option<String>>)
    requires
        files@.len() < usize::MAX,
        with_ranges ==> nat_pairs(ranges@) == sr && sr.len() == files@.len(),
    ensures
        hs@.len() == files@.len(),
        opt_views(hs@) == all_headings(file_views(files@), sr, with_ranges),
{
    let ghost fs = file_views(files@);
    let mut hs: Vec<Option<String>> = Vec::new();
    let mut i: usize = 0;
    while i < files.len()
        invariant
            i <= files@.len() < usize::MAX,
            fs == file_views(files@),
            with_ranges ==> nat_pairs(ranges@) == sr && sr.len() == files@.len(),
            hs@.len() == i,
            forall|k: int| 0 <= k < i ==> opt_view(#[trigger] hs@[k]) == section_heading(fs, k, sr, with_ranges),
        decreases files.len() - i,
    {
        assert(files@[i as int]@ == fs[i as int]);
        let h = files[i].heading(i);
        let h = match h {
            Some(base) => {
                if with_ranges {
                    let mut t = base;
                    assert(nat_pairs(ranges@)[i as int] == (ranges@[i as int].0 as nat, ranges@[i as int].1 as nat));
                    push_range_note(&mut t, ranges[i]);
                    Some(t)
                } else {
                    Some(base)
                }
            },
            None => None,
        };
        hs.push(h);
        i += 1;
    }
    assert(opt_views(hs@) =~= all_headings(fs, sr, with_ranges));
    hs
}

fn build_labels(
    files: &[BundleFile],
    ranges: &Vec<(usize, usize)>,
    with_ranges: bool,
    Ghost(sr): Ghost<Seq<(nat, nat)>>,
) -> (ls: Vec<Option<String>>)
    requires
        with_ranges ==> nat_pairs(ranges@) == sr && sr.len() == files@.len(),
    ensures
        ls@.len() == files@.len(),
        opt_views(ls@) == all_labels(file_views(files@), sr, with_ranges),
{
    let ghost fs = file_views(files@);
    let mut ls: Vec<Option<String>> = Vec::new();
    let mut i: usize = 0;
    while i < files.len()
        invariant
            i <= files@.len(),
            fs == file_views(files@),
            with_ranges ==> nat_pairs(ranges@) == sr && sr.len() == files@.len(),
            ls@.len() == i,
            forall|k: int| 0 <= k < i ==> opt_view(#[trigger] ls@[k]) == toc_entry_label(fs, k, sr, with_ranges),
        decreases files.len() - i,
    {
        assert(files@[i as int]@ == fs[i as int]);
        let file = &files[i];
        if file.include_in_toc {
            let mut label = file.toc_label();
            if with_ranges {
                assert(nat_pairs(ranges@)[i as int] == (ranges@[i as int].0 as nat, ranges@[i as int].1 as nat));
                push_range_note(&mut label, ranges[i]);
            }
            ls.push(Some(label));
        } else {
            ls.push(None);
        }
        i += 1;
    }
    assert(opt_views(ls@) =~= all_labels(fs, sr, with_ranges));
    ls
}

fn build_anchors(title: &str, headings: &Vec<Option<String>>) -> (anchors: Vec<Option<String>>)
    requires
        headings@.len() + 2 < u32::MAX,
    ensures
        anchors@.len() == headings@.len(),
        opt_views(anchors@) == all_anchors(title@, opt_views(headings@)),
{
    let ghost hs = opt_views(headings@);
    let ghost c0 = initial_counts(title@);
    let mut slugger = Slugger::new();
    assert(slugger@.dom() =~= Set::<Seq<char>>::empty());
    let _ = slugger.slug(title);
    let _ = slugger.slug("Table of Contents");
    assert(slugger@ == c0);
    let mut anchors: Vec<Option<String>> = Vec::new();
    let mut i: usize = 0;
    while i < headings.len()
        invariant
            i <= headings@.len(),
            headings@.len() + 2 < u32::MAX,
            hs == opt_views(headings@),
            slugger@ == counts_after(c0, hs, i as nat),
            slugger@.dom().len() <= i + 2,
            anchors@.len() == i,
            forall|k: int| 0 <= k < i ==> opt_view(#[trigger] anchors@[k]) == anchor_at(c0, hs, k as nat),
        decreases headings.len() - i,
    {
        assert(opt_view(headings@[i as int]) == hs[i as int]);
        match &headings[i] {
            Some(h) => {
                let a = slugger.slug(h.as_str());
                anchors.push(Some(a));
            },
            None => {
                anchors.push(None);
            },
        }
        i += 1;
    }
    assert(opt_views(anchors@) =~= all_anchors(title@, hs));
    anchors
}

fn push_terminated(out: &mut String, c: &Vec<char>, nl: Newline, nlv: &Vec<char>)
    requires
        nlv@ == nl.text(),
    ensures
        final(out)@ == old(out)@ + terminated(c@, nl.text()),
{
    push_chars(out, c, 0, c.len());
    assert(c@.subrange(0, c@.len() as int) =~= c@);
    if c.len() > 0 && !str_ends_with(c, nlv) {
        out.append(nl.as_str());
    }
}

fn push_head(out: &mut String, heading: &Option<String>, nl: Newline)
    ensures
        final(out)@ == old(out)@ + section_head(opt_view(*heading), nl.text()),
{
    match heading {
        Some(h) => {
            out.append("## ");
            out.append(h.as_str());
            out.append(nl.as_str());
            out.append(nl.as_str());
            assert(out@ =~= old(out)@ + section_head(opt_view(*heading), nl.text()));
        },
        None => {
            assert(out@ =~= old(out)@ + section_head(opt_view(*heading), nl.text()));
        },
    }
}

fn push_fenced(out: &mut String, file: &BundleFile, cv: &Vec<char>, content: &Vec<char>, nl: Newline, nlv: &Vec<char>)
    requires
        nlv@ == nl.text(),
        cv@ == file.content@,
        content@ == normalized(file.content@, nl.text()),
        file.include_code_fence,
    ensures
        final(out)@ == old(out)@ + section_body(file@, nl.text()),
{
    let ghost t = nl.text();
    let fence = fence_of(cv);
    out.append(fence.as_str());
    match &file.fence_tag {
        Some(tag) => {
            out.append(tag.as_str());
        },
        None => {},
    }
    let ghost tag = match opt_view(file.fence_tag) {
        Some(t) => t,
        None => Seq::<char>::empty(),
    };
    assert(out@ =~= old(out)@ + fence@ + tag);
    out.append(nl.as_str());
    let ghost mid = out@;
    push_terminated(out, content, nl, nlv);
    let ghost mid2 = out@;
    out.append(fence.as_str());
    out.append(nl.as_str());
    assert(out@ =~= old(out)@ + (fence@ + tag + t + terminated(content@, t) + fence@ + t));
}

fn push_section(out: &mut String, file: &BundleFile, heading: &Option<String>, nl: Newline, nlv: &Vec<char>)
    requires
        nlv@ == nl.text(),
    ensures
        final(out)@ == old(out)@ + section_text(file@, opt_view(*heading), nl.text()),
{
    out.append(nl.as_str());
    let ghost a = out@;
    push_head(out, heading, nl);
    let ghost b = out@;
    let cv = chars_of(file.content.as_str());
    let content = normalize_vec(&cv, nl);
    if file.include_code_fence {
        push_fenced(out, file, &cv, &content, nl, nlv);
    } else {
        push_terminated(out, &content, nl, nlv);
    }
    assert(out@ =~= old(out)@ + section_text(file@, opt_view(*heading), nl.text()));
}

fn push_toc_entry(out: &mut String, label: &String, anchor: &Option<String>, toc_links: bool, nl: Newline)
    ensures
        final(out)@ == old(out)@ + toc_entry(label@, opt_view(*anchor), toc_links) + nl.text(),
{
    if toc_links {
        match anchor {
            Some(a) => {
                out.append("- [");
                out.append(label.as_str());
                out.append("](#");
                out.append(a.as_str());
                out.append(")");
            },
            None => {
                out.append("- ");
                out.append(label.as_str());
            },
        }
    } else {
        out.append("- ");
        out.append(label.as_str());
    }
    out.append(nl.as_str());
    assert(out@ =~= old(out)@ + toc_entry(label@, opt_view(*anchor), toc_links) + nl.text());
}

fn push_toc(
    out: &mut String,
    labels: &Vec<Option<String>>,
    anchors: &Vec<Option<String>>,
    toc_links: bool,
    nl: Newline,
)
    requires
        labels@.len() == anchors@.len(),
    ensures
        final(out)@ == old(out)@ + toc_lines(
            opt_views(labels@),
            opt_views(anchors@),
            toc_links,
            nl.text(),
            labels@.len(),
        ),
{
    let ghost ls = opt_views(labels@);
    let ghost an = opt_views(anchors@);
    let mut i: usize = 0;
    while i < labels.len()
        invariant
            i <= labels@.len() == anchors@.len(),
            ls == opt_views(labels@),
            an == opt_views(anchors@),
            out@ == old(out)@ + toc_lines(ls, an, toc_links, nl.text(), i as nat),
        decreases labels.len() - i,
    {
        assert(ls[i as int] == opt_view(labels@[i as int]));
        assert(an[i as int] == opt_view(anchors@[i as int]));
        match &labels[i] {
            Some(label) => {
                push_toc_entry(out, label, &anchors[i], toc_links, nl);
            },
            None => {},
        }
        assert(out@ =~= old(out)@ + toc_lines(ls, an, toc_links, nl.text(), (i + 1) as nat));
        i += 1;
    }
}

fn push_sections(out: &mut String, files: &[BundleFile], headings: &Vec<Option<String>>, nl: Newline)
    requires
        headings@.len() == files@.len(),
    ensures
        final(out)@ == old(out)@ + sections(
            file_views(files@),
            opt_views(headings@),
            nl.text(),
            files@.len(),
        ),
{
    let ghost fs = file_views(files@);
    let ghost hs = opt_views(headings@);
    let nlv = chars_of(nl.as_str());
    let mut i: usize = 0;
    while i < files.len()
        invariant
            i <= files@.len() == headings@.len(),
            fs == file_views(files@),
            hs == opt_views(headings@),
            nlv@ == nl.text(),
            out@ == old(out)@ + sections(fs, hs, nl.text(), i as nat),
        decreases files.len() - i,
    {
        assert(fs[i as int] == files@[i as int]@);
        assert(hs[i as int] == opt_view(headings@[i as int]));
        push_section(out, &files[i], &headings[i], nl, &nlv);
        assert(out@ =~= old(out)@ + sections(fs, hs, nl.text(), (i + 1) as nat));
        i += 1;
    }
}

fn push_header(out: &mut String, title: &str, description: &Vec<char>, nl: Newline, nlv: &Vec<char>)
    requires
        nlv@ == nl.text(),
    ensures
        final(out)@ == old(out)@ + bundle_header(title@, description@, nl.text()),
{
    let n = nl.as_str();
    out.append("# ");
    out.append(title);
    out.append(n);
    out.append(n);
    let ghost a = out@;
    push_terminated(out, description, nl, nlv);
    let ghost b = out@;
    out.append(n);
    out.append("## Table of Contents");
    out.append(n);
    out.append(n);
    assert(out@ =~= old(out)@ + bundle_header(title@, description@, nl.text()));
}

/// Assemble the export: a title heading, the description (a blank line in
/// its place when empty), the table of contents and one section per file.
/// With `toc_links`, table-of-contents entries link to the file headings via
/// GitHub-style anchors; with `include_line_ranges_in_headings`, headings and
/// labels carry the line range of their section.
pub fn assemble(
    title: &str,
    description: &str,
    files: &[BundleFile],
    nl: Newline,
    toc_links: bool,
    include_line_ranges_in_headings: bool,
) -> (out: String)
    requires
        files@.len() + 2 < u32::MAX,
        include_line_ranges_in_headings ==> bundle_lines(
            normalized(description@, nl.text()),
            file_views(files@),
            nl.text(),
        ) <= usize::MAX,
    ensures
        out@ == assembled(
            title@,
            description@,
            file_views(files@),
            nl,
            toc_links,
            include_line_ranges_in_headings,
        ),
{
    let ghost fs = file_views(files@);
    let ghost t = nl.text();
    let nlv = chars_of(nl.as_str());
    let dv = chars_of(description);
    let description = normalize_vec(&dv, nl);
    let ghost d = description@;
    let ghost sr = line_ranges(d, fs, t);
    let toc = toc_line_count(files);
    let ranges = if include_line_ranges_in_headings {
        file_line_ranges(&description, files, nl, toc)
    } else {
        Vec::new()
    };
    proof {
        if include_line_ranges_in_headings {
            lemma_spans_len(fs, t, 0, lines_before_sections(d, fs, t));
        }
    }
    let headings = build_headings(files, &ranges, include_line_ranges_in_headings, Ghost(sr));
    let labels = build_labels(files, &ranges, include_line_ranges_in_headings, Ghost(sr));
    let anchors = build_anchors(title, &headings);
    let mut out = String::new();
    push_header(&mut out, title, &description, nl, &nlv);
    push_toc(&mut out, &labels, &anchors, toc_links, nl);
    push_sections(&mut out, files, &headings, nl);
    out
}

} // verus!
