//! Where the file sections of an assembled bundle fall, line by line: the
//! line ranges written into headings and the table of contents point at
//! each section's heading and, for a fenced file, at its closing fence.

use vstd::prelude::*;
use vstd::string::*;

use crate::bundle::{
    all_anchors, all_headings, all_labels, assembled, backticks, bundle_header, completed_lines,
    count_occ, fence_width, file_heading, lemma_spans_len, line_ranges, lines_before_sections, normalized,
    range_note, section_body, section_head, section_heading, section_span, section_text,
    sections, spans_from, terminated, toc_count, toc_entry, toc_entry_label, toc_label,
    toc_lines, BundleFileView, HeaderView, Newline,
};
use crate::text::{decimal, ends_with, starts_with, trim, trim_end, trim_start};

verus! {

broadcast use vstd::string::group_string_axioms;

/// `s` holds no line break character.
pub open spec fn no_breaks(s: Seq<char>) -> bool {
    forall|i: int| 0 <= i < s.len() ==> s[i] != '\r' && s[i] != '\n'
}

/// `b` can follow other text without a line break forming across the seam.
pub open spec fn joins(b: Seq<char>, nl: Newline) -> bool {
    nl is Unix || b.len() == 0 || b[0] != '\n'
}

proof fn lemma_no_breaks_concat(a: Seq<char>, b: Seq<char>)
    requires
        no_breaks(a),
        no_breaks(b),
    ensures
        no_breaks(a + b),
{
    assert forall|i: int| 0 <= i < (a + b).len() implies (a + b)[i] != '\r' && (a + b)[i] != '\n' by {
        if i >= a.len() {
            assert((a + b)[i] == b[i - a.len()]);
        }
    }
}

proof fn lemma_count_concat(a: Seq<char>, b: Seq<char>, nl: Newline)
    requires
        joins(b, nl),
    ensures
        count_occ(a + b, nl.text()) == count_occ(a, nl.text()) + count_occ(b, nl.text()),
    decreases a.len(),
{
    let t = nl.text();
    let s = a + b;
    if a.len() == 0 {
        assert(s =~= b);
    } else if starts_with(a, t) {
        assert(s.subrange(0, t.len() as int) =~= a.subrange(0, t.len() as int));
        assert(s.skip(t.len() as int) =~= a.skip(t.len() as int) + b);
        lemma_count_concat(a.skip(t.len() as int), b, nl);
    } else {
        if starts_with(s, t) {
            if a.len() >= t.len() {
                assert(s.subrange(0, t.len() as int) =~= a.subrange(0, t.len() as int));
            } else {
                assert(t.len() == 2 && a.len() == 1);
                assert(s[1] == b[0]);
                assert(t[1] == '\n');
                assert(s.subrange(0, 2)[1] == s[1]);
            }
        }
        assert(s.skip(1) =~= a.skip(1) + b);
        lemma_count_concat(a.skip(1), b, nl);
    }
}

proof fn lemma_count_no_breaks(s: Seq<char>, nl: Newline)
    requires
        no_breaks(s),
    ensures
        count_occ(s, nl.text()) == 0,
    decreases s.len(),
{
    let t = nl.text();
    if s.len() > 0 {
        if starts_with(s, t) {
            assert(s.subrange(0, t.len() as int)[0] == s[0]);
        }
        assert(no_breaks(s.skip(1)));
        lemma_count_no_breaks(s.skip(1), nl);
    }
}

proof fn lemma_count_break(nl: Newline)
    ensures
        count_occ(nl.text(), nl.text()) == 1,
{
    let t = nl.text();
    assert(t.subrange(0, t.len() as int) =~= t);
    assert(starts_with(t, t));
    assert(t.skip(t.len() as int) =~= Seq::<char>::empty());
    assert(count_occ(Seq::<char>::empty(), t) == 0);
}

proof fn lemma_count_then_break(a: Seq<char>, nl: Newline)
    ensures
        count_occ(a + nl.text(), nl.text()) == count_occ(a, nl.text()) + 1,
{
    lemma_count_concat(a, nl.text(), nl);
    lemma_count_break(nl);
}

proof fn lemma_normalized_joins(s: Seq<char>, nl: Newline)
    ensures
        joins(normalized(s, nl.text()), nl),
{
    let t = nl.text();
    if s.len() > 0 {
        if s[0] == '\r' || s[0] == '\n' {
            let rest = if s[0] == '\r' && s.len() > 1 && s[1] == '\n' {
                s.skip(2)
            } else {
                s.skip(1)
            };
            assert(normalized(s, t) == t + normalized(rest, t));
            assert(normalized(s, t)[0] == t[0]);
        } else {
            assert(normalized(s, t) == seq![s[0]] + normalized(s.skip(1), t));
            assert(normalized(s, t)[0] == s[0]);
        }
    }
}

proof fn lemma_terminated(c: Seq<char>, nl: Newline)
    requires
        joins(c, nl),
    ensures
        count_occ(terminated(c, nl.text()), nl.text()) == completed_lines(c, nl.text()),
        joins(terminated(c, nl.text()), nl),
{
    let t = nl.text();
    if c.len() > 0 && !ends_with(c, t) {
        lemma_count_then_break(c, nl);
        assert((c + t)[0] == c[0]);
    }
}

proof fn lemma_decimal_no_breaks(n: nat)
    ensures
        no_breaks(decimal(n)),
    decreases n,
{
    if n >= 10 {
        lemma_decimal_no_breaks(n / 10);
        let d = decimal(n / 10);
        assert forall|i: int| 0 <= i < decimal(n).len() implies decimal(n)[i] != '\r'
            && decimal(n)[i] != '\n' by {
            if i < d.len() {
                assert(decimal(n)[i] == d[i]);
            }
        }
    }
}

proof fn lemma_trim_no_breaks(s: Seq<char>)
    requires
        no_breaks(s),
    ensures
        no_breaks(trim(s)),
{
    lemma_trim_start_within(s);
    lemma_trim_end_within(trim_start(s));
}

proof fn lemma_trim_start_within(s: Seq<char>)
    requires
        no_breaks(s),
    ensures
        no_breaks(trim_start(s)),
    decreases s.len(),
{
    if s.len() > 0 && crate::text::is_whitespace(s[0]) {
        assert(no_breaks(s.drop_first()));
        lemma_trim_start_within(s.drop_first());
    }
}

proof fn lemma_trim_end_within(s: Seq<char>)
    requires
        no_breaks(s),
    ensures
        no_breaks(trim_end(s)),
    decreases s.len(),
{
    if s.len() > 0 && crate::text::is_whitespace(s.last()) {
        assert(no_breaks(s.drop_last()));
        lemma_trim_end_within(s.drop_last());
    }
}

proof fn lemma_header_count(title: Seq<char>, d: Seq<char>, nl: Newline)
    requires
        no_breaks(title),
        joins(d, nl),
    ensures
        count_occ(bundle_header(title, d, nl.text()), nl.text()) == 5 + completed_lines(
            d,
            nl.text(),
        ),
{
    let t = nl.text();
    reveal_strlit("# ");
    reveal_strlit("## Table of Contents");
    let a0 = "# "@;
    let h = "## Table of Contents"@;
    assert(no_breaks(a0));
    assert(no_breaks(h));
    lemma_no_breaks_concat(a0, title);
    let a1 = a0 + title;
    lemma_count_no_breaks(a1, nl);
    lemma_count_then_break(a1, nl);
    lemma_count_then_break(a1 + t, nl);
    lemma_terminated(d, nl);
    lemma_count_concat(a1 + t + t, terminated(d, t), nl);
    let a4 = a1 + t + t + terminated(d, t);
    lemma_count_then_break(a4, nl);
    lemma_count_no_breaks(h, nl);
    lemma_count_concat(a4 + t, h, nl);
    lemma_count_then_break(a4 + t + h, nl);
    lemma_count_then_break(a4 + t + h + t, nl);
}

/// How many of the first `n` labels are present.
pub open spec fn listed(labels: Seq<Option<Seq<char>>>, n: nat) -> nat
    decreases n,
{
    if n == 0 {
        0
    } else {
        listed(labels, (n - 1) as nat) + if labels[n - 1] is Some {
            1nat
        } else {
            0nat
        }
    }
}

proof fn lemma_toc_entry_no_breaks(label: Seq<char>, anchor: Option<Seq<char>>, links: bool)
    requires
        no_breaks(label),
        links && anchor is Some ==> no_breaks(anchor->0),
    ensures
        no_breaks(toc_entry(label, anchor, links)),
        toc_entry(label, anchor, links).len() > 0,
        toc_entry(label, anchor, links)[0] == '-',
{
    reveal_strlit("- [");
    reveal_strlit("](#");
    reveal_strlit(")");
    reveal_strlit("- ");
    if links && anchor is Some {
        let a = "- ["@;
        let b = "](#"@;
        let c = ")"@;
        assert(no_breaks(a) && no_breaks(b) && no_breaks(c));
        lemma_no_breaks_concat(a, label);
        lemma_no_breaks_concat(a + label, b);
        lemma_no_breaks_concat(a + label + b, anchor->0);
        lemma_no_breaks_concat(a + label + b + anchor->0, c);
        assert((a + label + b + anchor->0 + c)[0] == a[0]);
    } else {
        let a = "- "@;
        assert(no_breaks(a));
        lemma_no_breaks_concat(a, label);
        assert((a + label)[0] == a[0]);
    }
}

proof fn lemma_toc_count(
    labels: Seq<Option<Seq<char>>>,
    anchors: Seq<Option<Seq<char>>>,
    links: bool,
    nl: Newline,
    n: nat,
)
    requires
        forall|j: int| 0 <= j < n && #[trigger] labels[j] is Some ==> no_breaks(labels[j]->0),
        forall|j: int|
            0 <= j < n && links && #[trigger] anchors[j] is Some ==> no_breaks(anchors[j]->0),
    ensures
        count_occ(toc_lines(labels, anchors, links, nl.text(), n), nl.text()) == listed(labels, n),
    decreases n,
{
    let t = nl.text();
    if n > 0 {
        lemma_toc_count(labels, anchors, links, nl, (n - 1) as nat);
        let prev = toc_lines(labels, anchors, links, t, (n - 1) as nat);
        let k = n - 1;
        match labels[k] {
            Some(l) => {
                assert(labels[k] is Some);
                if links && anchors[k] is Some {
                    assert(anchors[k] is Some);
                }
                lemma_toc_entry_no_breaks(l, anchors[k], links);
                let e = toc_entry(l, anchors[k], links);
                lemma_count_no_breaks(e, nl);
                lemma_count_then_break(e, nl);
                assert((e + t)[0] == e[0]);
                lemma_count_concat(prev, e + t, nl);
            },
            None => {
                assert(prev + Seq::<char>::empty() =~= prev);
            },
        }
    }
}

proof fn lemma_listed_labels(
    files: Seq<BundleFileView>,
    ranges: Seq<(nat, nat)>,
    with_ranges: bool,
    n: nat,
)
    requires
        n <= files.len(),
    ensures
        listed(all_labels(files, ranges, with_ranges), n) == toc_count(files.take(n as int)),
    decreases n,
{
    if n > 0 {
        lemma_listed_labels(files, ranges, with_ranges, (n - 1) as nat);
        assert(files.take(n as int).drop_last() =~= files.take(n - 1));
        assert(files.take(n as int).last() == files[n - 1]);
    }
}

/// `f` names, heads and tags itself on one line each.
pub open spec fn single_line_file(f: BundleFileView) -> bool {
    &&& no_breaks(f.display)
    &&& match f.header {
        HeaderView::Custom(c) => no_breaks(c),
        _ => true,
    }
    &&& match f.fence_tag {
        Some(g) => no_breaks(g),
        None => true,
    }
}

proof fn lemma_backticks_no_breaks(n: nat)
    ensures
        no_breaks(backticks(n)),
{
}

proof fn lemma_section_count(
    f: BundleFileView,
    i: nat,
    h: Option<Seq<char>>,
    nl: Newline,
    before: nat,
)
    requires
        (h is Some) == (file_heading(f, i) is Some),
        h is Some ==> no_breaks(h->0),
        single_line_file(f),
    ensures
        count_occ(section_text(f, h, nl.text()), nl.text()) + before == section_span(
            f,
            i,
            nl.text(),
            before,
        ).2,
        section_text(f, h, nl.text()).len() > 0,
        section_text(f, h, nl.text())[0] == nl.text()[0],
{
    let t = nl.text();
    let c0 = normalized(f.content, t);
    lemma_normalized_joins(f.content, nl);
    lemma_terminated(c0, nl);
    let c = terminated(c0, t);
    let cl = completed_lines(c0, t);
    let head = section_head(h, t);
    reveal_strlit("## ");
    if let Some(hh) = h {
        let a = "## "@;
        assert(no_breaks(a));
        lemma_no_breaks_concat(a, hh);
        lemma_count_no_breaks(a + hh, nl);
        lemma_count_then_break(a + hh, nl);
        lemma_count_then_break(a + hh + t, nl);
        assert(count_occ(head, t) == 2);
        assert(head[0] == '#');
    } else {
        assert(head =~= Seq::<char>::empty());
        assert(count_occ(head, t) == 0);
    }
    lemma_count_concat(t, head, nl);
    lemma_count_break(nl);
    let body = section_body(f, t);
    if f.include_code_fence {
        let fence = backticks(fence_width(f.content));
        let tag = match f.fence_tag {
            Some(g) => g,
            None => Seq::<char>::empty(),
        };
        lemma_backticks_no_breaks(fence_width(f.content));
        lemma_no_breaks_concat(fence, tag);
        lemma_count_no_breaks(fence + tag, nl);
        lemma_count_then_break(fence + tag, nl);
        lemma_count_concat(fence + tag + t, c, nl);
        lemma_count_no_breaks(fence, nl);
        assert(fence.len() >= 3);
        assert(fence[0] == '`');
        lemma_count_concat(fence + tag + t + c, fence, nl);
        lemma_count_then_break(fence + tag + t + c + fence, nl);
        assert(body == fence + tag + t + c + fence + t);
        assert(count_occ(body, t) == cl + 2);
        assert(body[0] == '`');
    } else {
        assert(body == c);
    }
    lemma_count_concat(t + head, body, nl);
    assert(section_text(f, h, t) == t + head + body);
    assert((t + head + body)[0] == t[0]);
}

/// The line of the blank line that leads section `k` of `files` (numbered
/// from `first`), when the line before the first section is `before`.
pub open spec fn lead_line(files: Seq<BundleFileView>, nl: Seq<char>, first: nat, before: nat, k: nat) -> nat
    decreases k,
{
    if k == 0 || files.len() == 0 {
        before
    } else {
        lead_line(
            files.drop_first(),
            nl,
            first + 1,
            section_span(files[0], first, nl, before).2,
            (k - 1) as nat,
        )
    }
}

proof fn lemma_spans_at(files: Seq<BundleFileView>, nl: Seq<char>, first: nat, before: nat, k: nat)
    requires
        k < files.len(),
    ensures
        spans_from(files, nl, first, before)[k as int] == ({
            let s = section_span(files[k as int], first + k, nl, lead_line(files, nl, first, before, k));
            (s.0, s.1)
        }),
    decreases k,
{
    let rest = files.drop_first();
    let s0 = section_span(files[0], first, nl, before);
    let next = s0.2;
    assert(spans_from(files, nl, first, before) == seq![(s0.0, s0.1)] + spans_from(
        rest,
        nl,
        first + 1,
        next,
    ));
    if k > 0 {
        let tail = spans_from(rest, nl, first + 1, next);
        lemma_spans_len(rest, nl, first + 1, next);
        lemma_spans_at(rest, nl, first + 1, next, (k - 1) as nat);
        assert(rest[k - 1] == files[k as int]);
        assert((first + 1 + (k - 1)) as nat == first + k);
        let ll = lead_line(rest, nl, first + 1, next, (k - 1) as nat);
        assert(lead_line(files, nl, first, before, k) == ll);
        assert(spans_from(files, nl, first, before)[k as int] == tail[k - 1]);
        let sk = section_span(files[k as int], first + k, nl, ll);
        assert(tail[k - 1] == (sk.0, sk.1));
    }
}

proof fn lemma_lead_line_step(files: Seq<BundleFileView>, nl: Seq<char>, first: nat, before: nat, k: nat)
    requires
        k < files.len(),
    ensures
        lead_line(files, nl, first, before, k + 1) == section_span(
            files[k as int],
            first + k,
            nl,
            lead_line(files, nl, first, before, k),
        ).2,
    decreases k,
{
    let rest = files.drop_first();
    let next = section_span(files[0], first, nl, before).2;
    assert(lead_line(files, nl, first, before, k + 1) == lead_line(rest, nl, first + 1, next, k));
    if k > 0 {
        lemma_lead_line_step(rest, nl, first + 1, next, (k - 1) as nat);
        assert(rest[k - 1] == files[k as int]);
        assert((first + 1 + (k - 1)) as nat == first + k);
        assert(lead_line(files, nl, first, before, k) == lead_line(
            rest,
            nl,
            first + 1,
            next,
            (k - 1) as nat,
        ));
    }
}

proof fn lemma_note_no_breaks(r: (nat, nat))
    ensures
        no_breaks(range_note(r)),
{
    reveal_strlit(" -- (lines ");
    reveal_strlit(" through ");
    reveal_strlit(")");
    let a = " -- (lines "@;
    let b = " through "@;
    let c = ")"@;
    assert(no_breaks(a) && no_breaks(b) && no_breaks(c));
    lemma_decimal_no_breaks(r.0);
    lemma_decimal_no_breaks(r.1);
    lemma_no_breaks_concat(a, decimal(r.0));
    lemma_no_breaks_concat(a + decimal(r.0), b);
    lemma_no_breaks_concat(a + decimal(r.0) + b, decimal(r.1));
    lemma_no_breaks_concat(a + decimal(r.0) + b + decimal(r.1), c);
}

proof fn lemma_heading_no_breaks(
    files: Seq<BundleFileView>,
    i: int,
    ranges: Seq<(nat, nat)>,
    with_ranges: bool,
)
    requires
        0 <= i < files.len(),
        single_line_file(files[i]),
    ensures
        section_heading(files, i, ranges, with_ranges) is Some ==> no_breaks(
            section_heading(files, i, ranges, with_ranges)->0,
        ),
        toc_entry_label(files, i, ranges, with_ranges) is Some ==> no_breaks(
            toc_entry_label(files, i, ranges, with_ranges)->0,
        ),
{
    let f = files[i];
    reveal_strlit("File ");
    reveal_strlit(": ");
    let a = "File "@;
    let b = ": "@;
    assert(no_breaks(a) && no_breaks(b));
    lemma_decimal_no_breaks((i + 1) as nat);
    lemma_no_breaks_concat(a, decimal((i + 1) as nat));
    lemma_no_breaks_concat(a + decimal((i + 1) as nat), b);
    lemma_no_breaks_concat(a + decimal((i + 1) as nat) + b, f.display);
    if let HeaderView::Custom(c) = f.header {
        lemma_trim_no_breaks(c);
    }
    lemma_note_no_breaks(ranges[i]);
    if let Some(h) = file_heading(f, i as nat) {
        lemma_no_breaks_concat(h, range_note(ranges[i]));
    }
    lemma_no_breaks_concat(toc_label(f), range_note(ranges[i]));
}

proof fn lemma_prefix_grows(a: Seq<char>, b: Seq<char>, c: Seq<char>)
    requires
        a.is_prefix_of(b),
    ensures
        a.is_prefix_of(b + c),
{
    assert(a =~= (b + c).subrange(0, a.len() as int));
}

proof fn lemma_sections_prefix(
    files: Seq<BundleFileView>,
    headings: Seq<Option<Seq<char>>>,
    nl: Seq<char>,
    i: nat,
    n: nat,
)
    requires
        i < n,
    ensures
        (sections(files, headings, nl, i) + section_text(files[i as int], headings[i as int], nl)).is_prefix_of(
            sections(files, headings, nl, n),
        ),
    decreases n,
{
    if n == i + 1 {
        let x = sections(files, headings, nl, i) + section_text(files[i as int], headings[i as int], nl);
        assert(x =~= sections(files, headings, nl, n).subrange(0, x.len() as int));
    } else {
        lemma_sections_prefix(files, headings, nl, i, (n - 1) as nat);
        lemma_prefix_grows(
            sections(files, headings, nl, i) + section_text(files[i as int], headings[i as int], nl),
            sections(files, headings, nl, (n - 1) as nat),
            section_text(files[n - 1], headings[n - 1], nl),
        );
    }
}

proof fn lemma_toc_start(
    labels: Seq<Option<Seq<char>>>,
    anchors: Seq<Option<Seq<char>>>,
    links: bool,
    nl: Newline,
    n: nat,
)
    requires
        forall|j: int| 0 <= j < n && #[trigger] labels[j] is Some ==> no_breaks(labels[j]->0),
        forall|j: int|
            0 <= j < n && links && #[trigger] anchors[j] is Some ==> no_breaks(anchors[j]->0),
    ensures
        toc_lines(labels, anchors, links, nl.text(), n).len() == 0 || toc_lines(
            labels,
            anchors,
            links,
            nl.text(),
            n,
        )[0] == '-',
    decreases n,
{
    let t = nl.text();
    if n > 0 {
        lemma_toc_start(labels, anchors, links, nl, (n - 1) as nat);
        let prev = toc_lines(labels, anchors, links, t, (n - 1) as nat);
        let k = n - 1;
        if let Some(l) = labels[k] {
            assert(labels[k] is Some);
            if links && anchors[k] is Some {
                assert(anchors[k] is Some);
            }
            lemma_toc_entry_no_breaks(l, anchors[k], links);
            let e = toc_entry(l, anchors[k], links);
            if prev.len() == 0 {
                assert((prev + (e + t))[0] == e[0]);
            } else {
                assert((prev + (e + t))[0] == prev[0]);
            }
        } else {
            assert(prev + Seq::<char>::empty() =~= prev);
        }
    }
}

proof fn lemma_sections_count(
    files: Seq<BundleFileView>,
    headings: Seq<Option<Seq<char>>>,
    nl: Newline,
    base: Seq<char>,
    b0: nat,
    k: nat,
)
    requires
        k <= files.len(),
        count_occ(base, nl.text()) + 1 == b0,
        forall|j: int|
            0 <= j < files.len() ==> ((#[trigger] headings[j]) is Some) == (file_heading(
                files[j],
                j as nat,
            ) is Some),
        forall|j: int| 0 <= j < files.len() && (#[trigger] headings[j]) is Some ==> no_breaks(headings[j]->0),
        forall|j: int| 0 <= j < files.len() ==> single_line_file(#[trigger] files[j]),
    ensures
        count_occ(base + sections(files, headings, nl.text(), k), nl.text()) + 1 == lead_line(
            files,
            nl.text(),
            0,
            b0,
            k,
        ),
    decreases k,
{
    let t = nl.text();
    if k == 0 {
        assert(base + sections(files, headings, t, 0) =~= base);
    } else {
        let j = k - 1;
        lemma_sections_count(files, headings, nl, base, b0, (k - 1) as nat);
        let lead = lead_line(files, t, 0, b0, (k - 1) as nat);
        assert(single_line_file(files[j]));
        assert((headings[j] is Some) == (file_heading(files[j], j as nat) is Some));
        if headings[j] is Some {
            assert(no_breaks(headings[j]->0));
        }
        lemma_section_count(files[j], j as nat, headings[j], nl, lead);
        lemma_lead_line_step(files, t, 0, b0, (k - 1) as nat);
        assert((0 + j) as nat == j as nat);
        let text = section_text(files[j], headings[j], t);
        let prev = base + sections(files, headings, t, (k - 1) as nat);
        assert(base + sections(files, headings, t, k) =~= prev + text);
        assert(joins(text, nl));
        lemma_count_concat(prev, text, nl);
    }
}

proof fn lemma_fenced_upto(f: BundleFileView, h: Option<Seq<char>>, nl: Newline)
    requires
        h is Some ==> no_breaks(h->0),
        single_line_file(f),
        f.include_code_fence,
    ensures
        ({
            let t = nl.text();
            let fence = backticks(fence_width(f.content));
            let tag = match f.fence_tag {
                Some(g) => g,
                None => Seq::<char>::empty(),
            };
            let c0 = normalized(f.content, t);
            let piece = section_head(h, t) + fence + tag + t + terminated(c0, t);
            &&& count_occ(piece, t) == (if h is Some {
                2nat
            } else {
                0nat
            }) + 1 + completed_lines(c0, t)
            &&& joins(piece, nl)
            &&& section_body(f, t) == fence + tag + t + terminated(c0, t) + fence + t
        }),
{
    let t = nl.text();
    let fence = backticks(fence_width(f.content));
    let tag = match f.fence_tag {
        Some(g) => g,
        None => Seq::<char>::empty(),
    };
    let c0 = normalized(f.content, t);
    lemma_normalized_joins(f.content, nl);
    lemma_terminated(c0, nl);
    let c = terminated(c0, t);
    let head = section_head(h, t);
    reveal_strlit("## ");
    if let Some(hh) = h {
        let a = "## "@;
        assert(no_breaks(a));
        lemma_no_breaks_concat(a, hh);
        lemma_count_no_breaks(a + hh, nl);
        lemma_count_then_break(a + hh, nl);
        lemma_count_then_break(a + hh + t, nl);
        assert(head[0] == '#');
    } else {
        assert(head =~= Seq::<char>::empty());
    }
    lemma_backticks_no_breaks(fence_width(f.content));
    lemma_no_breaks_concat(fence, tag);
    assert(fence.len() >= 3);
    assert(fence[0] == '`');
    assert((fence + tag)[0] == '`');
    lemma_count_no_breaks(fence + tag, nl);
    lemma_count_concat(head, fence + tag, nl);
    assert(head + fence + tag =~= head + (fence + tag));
    lemma_count_then_break(head + fence + tag, nl);
    lemma_count_concat(head + fence + tag + t, c, nl);
    let piece = head + fence + tag + t + c;
    if h is Some {
        assert(piece[0] == head[0]);
    } else {
        assert(piece[0] == fence[0]);
    }
}

/// The anchors of the headings of a bundle.
pub open spec fn bundle_anchors(
    title: Seq<char>,
    description: Seq<char>,
    files: Seq<BundleFileView>,
    newline: Newline,
    with_ranges: bool,
) -> Seq<Option<Seq<char>>> {
    let t = newline.text();
    all_anchors(
        title,
        all_headings(files, line_ranges(normalized(description, t), files, t), with_ranges),
    )
}

/// The text of a bundle before the heading of section `i`: the title,
/// description and table of contents, the sections before it, and the
/// blank line that leads it.
pub open spec fn text_before_section(
    title: Seq<char>,
    description: Seq<char>,
    files: Seq<BundleFileView>,
    newline: Newline,
    toc_links: bool,
    with_ranges: bool,
    i: nat,
) -> Seq<char> {
    let t = newline.text();
    let d = normalized(description, t);
    let ranges = line_ranges(d, files, t);
    let headings = all_headings(files, ranges, with_ranges);
    let labels = all_labels(files, ranges, with_ranges);
    let anchors = all_anchors(title, headings);
    bundle_header(title, d, t) + toc_lines(labels, anchors, toc_links, t, files.len()) + sections(
        files,
        headings,
        t,
        i,
    ) + t
}

proof fn lemma_prefix_in(
    base: Seq<char>,
    secs_i: Seq<char>,
    st: Seq<char>,
    secs_n: Seq<char>,
    x: Seq<char>,
)
    requires
        (secs_i + st).is_prefix_of(secs_n),
        x.is_prefix_of(st),
    ensures
        (base + secs_i + x).is_prefix_of(base + secs_n),
{
    let m = base + secs_i + x;
    let text = base + secs_n;
    assert forall|k: int| 0 <= k < m.len() implies m[k] == text[k] by {
        if k >= base.len() {
            let y = k - base.len();
            assert(text[k] == secs_n[y]);
            assert(secs_n[y] == (secs_i + st)[y]);
            if y >= secs_i.len() {
                assert((secs_i + st)[y] == st[y - secs_i.len()]);
                assert(st[y - secs_i.len()] == x[y - secs_i.len()]);
            }
        }
    }
    assert(m =~= text.subrange(0, m.len() as int));
}

proof fn lemma_start_count(
    title: Seq<char>,
    description: Seq<char>,
    files: Seq<BundleFileView>,
    newline: Newline,
    toc_links: bool,
    with_ranges: bool,
    i: int,
)
    requires
        0 <= i < files.len(),
        no_breaks(title),
        forall|j: int| 0 <= j < files.len() ==> single_line_file(#[trigger] files[j]),
        toc_links ==> forall|j: int|
            0 <= j < files.len() && (#[trigger] bundle_anchors(
                title,
                description,
                files,
                newline,
                with_ranges,
            )[j]) is Some ==> no_breaks(
                bundle_anchors(title, description, files, newline, with_ranges)[j]->0,
            ),
    ensures
        ({
            let t = newline.text();
            let d = normalized(description, t);
            let ranges = line_ranges(d, files, t);
            let headings = all_headings(files, ranges, with_ranges);
            let labels = all_labels(files, ranges, with_ranges);
            let anchors = all_anchors(title, headings);
            let base = bundle_header(title, d, t) + toc_lines(labels, anchors, toc_links, t, files.len());
            let lead = lead_line(files, t, 0, lines_before_sections(d, files, t), i as nat);
            let span = section_span(files[i], i as nat, t, lead);
            &&& count_occ(base + sections(files, headings, t, i as nat), t) + 1 == lead
            &&& ranges[i] == (span.0, span.1)
            &&& headings[i] is Some ==> no_breaks(headings[i]->0)
        }),
{
    let t = newline.text();
    let d = normalized(description, t);
    let ranges = line_ranges(d, files, t);
    let headings = all_headings(files, ranges, with_ranges);
    let labels = all_labels(files, ranges, with_ranges);
    let anchors = all_anchors(title, headings);
    let n = files.len();
    let b0 = lines_before_sections(d, files, t);
    let header = bundle_header(title, d, t);
    let toc = toc_lines(labels, anchors, toc_links, t, n);
    let base = header + toc;
    assert forall|j: int| 0 <= j < n implies {
        &&& ((#[trigger] headings[j]) is Some) == (file_heading(files[j], j as nat) is Some)
        &&& headings[j] is Some ==> no_breaks(headings[j]->0)
        &&& labels[j] is Some ==> no_breaks(labels[j]->0)
    } by {
        assert(single_line_file(files[j]));
        lemma_heading_no_breaks(files, j, ranges, with_ranges);
    }
    assert forall|j: int| 0 <= j < n && #[trigger] labels[j] is Some implies no_breaks(labels[j]->0) by {
        assert(headings[j] is Some ==> no_breaks(headings[j]->0));
    }
    assert forall|j: int| 0 <= j < n && toc_links && #[trigger] anchors[j] is Some implies no_breaks(
        anchors[j]->0,
    ) by {
        assert(anchors == bundle_anchors(title, description, files, newline, with_ranges));
    }
    lemma_normalized_joins(description, newline);
    lemma_header_count(title, d, newline);
    lemma_toc_count(labels, anchors, toc_links, newline, n);
    lemma_toc_start(labels, anchors, toc_links, newline, n);
    lemma_listed_labels(files, ranges, with_ranges, n);
    assert(files.take(n as int) =~= files);
    lemma_count_concat(header, toc, newline);
    assert(count_occ(base, t) + 1 == b0);
    lemma_sections_count(files, headings, newline, base, b0, i as nat);
    lemma_spans_at(files, t, 0, b0, i as nat);
    assert((0 + i) as nat == i as nat);
}

#[verifier::rlimit(80)]
#[verifier::spinoff_prover]
proof fn lemma_start_line(
    title: Seq<char>,
    description: Seq<char>,
    files: Seq<BundleFileView>,
    newline: Newline,
    toc_links: bool,
    with_ranges: bool,
    i: int,
)
    requires
        0 <= i < files.len(),
        no_breaks(title),
        forall|j: int| 0 <= j < files.len() ==> single_line_file(#[trigger] files[j]),
        toc_links ==> forall|j: int|
            0 <= j < files.len() && (#[trigger] bundle_anchors(
                title,
                description,
                files,
                newline,
                with_ranges,
            )[j]) is Some ==> no_breaks(
                bundle_anchors(title, description, files, newline, with_ranges)[j]->0,
            ),
    ensures
        ({
            let t = newline.text();
            let ranges = line_ranges(normalized(description, t), files, t);
            let text = assembled(title, description, files, newline, toc_links, with_ranges);
            let pre = text_before_section(
                title,
                description,
                files,
                newline,
                toc_links,
                with_ranges,
                i as nat,
            );
            &&& pre.is_prefix_of(text)
            &&& count_occ(pre, t) + 1 == ranges[i].0
        }),
{
    let t = newline.text();
    let d = normalized(description, t);
    let ranges = line_ranges(d, files, t);
    let headings = all_headings(files, ranges, with_ranges);
    let labels = all_labels(files, ranges, with_ranges);
    let anchors = all_anchors(title, headings);
    let n = files.len();
    let base = bundle_header(title, d, t) + toc_lines(labels, anchors, toc_links, t, n);
    lemma_start_count(title, description, files, newline, toc_links, with_ranges, i);
    let before = base + sections(files, headings, t, i as nat);
    let pre = before + t;
    lemma_count_then_break(before, newline);
    let st = section_text(files[i], headings[i], t);
    lemma_sections_prefix(files, headings, t, i as nat, n);
    assert(st == t + section_head(headings[i], t) + section_body(files[i], t));
    assert(t.is_prefix_of(st)) by {
        assert(t =~= st.subrange(0, t.len() as int));
    }
    lemma_prefix_in(base, sections(files, headings, t, i as nat), st, sections(files, headings, t, n), t);
}

proof fn lemma_regroup(
    t: Seq<char>,
    head: Seq<char>,
    fence: Seq<char>,
    tag: Seq<char>,
    c: Seq<char>,
)
    ensures
        t + head + (fence + tag + t + c + fence + t) == t + (head + fence + tag + t + c) + fence + t,
{
    assert(t + head + (fence + tag + t + c + fence + t) =~= t + (head + fence + tag + t + c) + fence
        + t);
}

proof fn lemma_mark_prefix(
    base: Seq<char>,
    secs_i: Seq<char>,
    secs_n: Seq<char>,
    t: Seq<char>,
    piece: Seq<char>,
    fence: Seq<char>,
    st: Seq<char>,
)
    requires
        st == t + piece + fence + t,
        (secs_i + st).is_prefix_of(secs_n),
    ensures
        (base + secs_i + t + piece + fence).is_prefix_of(base + secs_n),
{
    let x = t + piece + fence;
    assert(x =~= st.subrange(0, x.len() as int));
    lemma_prefix_in(base, secs_i, st, secs_n, x);
    assert(base + secs_i + x =~= base + secs_i + t + piece + fence);
}

proof fn lemma_end_generic(
    files: Seq<BundleFileView>,
    headings: Seq<Option<Seq<char>>>,
    nl: Newline,
    base: Seq<char>,
    i: int,
    n: nat,
)
    requires
        0 <= i < n == files.len(),
        files[i].include_code_fence,
        single_line_file(files[i]),
        headings[i] is Some ==> no_breaks(headings[i]->0),
    ensures
        ({
            let t = nl.text();
            let f = files[i];
            let fence = backticks(fence_width(f.content));
            let tag = match f.fence_tag {
                Some(g) => g,
                None => Seq::<char>::empty(),
            };
            let pre = base + sections(files, headings, t, i as nat) + t;
            let piece = section_head(headings[i], t) + fence + tag + t + terminated(
                normalized(f.content, t),
                t,
            );
            &&& (pre + piece + fence).is_prefix_of(base + sections(files, headings, t, n))
            &&& count_occ(pre + piece, t) == count_occ(pre, t) + (if headings[i] is Some {
                2nat
            } else {
                0nat
            }) + 1 + completed_lines(normalized(f.content, t), t)
        }),
{
    let t = nl.text();
    let f = files[i];
    let fence = backticks(fence_width(f.content));
    let tag = match f.fence_tag {
        Some(g) => g,
        None => Seq::<char>::empty(),
    };
    let c = terminated(normalized(f.content, t), t);
    let head = section_head(headings[i], t);
    let secs_i = sections(files, headings, t, i as nat);
    let pre = base + secs_i + t;
    let st = section_text(f, headings[i], t);
    lemma_sections_prefix(files, headings, t, i as nat, n);
    lemma_fenced_upto(f, headings[i], nl);
    let piece = head + fence + tag + t + c;
    lemma_count_concat(pre, piece, nl);
    assert(st == t + head + section_body(f, t));
    lemma_regroup(t, head, fence, tag, c);
    assert(st == t + piece + fence + t);
    lemma_mark_prefix(base, secs_i, sections(files, headings, t, n), t, piece, fence, st);
}

#[verifier::rlimit(80)]
#[verifier::spinoff_prover]
proof fn lemma_end_line(
    title: Seq<char>,
    description: Seq<char>,
    files: Seq<BundleFileView>,
    newline: Newline,
    toc_links: bool,
    with_ranges: bool,
    i: int,
)
    requires
        0 <= i < files.len(),
        no_breaks(title),
        forall|j: int| 0 <= j < files.len() ==> single_line_file(#[trigger] files[j]),
        toc_links ==> forall|j: int|
            0 <= j < files.len() && (#[trigger] bundle_anchors(
                title,
                description,
                files,
                newline,
                with_ranges,
            )[j]) is Some ==> no_breaks(
                bundle_anchors(title, description, files, newline, with_ranges)[j]->0,
            ),
    ensures
        files[i].include_code_fence ==> ({
            let t = newline.text();
            let f = files[i];
            let ranges = line_ranges(normalized(description, t), files, t);
            let text = assembled(title, description, files, newline, toc_links, with_ranges);
            let fence = backticks(fence_width(f.content));
            let tag = match f.fence_tag {
                Some(g) => g,
                None => Seq::<char>::empty(),
            };
            let upto = text_before_section(
                title,
                description,
                files,
                newline,
                toc_links,
                with_ranges,
                i as nat,
            ) + section_head(all_headings(files, ranges, with_ranges)[i], t) + fence + tag + t
                + terminated(normalized(f.content, t), t);
            &&& (upto + fence).is_prefix_of(text)
            &&& count_occ(upto, t) + 1 == ranges[i].1
        }),
{
    let t = newline.text();
    let d = normalized(description, t);
    let ranges = line_ranges(d, files, t);
    let headings = all_headings(files, ranges, with_ranges);
    let labels = all_labels(files, ranges, with_ranges);
    let anchors = all_anchors(title, headings);
    let n = files.len();
    let base = bundle_header(title, d, t) + toc_lines(labels, anchors, toc_links, t, n);
    if files[i].include_code_fence {
        let f = files[i];
        let fence = backticks(fence_width(f.content));
        let tag = match f.fence_tag {
            Some(g) => g,
            None => Seq::<char>::empty(),
        };
        let c = terminated(normalized(f.content, t), t);
        let head = section_head(headings[i], t);
        lemma_start_count(title, description, files, newline, toc_links, with_ranges, i);
        assert(single_line_file(f));
        lemma_end_generic(files, headings, newline, base, i, n);
        let pre = base + sections(files, headings, t, i as nat) + t;
        assert(pre + head + fence + tag + t + c =~= pre + (head + fence + tag + t + c));
        lemma_count_then_break(base + sections(files, headings, t, i as nat), newline);
    }
}

/// In an assembled bundle the line range given for each file starts on the
/// line that holds its heading (its first line when it has none), and the
/// range of a fenced file ends on the line of its closing fence; lines are
/// counted by the bundle's line breaks. This holds when the title and each
/// file's name, custom heading and fence tag (and, with links, each anchor)
/// fit on one line.
pub proof fn lemma_line_ranges_match_sections(
    title: Seq<char>,
    description: Seq<char>,
    files: Seq<BundleFileView>,
    newline: Newline,
    toc_links: bool,
    with_ranges: bool,
    i: int,
)
    requires
        0 <= i < files.len(),
        no_breaks(title),
        forall|j: int| 0 <= j < files.len() ==> single_line_file(#[trigger] files[j]),
        toc_links ==> forall|j: int|
            0 <= j < files.len() && (#[trigger] bundle_anchors(
                title,
                description,
                files,
                newline,
                with_ranges,
            )[j]) is Some ==> no_breaks(
                bundle_anchors(title, description, files, newline, with_ranges)[j]->0,
            ),
    ensures
        ({
            let t = newline.text();
            let ranges = line_ranges(normalized(description, t), files, t);
            let text = assembled(title, description, files, newline, toc_links, with_ranges);
            let pre = text_before_section(
                title,
                description,
                files,
                newline,
                toc_links,
                with_ranges,
                i as nat,
            );
            &&& pre.is_prefix_of(text)
            &&& count_occ(pre, t) + 1 == ranges[i].0
        }),
        files[i].include_code_fence ==> ({
            let t = newline.text();
            let f = files[i];
            let ranges = line_ranges(normalized(description, t), files, t);
            let text = assembled(title, description, files, newline, toc_links, with_ranges);
            let fence = backticks(fence_width(f.content));
            let tag = match f.fence_tag {
                Some(g) => g,
                None => Seq::<char>::empty(),
            };
            let upto = text_before_section(
                title,
                description,
                files,
                newline,
                toc_links,
                with_ranges,
                i as nat,
            ) + section_head(all_headings(files, ranges, with_ranges)[i], t) + fence + tag + t
                + terminated(normalized(f.content, t), t);
            &&& (upto + fence).is_prefix_of(text)
            &&& count_occ(upto, t) + 1 == ranges[i].1
        }),
{
    lemma_start_line(title, description, files, newline, toc_links, with_ranges, i);
    lemma_end_line(title, description, files, newline, toc_links, with_ranges, i);
}

} // verus!
