//! Source-preserving Markdown transformations applied before bundle assembly.

use vstd::prelude::*;
use vstd::string::*;

use vstd::utf8::{decode_utf8, valid_utf8};

use crate::reading::{lossy_text, utf8_lossy};
use crate::text::owned;

verus! {

broadcast use vstd::string::group_string_axioms;

/// What a parser event stands for, as far as links are concerned.
#[derive(Clone, Copy, Debug, PartialEq, Eq, Structural)]
pub enum EventKind {
    LinkStart,
    LinkEnd,
    Other,
}

/// A parser event with the byte range of its source.
#[derive(Clone, Copy, Debug, PartialEq, Eq, Structural)]
pub struct MarkdownEvent {
    pub kind: EventKind,
    pub start: usize,
    pub end: usize,
}

/// The events `pulldown_cmark` reports for `markdown`, with their source ranges.
pub uninterp spec fn markdown_events(markdown: Seq<char>) -> Seq<MarkdownEvent>;

/// Runs `pulldown_cmark::Parser::new(markdown).into_offset_iter()` and
/// keeps, for each event, whether it starts a link, ends one, or is anything
/// else, with its byte range; the result is `markdown_events(markdown)`.
#[verifier::external_body]
fn parse_events(markdown: &str) -> (events: Vec<MarkdownEvent>)
    ensures
        events@ == markdown_events(markdown@),
{
    pulldown_cmark::Parser::new(markdown).into_offset_iter().map(|(event, range)| MarkdownEvent {
        kind: match event {
            pulldown_cmark::Event::Start(pulldown_cmark::Tag::Link { .. }) => EventKind::LinkStart,
            pulldown_cmark::Event::End(pulldown_cmark::TagEnd::Link) => EventKind::LinkEnd,
            _ => EventKind::Other,
        },
        start: range.start,
        end: range.end,
    }).collect()
}

/// A recognized link: its whole source range and the range of its label
/// source, if any.
#[derive(Clone, Copy, Debug, PartialEq, Eq)]
pub struct LinkSpan {
    pub start: usize,
    pub end: usize,
    pub label: Option<(usize, usize)>,
}

/// The label range after an event inside the link `link`: the event's range,
/// clipped to the link, widens it.
pub open spec fn widened(link: LinkSpan, ev: MarkdownEvent) -> LinkSpan {
    let start = if ev.start > link.start {
        ev.start
    } else {
        link.start
    };
    let end = if ev.end < link.end {
        ev.end
    } else {
        link.end
    };
    if start < end {
        LinkSpan {
            label: Some(
                match link.label {
                    Some(l) => (
                        if l.0 < start {
                            l.0
                        } else {
                            start
                        },
                        if l.1 > end {
                            l.1
                        } else {
                            end
                        },
                    ),
                    None => (start, end),
                },
            ),
            ..link
        }
    } else {
        link
    }
}

/// The links found in the first `n` events and the link still open after them.
pub open spec fn scan_links(events: Seq<MarkdownEvent>, n: nat) -> (Seq<LinkSpan>, Option<LinkSpan>)
    decreases n,
{
    if n == 0 {
        (Seq::empty(), None)
    } else {
        let (done, active) = scan_links(events, (n - 1) as nat);
        let ev = events[n - 1];
        match ev.kind {
            EventKind::LinkStart => (done, Some(LinkSpan { start: ev.start, end: ev.end, label: None })),
            EventKind::LinkEnd => match active {
                Some(l) => (done.push(l), None),
                None => (done, None),
            },
            EventKind::Other => match active {
                Some(l) => (done, Some(widened(l, ev))),
                None => (done, None),
            },
        }
    }
}

/// The links recognized in `events`.
pub open spec fn links_of(events: Seq<MarkdownEvent>) -> Seq<LinkSpan> {
    scan_links(events, events.len()).0
}

fn widen(link: LinkSpan, ev: MarkdownEvent) -> (r: LinkSpan)
    ensures
        r == widened(link, ev),
{
    let start = if ev.start > link.start {
        ev.start
    } else {
        link.start
    };
    let end = if ev.end < link.end {
        ev.end
    } else {
        link.end
    };
    if start < end {
        let label = match link.label {
            Some(l) => (
                if l.0 < start {
                    l.0
                } else {
                    start
                },
                if l.1 > end {
                    l.1
                } else {
                    end
                },
            ),
            None => (start, end),
        };
        LinkSpan { start: link.start, end: link.end, label: Some(label) }
    } else {
        link
    }
}

/// The links among parser events: each link start opens a span, events
/// inside it widen its label, and the link end closes it.
pub fn link_spans(events: &[MarkdownEvent]) -> (links: Vec<LinkSpan>)
    ensures
        links@ == links_of(events@),
{
    let mut links: Vec<LinkSpan> = Vec::new();
    let mut active: Option<LinkSpan> = None;
    let mut i: usize = 0;
    while i < events.len()
        invariant
            i <= events@.len(),
            (links@, active) == scan_links(events@, i as nat),
        decreases events.len() - i,
    {
        let ev = events[i];
        match ev.kind {
            EventKind::LinkStart => {
                active = Some(LinkSpan { start: ev.start, end: ev.end, label: None });
            },
            EventKind::LinkEnd => {
                if let Some(l) = active {
                    links.push(l);
                }
                active = None;
            },
            EventKind::Other => {
                if let Some(l) = active {
                    active = Some(widen(l, ev));
                }
            },
        }
        i += 1;
    }
    links
}

/// The links are in order, apart and inside a text of `len` bytes, with
/// their labels inside them.
pub open spec fn spans_fit(links: Seq<LinkSpan>, len: nat) -> bool {
    &&& forall|k: int| 0 <= k < links.len() ==> #[trigger] links[k].start <= links[k].end
    &&& forall|k: int|
        0 <= k < links.len() - 1 ==> #[trigger] links[k].end <= links[k + 1].start
    &&& links.len() > 0 ==> links.last().end <= len
    &&& forall|k: int|
        0 <= k < links.len() && #[trigger] links[k].label is Some ==> {
            let l = links[k].label->0;
            links[k].start <= l.0 <= l.1 <= links[k].end
        }
}

/// The source bytes that remain of `bytes` once the first `n` links are cut
/// out (keeping their labels unless `remove_labels`), up to the end of link
/// `n - 1`.
pub open spec fn cut_prefix(bytes: Seq<u8>, links: Seq<LinkSpan>, remove_labels: bool, n: nat) -> Seq<u8>
    decreases n,
{
    if n == 0 {
        Seq::empty()
    } else {
        let k = (n - 1) as int;
        let cursor = if k == 0 {
            0
        } else {
            links[k - 1].end as int
        };
        let link = links[k];
        cut_prefix(bytes, links, remove_labels, (n - 1) as nat) + bytes.subrange(
            cursor,
            link.start as int,
        ) + if !remove_labels && link.label is Some {
            bytes.subrange((link.label->0).0 as int, (link.label->0).1 as int)
        } else {
            Seq::empty()
        }
    }
}

/// The source bytes with all `links` cut out.
pub open spec fn cut_bytes(bytes: Seq<u8>, links: Seq<LinkSpan>, remove_labels: bool) -> Seq<u8> {
    let cursor = if links.len() == 0 {
        0
    } else {
        links.last().end as int
    };
    cut_prefix(bytes, links, remove_labels, links.len()) + bytes.subrange(cursor, bytes.len() as int)
}

fn push_bytes(out: &mut Vec<u8>, bytes: &[u8], from: usize, to: usize)
    requires
        from <= to <= bytes@.len(),
    ensures
        final(out)@ == old(out)@ + bytes@.subrange(from as int, to as int),
{
    let mut i = from;
    while i < to
        invariant
            from <= i <= to <= bytes@.len(),
            out@ == old(out)@ + bytes@.subrange(from as int, i as int),
        decreases to - i,
    {
        out.push(bytes[i]);
        assert(bytes@.subrange(from as int, i + 1) =~= bytes@.subrange(from as int, i as int).push(
            bytes@[i as int],
        ));
        i += 1;
    }
}

/// Cuts the given link spans out of `markdown`, keeping the source of their
/// labels unless `remove_labels`.
pub fn cut_links(markdown: &str, links: &[LinkSpan], remove_labels: bool) -> (r: String)
    requires
        spans_fit(links@, markdown.spec_bytes().len()),
    ensures
        r@ == utf8_lossy(cut_bytes(markdown.spec_bytes(), links@, remove_labels)),
        valid_utf8(cut_bytes(markdown.spec_bytes(), links@, remove_labels)) ==> r@ == decode_utf8(
            cut_bytes(markdown.spec_bytes(), links@, remove_labels),
        ),
{
    let bytes = markdown.as_bytes();
    let mut out: Vec<u8> = Vec::new();
    let mut cursor: usize = 0;
    let mut i: usize = 0;
    while i < links.len()
        invariant
            i <= links@.len(),
            bytes@ == markdown.spec_bytes(),
            spans_fit(links@, bytes@.len()),
            cursor == if i == 0 {
                0
            } else {
                links@[i - 1].end
            },
            out@ == cut_prefix(bytes@, links@, remove_labels, i as nat),
        decreases links.len() - i,
    {
        let link = links[i];
        if i + 1 < links.len() {
            assert(links@[i as int].end <= links@[i + 1].start);
        } else {
            assert(links@.last() == links@[i as int]);
        }
        assert(link.end <= bytes@.len()) by {
            if i + 1 < links.len() {
                lemma_link_ends_fit(links@, bytes@.len(), i as int);
            }
        }
        push_bytes(&mut out, bytes, cursor, link.start);
        if !remove_labels {
            if let Some(label) = link.label {
                push_bytes(&mut out, bytes, label.0, label.1);
            }
        }
        cursor = link.end;
        i += 1;
    }
    push_bytes(&mut out, bytes, cursor, bytes.len());
    lossy_text(out.as_slice())
}

proof fn lemma_link_ends_fit(links: Seq<LinkSpan>, len: nat, k: int)
    requires
        spans_fit(links, len),
        0 <= k < links.len(),
    ensures
        links[k].end <= len,
    decreases links.len() - k,
{
    if k < links.len() - 1 {
        assert(links[k].end <= links[k + 1].start);
        lemma_link_ends_fit(links, len, k + 1);
    } else {
        assert(links.last() == links[k]);
    }
}

fn check_spans(links: &Vec<LinkSpan>, len: usize) -> (ok: bool)
    ensures
        ok == spans_fit(links@, len as nat),
{
    let mut i: usize = 0;
    while i < links.len()
        invariant
            i <= links@.len(),
            forall|k: int| 0 <= k < i ==> #[trigger] links@[k].start <= links@[k].end,
            forall|k: int| 0 <= k < i && k < links@.len() - 1 ==> #[trigger] links@[k].end <= links@[k + 1].start,
            forall|k: int|
                0 <= k < i && #[trigger] links@[k].label is Some ==> {
                    let l = links@[k].label->0;
                    links@[k].start <= l.0 <= l.1 <= links@[k].end
                },
        decreases links.len() - i,
    {
        let link = links[i];
        if link.start > link.end {
            return false;
        }
        if i + 1 < links.len() && link.end > links[i + 1].start {
            return false;
        }
        if let Some(l) = link.label {
            if !(link.start <= l.0 && l.0 <= l.1 && l.1 <= link.end) {
                return false;
            }
        }
        i += 1;
    }
    if links.len() > 0 && links[links.len() - 1].end > len {
        return false;
    }
    true
}

/// Remove parser-recognized Markdown links while preserving their label
/// source, including any emphasis or image markup inside the label. When
/// `remove_labels` is true, remove the complete link instead. Markdown
/// without links, or whose reported link ranges do not fit its text, comes
/// back unchanged.
pub fn remove_links(markdown: &str, remove_labels: bool) -> (r: String)
    ensures
        ({
            let links = links_of(markdown_events(markdown@));
            if links.len() > 0 && spans_fit(links, markdown.spec_bytes().len()) {
                &&& r@ == utf8_lossy(cut_bytes(markdown.spec_bytes(), links, remove_labels))
                &&& valid_utf8(cut_bytes(markdown.spec_bytes(), links, remove_labels)) ==> r@
                    == decode_utf8(cut_bytes(markdown.spec_bytes(), links, remove_labels))
            } else {
                r@ == markdown@
            }
        }),
{
    let events = parse_events(markdown);
    let links = link_spans(events.as_slice());
    if links.len() == 0 {
        return owned(markdown);
    }
    let len = markdown.as_bytes().len();
    if !check_spans(&links, len) {
        return owned(markdown);
    }
    cut_links(markdown, links.as_slice(), remove_labels)
}

} // verus!
