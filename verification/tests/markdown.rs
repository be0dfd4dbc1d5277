use bundlermd::markdown::{cut_links, link_spans, remove_links, EventKind, LinkSpan, MarkdownEvent};

#[test]
fn removes_inline_reference_and_autolinks() {
    let input = [
        "An [inline](https://example.com \"Example\"), ",
        "a [reference][ref], and <https://example.org>.\n\n",
        "[ref]: https://example.net\n",
    ]
    .concat();
    assert_eq!(
        remove_links(&input, false),
        [
            "An inline, a reference, and https://example.org.\n\n",
            "[ref]: https://example.net\n",
        ]
        .concat(),
    );
}

#[test]
fn preserves_label_markup_images_and_code() {
    let input = [
        "[**bold** and `code`](https://example.com)\n\n",
        "![alt](image.png)\n\n",
        "`[code link](https://example.com)`\n\n",
        "```markdown\n[code block](https://example.com)\n```\n",
    ]
    .concat();
    assert_eq!(
        remove_links(&input, false),
        [
            "**bold** and `code`\n\n",
            "![alt](image.png)\n\n",
            "`[code link](https://example.com)`\n\n",
            "```markdown\n[code block](https://example.com)\n```\n",
        ]
        .concat(),
    );
}

#[test]
fn can_remove_links_and_their_labels() {
    assert_eq!(
        remove_links("Before [first](one) and [second](two) after.", true),
        "Before  and  after.",
    );
}

#[test]
fn text_without_links_is_unchanged() {
    assert_eq!(remove_links("plain *text*\n", false), "plain *text*\n");
}

#[test]
fn link_spans_follow_events() {
    let ev = |kind, start, end| MarkdownEvent { kind, start, end };
    let events = vec![
        ev(EventKind::Other, 0, 3),
        ev(EventKind::LinkStart, 4, 12),
        ev(EventKind::Other, 5, 8),
        ev(EventKind::LinkEnd, 4, 12),
    ];
    let links = link_spans(&events);
    assert_eq!(links, vec![LinkSpan { start: 4, end: 12, label: Some((5, 8)) }]);
    assert_eq!(cut_links("abc [xyz](u) d", &links, false), "abc xyz d");
}
