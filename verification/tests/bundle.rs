use bundlermd::bundle::{assemble, fence_for, normalize_newlines, BundleFile, BundleHeader, Newline};

#[test]
fn normalize_mixed_to_unix() {
    assert_eq!(
        normalize_newlines("a\r\nb\rc\nd", Newline::Unix),
        "a\nb\nc\nd"
    );
}

#[test]
fn normalize_mixed_to_windows() {
    assert_eq!(
        normalize_newlines("a\r\nb\rc\nd", Newline::Windows),
        "a\r\nb\r\nc\r\nd"
    );
}

#[test]
fn normalize_is_idempotent_on_examples() {
    for s in ["a\r\n\r\nb", "\r\r\n\n", "x\ry"] {
        for nl in [Newline::Unix, Newline::Windows] {
            let once = normalize_newlines(s, nl);
            assert_eq!(normalize_newlines(&once, nl), once);
        }
    }
}

#[test]
fn fence_minimum_is_three() {
    assert_eq!(fence_for("no backticks"), "```");
    assert_eq!(fence_for("inline `code` here"), "```");
    assert_eq!(fence_for("``"), "```");
}

#[test]
fn fence_exceeds_longest_run() {
    assert_eq!(fence_for("a ``` b"), "````");
    assert_eq!(fence_for("x `````` y"), "```````");
}

#[test]
fn fence_handles_run_at_ends() {
    assert_eq!(fence_for("````start"), "`````");
    assert_eq!(fence_for("end````"), "`````");
}

#[test]
fn fence_of_empty_content() {
    assert_eq!(fence_for(""), "```");
}

fn file(display: &str, content: &str) -> BundleFile {
    BundleFile {
        display: display.into(),
        fence_tag: None,
        content: content.into(),
        include_code_fence: true,
        include_in_toc: true,
        header: BundleHeader::Filename,
    }
}

fn files() -> Vec<BundleFile> {
    vec![
        file("a.txt", "alpha\n"),
        file("b.md", "has ``` fence\r\nand crlf"),
    ]
}

#[test]
fn assemble_basic_structure() {
    let out = assemble("My Title", "", &files(), Newline::Unix, false, false);
    let expected = "\
# My Title

\n## Table of Contents

- a.txt
- b.md

## File 1: a.txt

```
alpha
```

## File 2: b.md

````
has ``` fence
and crlf
````
";
    assert_eq!(out, expected);
}

#[test]
fn assemble_includes_description() {
    let out = assemble(
        "T",
        "Hello description.",
        &files(),
        Newline::Unix,
        false,
        false,
    );
    assert!(out.starts_with("# T\n\nHello description.\n\n## Table of Contents\n"));
}

#[test]
fn assemble_adds_code_fence_tags() {
    let f = vec![BundleFile {
        display: "main.rs".into(),
        fence_tag: Some("rust".into()),
        content: "fn main() {}\n".into(),
        include_code_fence: true,
        include_in_toc: true,
        header: BundleHeader::Filename,
    }];
    let out = assemble("T", "", &f, Newline::Unix, false, false);
    assert!(out.contains("```rust\nfn main() {}\n```\n"));
}

#[test]
fn assemble_windows_newlines_throughout() {
    let out = assemble("T", "", &files(), Newline::Windows, false, false);
    assert!(out.contains("## File 2: b.md\r\n"));
    assert!(out.contains("has ``` fence\r\nand crlf\r\n"));
    assert!(!normalize_newlines(&out, Newline::Unix).contains('\r'));
}

#[test]
fn assemble_toc_links_use_github_anchors() {
    let f = vec![
        BundleFile {
            display: "src/config.json".into(),
            fence_tag: None,
            content: "a".into(),
            include_code_fence: true,
            include_in_toc: true,
            header: BundleHeader::Filename,
        },
        BundleFile {
            display: "lib/config.json".into(),
            fence_tag: None,
            content: "b".into(),
            include_code_fence: true,
            include_in_toc: true,
            header: BundleHeader::Filename,
        },
    ];
    let out = assemble("T", "", &f, Newline::Unix, true, false);
    assert!(out.contains("- [src/config.json](#file-1-srcconfigjson)\n"));
    assert!(out.contains("- [lib/config.json](#file-2-libconfigjson)\n"));
    assert!(out.contains("## File 1: src/config.json\n"));
}

#[test]
fn assemble_toc_links_number_repeated_headings() {
    let mut f = vec![file("a.txt", "x"), file("b.txt", "y")];
    f[0].header = BundleHeader::Custom("Same".into());
    f[1].header = BundleHeader::Custom("Same".into());
    let out = assemble("T", "", &f, Newline::Unix, true, false);
    assert!(out.contains("- [Same](#same)\n- [Same](#same-1)\n"));
}

#[test]
fn assemble_adds_trailing_newline_before_closing_fence() {
    let f = vec![BundleFile {
        display: "x".into(),
        fence_tag: None,
        content: "no trailing newline".into(),
        include_code_fence: true,
        include_in_toc: true,
        header: BundleHeader::Filename,
    }];
    let out = assemble("T", "", &f, Newline::Unix, false, false);
    assert!(out.contains("no trailing newline\n```\n"));
}

#[test]
fn assemble_can_include_line_ranges_in_file_headings() {
    let out = assemble("My Title", "", &files(), Newline::Unix, false, true);
    assert!(out.contains("- a.txt -- (lines 9 through 13)\n"));
    assert!(out.contains("- b.md -- (lines 15 through 20)\n"));
    assert!(out.contains("## File 1: a.txt -- (lines 9 through 13)\n"));
    assert!(out.contains("## File 2: b.md -- (lines 15 through 20)\n"));
}

#[test]
fn line_ranges_include_heading_through_closing_fence() {
    let f = vec![BundleFile {
        display: "x".into(),
        fence_tag: None,
        content: "no trailing newline".into(),
        include_code_fence: true,
        include_in_toc: true,
        header: BundleHeader::Filename,
    }];
    let out = assemble("T", "one\ntwo", &f, Newline::Unix, false, true);
    let lines: Vec<_> = out.lines().collect();
    assert_eq!(lines[9], "## File 1: x -- (lines 10 through 14)");
    assert_eq!(lines[13], "```");
}

#[test]
fn line_ranges_of_unfenced_and_headless_files() {
    let mut f = vec![file("a.txt", "one\ntwo\n"), file("b.txt", "")];
    f[0].include_code_fence = false;
    f[1].include_code_fence = false;
    f[1].header = BundleHeader::Omitted;
    let out = assemble("T", "", &f, Newline::Unix, false, true);
    let lines: Vec<_> = out.lines().collect();
    assert!(out.contains("- a.txt -- (lines 9 through 12)\n"));
    assert_eq!(lines[8], "## File 1: a.txt -- (lines 9 through 12)");
    assert_eq!(lines[11], "two");
    assert!(out.contains("- b.txt -- (lines 14 through 14)\n"));
}

#[test]
fn assemble_can_omit_code_fence() {
    let mut f = file("plain.txt", "plain text\n");
    f.include_code_fence = false;
    let out = assemble("T", "", &[f], Newline::Unix, false, false);
    assert!(out.contains("## File 1: plain.txt\n\nplain text\n"));
    assert!(!out.contains("```\nplain text\n```"));
}

#[test]
fn assemble_can_omit_toc_entry() {
    let mut f = files();
    f[1].include_in_toc = false;
    let out = assemble("T", "", &f, Newline::Unix, false, false);
    assert!(out.contains("## Table of Contents\n\n- a.txt\n\n## File 1: a.txt"));
    assert!(!out.contains("- b.md\n"));
    assert!(out.contains("## File 2: b.md\n"));
}

#[test]
fn assemble_supports_custom_and_missing_headers() {
    let mut f = vec![file("a.txt", "alpha\n"), file("b.txt", "beta\n")];
    f[0].header = BundleHeader::Custom("Overview".into());
    f[1].header = BundleHeader::Omitted;
    let out = assemble("T", "", &f, Newline::Unix, true, false);
    assert!(out.contains("- [Overview](#overview)\n"));
    assert!(out.contains("- b.txt\n"));
    assert!(out.contains("## Overview\n\n```\nalpha\n```\n"));
    assert!(out.contains("```\nbeta\n```\n"));
    assert!(!out.contains("## File 2: b.txt"));
}

#[test]
fn blank_custom_header_falls_back_to_file_name() {
    let mut f = vec![file("a.txt", "alpha\n")];
    f[0].header = BundleHeader::Custom("   ".into());
    let out = assemble("T", "", &f, Newline::Unix, false, false);
    assert!(out.contains("- a.txt\n"));
    assert!(out.contains("## File 1: a.txt\n"));
}

#[test]
fn line_ranges_point_at_headings_and_closing_fences() {
    let files = vec![file("a.txt", "one\r\ntwo"), file("b.txt", ""), file("c.txt", "x\n\ny\n")];
    for nl in [Newline::Unix, Newline::Windows] {
        let out = assemble("T", "desc\nmore", &files, nl, true, true);
        let sep = if nl == Newline::Unix { "\n" } else { "\r\n" };
        let lines: Vec<&str> = out.split(sep).collect();
        let mut seen = 0;
        for line in &lines {
            if let Some(rest) = line.strip_prefix("## File ") {
                let note = rest.split(" -- (lines ").nth(1).unwrap();
                let note = note.trim_end_matches(')');
                let mut parts = note.split(" through ");
                let start: usize = parts.next().unwrap().parse().unwrap();
                let end: usize = parts.next().unwrap().parse().unwrap();
                assert_eq!(lines[start - 1], *line);
                assert!(lines[end - 1].starts_with("```"));
                seen += 1;
            }
        }
        assert_eq!(seen, 3);
    }
}
