//! End-to-end export over a fixture set, with each file given by what
//! reading it at export time gave.

use bundlermd::project::{PathPresentation, ProjectSettings};
use bundlermd::reading::{content_from_bytes, FileContent};
use bundlermd::bundle::{BundleFile, BundleHeader};
use bundlermd::state::{
    bundle_fits, clipboard_result, generate_bundle, may_write, BundleExport, ExportObservation, Limits,
    Problem,
};

fn fixture(name: &str) -> String {
    format!("/fixtures/{name}")
}

fn text(content: &str) -> ExportObservation {
    ExportObservation {
        size: content.len() as u64,
        read: Ok(FileContent::Text(content.to_string())),
    }
}

fn raw(bytes: &[u8]) -> ExportObservation {
    ExportObservation {
        size: bytes.len() as u64,
        read: Ok(content_from_bytes(bytes)),
    }
}

fn missing() -> ExportObservation {
    ExportObservation {
        size: 0,
        read: Err("No such file or directory (os error 2)".to_string()),
    }
}

fn file_name(p: &str) -> &str {
    p.rsplit('/').next().unwrap()
}

#[test]
fn export_over_fixture_set() {
    let files = vec![
        fixture("plain.txt"),
        fixture("crlf.txt"),
        fixture("backticks.md"),
        fixture("utf16le_bom.txt"),
        fixture("binary.bin"),
        fixture("utf16le_nobom.txt"),
        fixture("does_not_exist.txt"),
    ];
    let observations = vec![
        text("plain text\n"),
        text("line one\r\nline two\r\n"),
        text("has a ```` four-backtick run\nand ``` three\n"),
        raw(b"\xFF\xFEh\x00i\x00\n\x00"),
        raw(b"\x7fELF\x00\x01\x02"),
        raw(b"h\x00i\x00\n\x00"),
        missing(),
    ];
    let (markdown, problems) = generate_bundle(
        &files,
        &ProjectSettings::default(),
        None,
        "/tmp/My Bundle.md",
        Limits::default(),
        &observations,
    );

    let problem_paths: Vec<_> = problems.iter().map(|p| file_name(&p.path)).collect();
    assert_eq!(
        problem_paths,
        ["binary.bin", "utf16le_nobom.txt", "does_not_exist.txt"]
    );

    assert!(markdown.starts_with("# My Bundle\n"));

    assert!(markdown.contains(
        "## Table of Contents\n\n- plain.txt\n- crlf.txt\n- backticks.md\n- utf16le_bom.txt\n"
    ));
    assert!(!markdown.contains("binary.bin"));

    assert!(markdown.contains("## File 2: crlf.txt\n\n```\nline one\nline two\n```\n"));
    assert!(!markdown.contains('\r'));

    assert!(markdown.contains(
        "## File 3: backticks.md\n\n`````\nhas a ```` four-backtick run\nand ``` three\n`````\n"
    ));

    assert!(markdown.contains("## File 4: utf16le_bom.txt\n\n```\nhi\n```\n"));
}

#[test]
fn export_disambiguates_collisions_with_toc_links() {
    let files = vec![
        "/tmp/t/alpha/config.json".to_string(),
        "/tmp/t/beta/config.json".to_string(),
        "/tmp/t/readme.txt".to_string(),
    ];
    let observations = vec![text("{\"a\":1}\n"), text("{\"b\":2}\n"), text("hello\n")];
    let settings = ProjectSettings {
        toc_links: true,
        path_presentation: PathPresentation::Smart,
        ..Default::default()
    };
    let (markdown, problems) = generate_bundle(
        &files,
        &settings,
        None,
        "/tmp/out.md",
        Limits::default(),
        &observations,
    );

    assert!(problems.is_empty());
    assert!(markdown.contains("- [alpha/config.json](#file-1-alphaconfigjson)\n"));
    assert!(markdown.contains("- [beta/config.json](#file-2-betaconfigjson)\n"));
    assert!(markdown.contains("- [readme.txt](#file-3-readmetxt)\n"));
    assert!(markdown.contains("## File 1: alpha/config.json\n"));
    assert!(markdown.contains("## File 2: beta/config.json\n"));
}

#[test]
fn export_can_include_line_ranges_in_toc_and_headings() {
    let files = vec!["/tmp/t/a.txt".to_string(), "/tmp/t/b.txt".to_string()];
    let observations = vec![text("one\n"), text("two\nthree")];
    let settings = ProjectSettings {
        include_line_ranges_in_headings: true,
        ..Default::default()
    };
    let (markdown, problems) = generate_bundle(
        &files,
        &settings,
        None,
        "/tmp/out.md",
        Limits::default(),
        &observations,
    );

    assert!(problems.is_empty());
    assert!(markdown.contains("- a.txt -- (lines 9 through 13)\n"));
    assert!(markdown.contains("- b.txt -- (lines 15 through 20)\n"));
    assert!(markdown.contains("## File 1: a.txt -- (lines 9 through 13)\n"));
    assert!(markdown.contains("## File 2: b.txt -- (lines 15 through 20)\n"));

    let lines: Vec<_> = markdown.lines().collect();
    assert_eq!(lines[8], "## File 1: a.txt -- (lines 9 through 13)");
    assert_eq!(lines[12], "```");
    assert_eq!(lines[14], "## File 2: b.txt -- (lines 15 through 20)");
    assert_eq!(lines[19], "```");
}

#[test]
fn export_enforces_size_limits() {
    let files = vec![
        "/tmp/t/a.txt".to_string(),
        "/tmp/t/big.txt".to_string(),
        "/tmp/t/b.txt".to_string(),
        "/tmp/t/c.txt".to_string(),
    ];
    let big = "x".repeat(50);
    let observations = vec![
        text("0123456789\n"),
        text(&big),
        text("0123456789\n"),
        text("0123456789\n"),
    ];
    let limits = Limits {
        max_file_bytes: 40,
        max_total_bytes: 25,
    };
    let (markdown, problems) = generate_bundle(
        &files,
        &ProjectSettings::default(),
        None,
        "/tmp/out.md",
        limits,
        &observations,
    );

    let reasons: Vec<_> = problems
        .iter()
        .map(|p| (file_name(&p.path), p.reason.as_str()))
        .collect();
    assert_eq!(
        reasons,
        [
            ("big.txt", "exceeds the maximum file size (40 B)"),
            (
                "c.txt",
                "would push the bundle over the maximum total size (25 B)"
            ),
        ]
    );

    assert!(markdown.contains("File 1: a.txt"));
    assert!(markdown.contains("File 2: b.txt"));
    assert!(!markdown.contains("big.txt"));
    assert!(!markdown.contains("c.txt"));
}

#[test]
fn export_can_omit_description() {
    let files = vec![fixture("plain.txt")];
    let settings = ProjectSettings {
        description: "Hidden description".into(),
        include_description_in_export: false,
        ..Default::default()
    };
    let (markdown, problems) = generate_bundle(
        &files,
        &settings,
        None,
        "/tmp/out.md",
        Limits::default(),
        &[text("plain text\n")],
    );

    assert!(problems.is_empty());
    assert!(markdown.starts_with("# out\n\n\n## Table of Contents\n"));
    assert!(!markdown.contains("Hidden description"));
}

#[test]
fn export_limits_are_reported_in_round_units() {
    let files = vec!["/x/big.txt".to_string()];
    let limits = Limits {
        max_file_bytes: 3_000_000_000,
        max_total_bytes: 1_500,
    };
    let (_, problems) = generate_bundle(
        &files,
        &ProjectSettings::default(),
        None,
        "/tmp/out.md",
        limits,
        &[ExportObservation { size: 2_000, read: Ok(FileContent::Text("x".into())) }],
    );
    assert_eq!(problems[0].reason, "would push the bundle over the maximum total size (1 KB)");
}

#[test]
fn export_title_prefers_project_file_stem() {
    let files = vec!["/p/src/a.rs".to_string()];
    let (markdown, _) = generate_bundle(
        &files,
        &ProjectSettings::default(),
        Some("/p/Demo.bmd"),
        "/tmp/out.md",
        Limits::default(),
        &[text("fn a() {}\n")],
    );
    assert!(markdown.starts_with("# Demo\n"));
    assert!(markdown.contains("- src/a.rs\n"));
}

#[test]
fn stepwise_export_matches_generate_bundle() {
    let files = vec!["/w/a.txt".to_string(), "/w/big.txt".to_string(), "/w/b.txt".to_string()];
    let limits = Limits { max_file_bytes: 20, max_total_bytes: 100 };
    let observations = vec![text("one\n"), text(&"x".repeat(30)), text("two\n")];
    let settings = ProjectSettings::default();
    let (expected, expected_problems) =
        generate_bundle(&files, &settings, None, "/tmp/out.md", limits, &observations);

    let mut export = BundleExport::new(limits, settings.add_detected_language_tag_to_code_fences);
    let displays = ["a.txt", "big.txt", "b.txt"];
    for ((path, display), ob) in files.iter().zip(displays).zip(&observations) {
        assert_eq!(export.may_read(ob.size), ob.size <= 20);
        let read = if export.may_read(ob.size) {
            match &ob.read {
                Ok(FileContent::Text(t)) => Ok(FileContent::Text(t.clone())),
                Ok(FileContent::Binary) => Ok(FileContent::Binary),
                Err(e) => Err(e.clone()),
            }
        } else {
            Err(String::new())
        };
        export.record(path, &display.to_string(), ob.size, read);
    }
    let (markdown, problems) = export.finish("out", &settings);
    assert_eq!(markdown, expected);
    assert_eq!(problems, expected_problems);
}

#[test]
fn bundle_fits_ordinary_exports() {
    let files = vec![BundleFile {
        display: "a.txt".to_string(),
        fence_tag: None,
        content: "one\ntwo\n".to_string(),
        include_code_fence: true,
        include_in_toc: true,
        header: BundleHeader::Filename,
    }];
    let with_ranges = ProjectSettings { include_line_ranges_in_headings: true, ..Default::default() };
    assert!(bundle_fits(&with_ranges, &files));
    assert!(bundle_fits(&ProjectSettings::default(), &files));
    assert!(bundle_fits(&with_ranges, &Vec::new()));
}

#[test]
fn export_tags_fences_with_the_detected_language() {
    let files = vec!["/w/src/main.rs".to_string(), "/w/notes.txt".to_string(), "/w/cfg.json".to_string()];
    let observations = vec![text("fn main() {}\n"), text("plain\n"), text("{\"ok\": true}\n")];
    let (markdown, problems) = generate_bundle(
        &files,
        &ProjectSettings::default(),
        None,
        "/tmp/out.md",
        Limits::default(),
        &observations,
    );
    assert!(problems.is_empty());
    assert!(markdown.contains("```rust\nfn main() {}\n```\n"));
    assert!(markdown.contains("```\nplain\n```\n"));
    assert!(markdown.contains("```json\n{\"ok\": true}\n```\n"));
}

#[test]
fn export_leaves_fences_bare_when_tagging_is_off() {
    let files = vec!["/w/src/main.rs".to_string()];
    let settings = ProjectSettings {
        add_detected_language_tag_to_code_fences: false,
        ..Default::default()
    };
    let (markdown, _) = generate_bundle(
        &files,
        &settings,
        None,
        "/tmp/out.md",
        Limits::default(),
        &[text("fn main() {}\n")],
    );
    assert!(markdown.contains("```\nfn main() {}\n```\n"));
    assert!(!markdown.contains("```rust"));
}

#[test]
fn export_leaves_markdown_fences_bare() {
    let files = vec!["/w/README.md".to_string()];
    let (markdown, _) = generate_bundle(
        &files,
        &ProjectSettings::default(),
        None,
        "/tmp/out.md",
        Limits::default(),
        &[text("# Hi\n")],
    );
    assert!(markdown.contains("```\n# Hi\n```\n"));
}

#[test]
fn problems_hold_a_bundle_back_unless_allowed() {
    let problems = vec![Problem { path: "/w/x.bin".to_string(), reason: "binary file (contains NUL bytes)".to_string() }];
    assert!(!may_write(&problems, false));
    assert!(may_write(&problems, true));
    assert!(may_write(&Vec::new(), false));
    let held = clipboard_result("# B\n".to_string(), problems.clone(), false);
    assert_eq!(held.markdown, "");
    assert_eq!(held.problems, problems);
    let given = clipboard_result("# B\n".to_string(), problems.clone(), true);
    assert_eq!(given.markdown, "# B\n");
    assert_eq!(clipboard_result("# B\n".to_string(), Vec::new(), false).markdown, "# B\n");
}
