use bundlermd::lang::{fence_tag, is_markdown};

#[test]
fn detects_unambiguous_extensions() {
    assert_eq!(fence_tag("src/main.rs", "fn main() {}\n"), Some("rust".into()));
    assert_eq!(
        fence_tag("src/App.tsx", "export function App() { return <main />; }\n"),
        Some("tsx".into())
    );
    assert_eq!(
        fence_tag("config/settings.json", "{\"ok\": true}\n"),
        Some("json".into())
    );
    assert_eq!(
        fence_tag("src/types.ts", "type Message = string;\n"),
        Some("typescript".into())
    );
}

#[test]
fn detects_exact_filenames() {
    assert_eq!(fence_tag("Makefile", "all:\n\tcargo test\n"), Some("makefile".into()));
    assert_eq!(
        fence_tag(".gitignore", "target/\nnode_modules/\n"),
        Some("ignore-list".into())
    );
}

#[test]
fn disambiguates_from_content() {
    assert_eq!(
        fence_tag("include/example.h", "#include <iostream>\nusing namespace std;\n"),
        Some("c++".into())
    );
    assert_eq!(
        fence_tag("notes.txt", "The quick brown fox jumps over the lazy dog.\n"),
        Some("text".into())
    );
}

#[test]
fn leaves_unknown_extensions_untagged() {
    assert_eq!(fence_tag("file.unknownext", "content"), None);
}

#[test]
fn identifies_markdown_sources() {
    assert!(is_markdown("README.md", "# Read me\n"));
    assert!(!is_markdown("notes.txt", "[link](target)\n"));
}

#[test]
fn paths_without_a_file_name_get_no_tag() {
    assert_eq!(fence_tag("/", "x"), None);
    assert_eq!(fence_tag("src/..", "x"), None);
}
