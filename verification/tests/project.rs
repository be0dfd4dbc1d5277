use bundlermd::project::{
    effective_title, project_dir, resolve_stored, stored_path, NewlineSetting, ProjectSettings,
    SCHEMA_URL, ProjectFile,
};
use bundlermd::bundle::Newline;

#[test]
fn stored_path_relativizes_under_project_dir() {
    let dir = "/proj";
    assert_eq!(stored_path("/proj/a.txt", dir), "a.txt");
    assert_eq!(stored_path("/proj/src/main.rs", dir), "src/main.rs");
    assert_eq!(stored_path("/elsewhere/x.txt", dir), "/elsewhere/x.txt");
    assert_eq!(stored_path("/project-x/y.txt", dir), "/project-x/y.txt");
}

#[test]
fn resolve_stored_round_trip() {
    let dir = "/proj";
    for abs in ["/proj/a.txt", "/proj/src/main.rs", "/elsewhere/x.txt"] {
        let stored = stored_path(abs, dir);
        assert_eq!(resolve_stored(&stored, dir), abs);
    }
}

#[test]
fn effective_title_fallbacks() {
    let out = "/tmp/Out File.md";
    let proj = "/p/My Proj.bmd";
    assert_eq!(effective_title(Some(proj), out), "My Proj");
    assert_eq!(effective_title(None, out), "Out File");
    assert_eq!(effective_title(None, "/"), "Bundle");
}

#[test]
fn effective_title_keeps_dotfile_names_whole() {
    assert_eq!(effective_title(None, "/tmp/.hidden"), ".hidden");
    assert_eq!(effective_title(None, "/tmp/archive.tar.gz"), "archive.tar");
}

#[test]
fn project_dir_is_parent_of_project_file() {
    assert_eq!(project_dir(Some("/p/x.bmd")), Some("/p".to_string()));
    assert_eq!(project_dir(Some("/x.bmd")), Some("/".to_string()));
    assert_eq!(project_dir(None), None);
}

#[test]
fn stored_path_with_empty_project_dir_keeps_path() {
    assert_eq!(stored_path("/a/b.txt", ""), "/a/b.txt");
}

#[test]
fn newline_setting_resolves() {
    assert_eq!(NewlineSetting::Unix.resolve(), Newline::Unix);
    assert_eq!(NewlineSetting::Windows.resolve(), Newline::Windows);
    assert_eq!(NewlineSetting::Platform.resolve_for('\\'), Newline::Windows);
    assert_eq!(NewlineSetting::Platform.resolve_for('/'), Newline::Unix);
}

#[test]
fn new_project_file_names_current_schema() {
    let pf = ProjectFile::new(vec![], None, ProjectSettings::default());
    assert_eq!(pf.schema, SCHEMA_URL);
    assert!(pf.settings.add_detected_language_tag_to_code_fences);
}
