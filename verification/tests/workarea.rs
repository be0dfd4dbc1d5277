//! The workarea: screening files, reordering, saving and reopening,
//! per-window projects and queued open requests.

use bundlermd::project::{PathPresentation, ProjectFile, ProjectFileEntry, ProjectSettings};
use bundlermd::reading::FileContent;
use bundlermd::state::{
    needs_reading, open_project_path_from_arg, open_project_path_from_url_path,
    open_project_paths_from_args, open_project_paths_from_urls, ImportProbe, Limits,
    MoveOp, PendingOpenProjects, Project, Workareas,
};

fn text(content: &str) -> ImportProbe {
    ImportProbe {
        size: Some(content.len() as u64),
        read: Ok(FileContent::Text(content.to_string())),
    }
}

fn strings(list: &[&str]) -> Vec<String> {
    list.iter().map(|s| s.to_string()).collect()
}

fn project_with(files: &[&str]) -> Project {
    let mut p = Project::new(ProjectSettings::default());
    let probes: Vec<ImportProbe> = files.iter().map(|_| text("x\n")).collect();
    let skipped = p.screen_and_add(strings(files), &[], &probes, Limits::default());
    assert!(skipped.is_empty());
    p
}

#[test]
fn screen_and_add_skips_binary_unreadable_and_duplicates() {
    let mut p = Project::new(ProjectSettings::default());
    let paths = strings(&["/w/a.txt", "/w/bin.dat", "/w/gone.txt", "/w/./a.txt", "/w/b.txt"]);
    let probes = vec![
        text("alpha\n"),
        ImportProbe { size: Some(4), read: Ok(FileContent::Binary) },
        ImportProbe { size: None, read: Err("No such file or directory (os error 2)".to_string()) },
        text("alpha\n"),
        text("beta\n"),
    ];
    let skipped = p.screen_and_add(paths, &[], &probes, Limits::default());
    assert_eq!(p.files(), &strings(&["/w/a.txt", "/w/b.txt"]));
    let reasons: Vec<(&str, &str)> =
        skipped.iter().map(|s| (s.path.as_str(), s.reason.as_str())).collect();
    assert_eq!(
        reasons,
        [("/w/bin.dat", "Binary File"), ("/w/gone.txt", "No such file or directory (os error 2)")]
    );
    assert!(p.is_dirty());
}

#[test]
fn screen_and_add_counts_existing_files_toward_the_total() {
    let mut p = project_with(&["/w/a.txt"]);
    let limits = Limits { max_file_bytes: 40, max_total_bytes: 25 };
    let skipped = p.screen_and_add(
        strings(&["/w/big.txt", "/w/b.txt", "/w/c.txt"]),
        &[Some(11)],
        &[text(&"x".repeat(50)), text("0123456789\n"), text("0123456789\n")],
        limits,
    );
    assert_eq!(p.files(), &strings(&["/w/a.txt", "/w/b.txt"]));
    let reasons: Vec<&str> = skipped.iter().map(|s| s.reason.as_str()).collect();
    assert_eq!(
        reasons,
        [
            "exceeds the maximum file size (40 B)",
            "would push the bundle over the maximum total size (25 B)"
        ]
    );
}

#[test]
fn adding_only_present_files_leaves_project_clean() {
    let mut p = Project::new(ProjectSettings::default());
    let skipped = p.screen_and_add(strings(&[]), &[], &[], Limits::default());
    assert!(skipped.is_empty());
    assert!(!p.is_dirty());
}

#[test]
fn oversized_files_need_no_reading() {
    let limits = Limits { max_file_bytes: 10, max_total_bytes: 20 };
    assert!(needs_reading(Some(10), limits));
    assert!(!needs_reading(Some(11), limits));
    assert!(needs_reading(None, limits));
}

#[test]
fn preview_marks_present_and_refused_files() {
    let p = project_with(&["/w/a.txt"]);
    let preview = p.preview(
        &strings(&["/w/a.txt", "/w/b.txt", "/w/c.bin"]),
        &[Some(2)],
        &[text("x\n"), text("b\n"), ImportProbe { size: Some(3), read: Ok(FileContent::Binary) }],
        Limits::default(),
    );
    let notes: Vec<(&str, bool, &str)> =
        preview.iter().map(|f| (f.path.as_str(), f.importable, f.note.as_str())).collect();
    assert_eq!(
        notes,
        [
            ("/w/a.txt", false, "Already Added"),
            ("/w/b.txt", true, ""),
            ("/w/c.bin", false, "Binary File")
        ]
    );
}

#[test]
fn remove_file_drops_same_path_and_marks_dirty() {
    let mut p = project_with(&["/w/a.txt", "/w/b.txt"]);
    let (saved, _) = p.save_plan(Some("/w/p.bmd".to_string())).unwrap();
    p.mark_saved(saved);
    p.remove_file("/w//a.txt");
    assert_eq!(p.files(), &strings(&["/w/b.txt"]));
    assert!(p.is_dirty());
    p.mark_saved("/w/p.bmd".to_string());
    p.remove_file("/w/zzz.txt");
    assert!(!p.is_dirty());
}

#[test]
fn move_file_up_down_top_bottom() {
    let mut p = project_with(&["/a", "/b", "/c", "/d"]);
    p.move_file("/c", MoveOp::Up);
    assert_eq!(p.files(), &strings(&["/a", "/c", "/b", "/d"]));
    p.move_file("/a", MoveOp::Down);
    assert_eq!(p.files(), &strings(&["/c", "/a", "/b", "/d"]));
    p.move_file("/d", MoveOp::Top);
    assert_eq!(p.files(), &strings(&["/d", "/c", "/a", "/b"]));
    p.move_file("/c", MoveOp::Bottom);
    assert_eq!(p.files(), &strings(&["/d", "/a", "/b", "/c"]));
}

#[test]
fn move_file_at_the_edge_changes_nothing() {
    let mut p = project_with(&["/a", "/b"]);
    p.mark_saved("/p.bmd".to_string());
    p.move_file("/a", MoveOp::Up);
    p.move_file("/a", MoveOp::Top);
    p.move_file("/b", MoveOp::Down);
    p.move_file("/b", MoveOp::Bottom);
    p.move_file("/nope", MoveOp::Top);
    assert_eq!(p.files(), &strings(&["/a", "/b"]));
    assert!(!p.is_dirty());
}

#[test]
fn set_order_accepts_permutations_only() {
    let mut p = project_with(&["/a", "/b", "/c"]);
    p.mark_saved("/p.bmd".to_string());
    assert_eq!(
        p.set_order(strings(&["/a", "/b"])),
        Err("reorder does not match current file set".to_string())
    );
    assert_eq!(
        p.set_order(strings(&["/a", "/b", "/b"])),
        Err("reorder does not match current file set".to_string())
    );
    assert!(!p.is_dirty());
    assert_eq!(p.set_order(strings(&["/a", "/b/", "/c"])), Ok(()));
    assert_eq!(p.files(), &strings(&["/a", "/b", "/c"]));
    assert!(!p.is_dirty());
    assert_eq!(p.set_order(strings(&["/c", "/a", "/b"])), Ok(()));
    assert_eq!(p.files(), &strings(&["/c", "/a", "/b"]));
    assert!(p.is_dirty());
}

#[test]
fn update_settings_marks_dirty_only_on_change() {
    let mut p = Project::new(ProjectSettings::default());
    p.update_settings(ProjectSettings::default());
    assert!(!p.is_dirty());
    p.update_settings(ProjectSettings { toc_links: true, ..Default::default() });
    assert!(p.is_dirty());
    assert!(p.settings().toc_links);
}

#[test]
fn record_export_marks_dirty_for_a_new_target() {
    let mut p = Project::new(ProjectSettings::default());
    p.record_export("/out/b.md");
    assert_eq!(p.last_export(), Some("/out/b.md"));
    assert!(p.is_dirty());
    p.mark_saved("/p.bmd".to_string());
    p.record_export("/out//b.md");
    assert!(!p.is_dirty());
    assert_eq!(p.last_export(), Some("/out/b.md"));
}

#[test]
fn save_without_a_path_needs_save_as() {
    let p = Project::new(ProjectSettings::default());
    assert_eq!(
        p.save_plan(None).err(),
        Some("no project file path; use Save As".to_string())
    );
}

#[test]
fn save_stores_smart_paths_relative_and_open_resolves_them() {
    let mut p = project_with(&["/proj/a.txt", "/proj/src/main.rs", "/elsewhere/x.txt"]);
    p.record_export("/proj/out.md");
    let (target, file) = p.save_plan(Some("/proj/demo.bmd".to_string())).unwrap();
    assert_eq!(target, "/proj/demo.bmd");
    let stored: Vec<&str> = file.files.iter().map(|e| e.path.as_str()).collect();
    assert_eq!(stored, ["a.txt", "src/main.rs", "/elsewhere/x.txt"]);
    assert_eq!(file.last_export.as_deref(), Some("/proj/out.md"));
    let reopened = Project::opened(file, target.clone());
    assert_eq!(reopened.files(), p.files());
    assert_eq!(reopened.project_path(), Some("/proj/demo.bmd"));
    assert!(!reopened.is_dirty());
}

#[test]
fn save_in_absolute_mode_keeps_paths() {
    let mut p = project_with(&["/proj/a.txt"]);
    p.update_settings(ProjectSettings {
        path_presentation: PathPresentation::Absolute,
        ..Default::default()
    });
    let (_, file) = p.save_plan(Some("/proj/demo.bmd".to_string())).unwrap();
    assert_eq!(file.files[0].path, "/proj/a.txt");
}

#[test]
fn opened_keeps_absolute_entries() {
    let file = ProjectFile::new(
        vec![
            ProjectFileEntry { path: "/abs/x.txt".to_string(), options: Default::default() },
            ProjectFileEntry { path: "rel/y.txt".to_string(), options: Default::default() },
        ],
        None,
        ProjectSettings::default(),
    );
    let p = Project::opened(file, "/proj/p.bmd".to_string());
    assert_eq!(p.files(), &strings(&["/abs/x.txt", "/proj/rel/y.txt"]));
}

#[test]
fn project_view_lists_rows() {
    let p = project_with(&["/w/docs/a.txt"]);
    let view = p.project_view(&[Some(6)]);
    assert_eq!(view.files.len(), 1);
    assert_eq!(view.files[0].path, "/w/docs/a.txt");
    assert_eq!(view.files[0].name, "a.txt");
    assert_eq!(view.files[0].folder, "/w/docs");
    assert_eq!(view.files[0].size, Some(6));
    assert!(view.dirty);
    assert_eq!(view.project_path, None);
}

#[test]
fn workareas_keep_one_project_per_window() {
    let mut w = Workareas::new();
    assert!(!w.is_dirty("main"));
    let mut p = w.take("main", ProjectSettings::default());
    p.record_export("/out.md");
    w.put("main".to_string(), p);
    assert!(w.is_dirty("main"));
    assert!(!w.is_dirty("other"));
    let mut q = w.take("other", ProjectSettings::default());
    q.mark_saved("/proj/p.bmd".to_string());
    w.put("other".to_string(), q);
    assert_eq!(w.holder_of("main", "/proj//p.bmd"), Some("other".to_string()));
    assert_eq!(w.holder_of("other", "/proj/p.bmd"), None);
    w.remove("main");
    assert!(!w.is_dirty("main"));
    let fresh = w.take("main", ProjectSettings { toc_links: true, ..Default::default() });
    assert!(fresh.settings().toc_links);
    assert!(fresh.files().is_empty());
}

#[test]
fn pending_open_projects_drain_in_order() {
    let mut q = PendingOpenProjects::new();
    q.push(strings(&["/a.bmd"]));
    q.push(Vec::new());
    q.push(strings(&["/b.bmd", "/c.bmd"]));
    assert_eq!(q.take(), strings(&["/a.bmd", "/b.bmd", "/c.bmd"]));
    assert!(q.take().is_empty());
}

#[test]
fn open_project_args_keep_only_bmd_paths() {
    let args = strings(&["--flag", "note.txt", "Demo.BMD"]);
    assert_eq!(open_project_paths_from_args(&args, "/work"), strings(&["/work/Demo.BMD"]));
}

#[test]
fn open_project_args_accept_file_urls() {
    let args = strings(&["file:///tmp/url.bmd", "file:///tmp/x.txt", "/abs/p.bmd"]);
    assert_eq!(
        open_project_paths_from_args(&args, "/work"),
        strings(&["/tmp/url.bmd", "/abs/p.bmd"])
    );
}

#[test]
fn open_project_path_from_arg_prefers_the_url_path() {
    assert_eq!(
        open_project_path_from_arg("file:///x/p.bmd", Some("/x/p.bmd".to_string()), "/w"),
        Some("/x/p.bmd".to_string())
    );
    assert_eq!(open_project_path_from_arg("sub/p.bmd", None, "/w"), Some("/w/sub/p.bmd".to_string()));
    assert_eq!(open_project_path_from_arg("sub/p.txt", None, "/w"), None);
}

#[test]
fn saving_onto_a_project_open_in_another_window_is_refused() {
    let mut w = Workareas::new();
    let mut q = w.take("other", ProjectSettings::default());
    q.mark_saved("/proj/p.bmd".to_string());
    w.put("other".to_string(), q);

    let mine = project_with(&["/w/a.txt"]);
    assert_eq!(
        w.save_plan("main", &mine, Some("/proj//p.bmd".to_string())).err(),
        Some("that project file is already open in another window".to_string())
    );
    let (target, file) = w.save_plan("main", &mine, Some("/proj/q.bmd".to_string())).unwrap();
    assert_eq!(target, "/proj/q.bmd");
    assert_eq!(file.files.len(), 1);
    assert_eq!(
        w.save_plan("main", &mine, None).err(),
        Some("no project file path; use Save As".to_string())
    );

    // The window that holds the file may save over it.
    let theirs = w.take("other", ProjectSettings::default());
    let (target, _) = w.save_plan("other", &theirs, None).unwrap();
    assert_eq!(target, "/proj/p.bmd");
}

#[test]
fn open_project_urls_keep_absolute_bmd_file_paths() {
    let urls = strings(&["file:///tmp/url.bmd", "file:///tmp/x.txt", "https://example.com/a.bmd", "a.bmd"]);
    assert_eq!(open_project_paths_from_urls(&urls), strings(&["/tmp/url.bmd"]));
    assert!(open_project_paths_from_urls(&[]).is_empty());
}

#[test]
fn open_project_path_from_url_path_needs_an_absolute_bmd_path() {
    assert_eq!(open_project_path_from_url_path(Some("/a/B.Bmd".to_string())), Some("/a/B.Bmd".to_string()));
    assert_eq!(open_project_path_from_url_path(Some("a.bmd".to_string())), None);
    assert_eq!(open_project_path_from_url_path(Some("/a/b.md".to_string())), None);
    assert_eq!(open_project_path_from_url_path(None), None);
}
