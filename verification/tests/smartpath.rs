use bundlermd::project::PathPresentation;
use bundlermd::smartpath::presented_paths;

fn paths(list: &[&str]) -> Vec<String> {
    list.iter().map(|s| s.to_string()).collect()
}

fn smart_with(list: &[&str], proj: Option<&str>) -> Vec<String> {
    presented_paths(&paths(list), &PathPresentation::Smart, proj)
}

#[test]
fn smart_table() {
    // (input paths, project dir, expected)
    let cases: &[(&[&str], Option<&str>, &[&str])] = &[
        (&["/a/one.txt", "/b/two.txt"], None, &["one.txt", "two.txt"]),
        (
            &["/proj/src/main.rs", "/proj/README.md", "/elsewhere/x.txt"],
            Some("/proj"),
            &["src/main.rs", "README.md", "x.txt"],
        ),
        (
            &["/a/x/config.json", "/a/y/config.json"],
            None,
            &["x/config.json", "y/config.json"],
        ),
        (
            &["/one/sub/config.json", "/two/sub/config.json"],
            None,
            &["one/sub/config.json", "two/sub/config.json"],
        ),
        (
            &["/a/conf.json", "/b/conf.json", "/c/other.txt"],
            None,
            &["a/conf.json", "b/conf.json", "other.txt"],
        ),
        (
            &["/deep/er/conf.json", "/conf.json"],
            None,
            &["er/conf.json", "conf.json"],
        ),
        (
            &["/proj/config.json", "/other/config.json"],
            Some("/proj"),
            &["config.json", "config.json"],
        ),
    ];
    for (input, proj, expected) in cases {
        assert_eq!(
            smart_with(input, *proj),
            expected.to_vec(),
            "case: {input:?} proj={proj:?}"
        );
    }
}

#[test]
fn absolute_mode() {
    let got = presented_paths(&paths(&["/a/b.txt"]), &PathPresentation::Absolute, None);
    assert_eq!(got, ["/a/b.txt"]);
}

#[test]
fn fixed_mode_relative_and_updirs() {
    let pres = PathPresentation::Fixed {
        location: "/base/dir".into(),
    };
    let got = presented_paths(
        &paths(&["/base/dir/sub/f.txt", "/base/other/g.txt", "/f2.txt"]),
        &pres,
        None,
    );
    assert_eq!(got, ["sub/f.txt", "../other/g.txt", "../../f2.txt"]);
}

#[test]
fn fixed_mode_same_dir_is_dot_and_relative_paths_climb_out() {
    let pres = PathPresentation::Fixed {
        location: "/base".into(),
    };
    let got = presented_paths(&paths(&["/base", "rel/x.txt"]), &pres, None);
    assert_eq!(got, [".", "../rel/x.txt"]);
}

#[test]
fn smart_three_way_collision_needs_two_segments() {
    let got = smart_with(&["/a/x/c.txt", "/b/x/c.txt", "/d/y/c.txt"], None);
    assert_eq!(got, ["a/x/c.txt", "b/x/c.txt", "d/y/c.txt"]);
}
