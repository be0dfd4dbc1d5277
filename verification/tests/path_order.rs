//! The order folder listings are shown in.

use bundlermd::path_order::sort_paths;

fn strings(list: &[&str]) -> Vec<String> {
    list.iter().map(|s| s.to_string()).collect()
}

#[test]
fn paths_sort_component_by_component() {
    let listed = strings(&["/w/a-b/c.txt", "/w/b.txt", "/w/a/z.txt", "/w/a/b.txt", "/w/A.txt"]);
    assert_eq!(
        sort_paths(&listed),
        strings(&["/w/A.txt", "/w/a/b.txt", "/w/a/z.txt", "/w/a-b/c.txt", "/w/b.txt"])
    );
}

#[test]
fn sorting_matches_std_path_order() {
    let listed = strings(&["/w/x/y", "/w/x", "/w/é", "/w/z", "/w/x.y", "/w//x/a", "/w/."]);
    let mut expected: Vec<std::path::PathBuf> = listed.iter().map(std::path::PathBuf::from).collect();
    expected.sort();
    let sorted = sort_paths(&listed);
    let as_paths: Vec<std::path::PathBuf> = sorted.iter().map(std::path::PathBuf::from).collect();
    assert_eq!(as_paths, expected);
}

#[test]
fn sorting_keeps_every_entry() {
    let listed = strings(&["/b", "/a", "/b"]);
    assert_eq!(sort_paths(&listed), strings(&["/a", "/b", "/b"]));
    assert!(sort_paths(&Vec::new()).is_empty());
}
