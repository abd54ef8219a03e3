use codebase_doc::paths::{select_paths, should_visit, split_segments};

fn v(s: &str) -> Vec<u8> {
    s.as_bytes().to_vec()
}

#[test]
fn split_segments_breaks_at_slashes() {
    assert_eq!(split_segments(&v("a/b/c")), vec![v("a"), v("b"), v("c")]);
    assert_eq!(split_segments(&v("a.txt")), vec![v("a.txt")]);
}

#[test]
fn vcs_metadata_directory_is_not_visited() {
    let out = v("codebase.md");
    assert!(!should_visit(&v(".git"), None, &out));
    assert!(!should_visit(&v("sub/.git"), None, &out));
    assert!(should_visit(&v(".gitignore"), None, &out));
    assert!(should_visit(&v("git"), None, &out));
}

#[test]
fn output_artifact_is_not_visited() {
    let out = v("codebase.md");
    assert!(!should_visit(&v("codebase.md"), None, &out));
    assert!(!should_visit(&v("whatever"), Some(true), &out));
    assert!(should_visit(&v("codebase.md"), Some(false), &out));
    assert!(should_visit(&v("readme.md"), None, &out));
}

#[test]
fn selection_filters_and_sorts() {
    let all = vec![v("sub/c.txt"), v(".git"), v("codebase.md"), v("a.txt"), v("sub")];
    let out = v("codebase.md");
    let got = select_paths(all, &out);
    assert_eq!(got, vec![v("a.txt"), v("sub"), v("sub/c.txt")]);
}

#[test]
fn selection_with_nothing_excluded_is_the_sorted_input() {
    let all = vec![v("b"), v("a"), v("a/x"), v("c")];
    let out = v("codebase.md");
    let got = select_paths(all, &out);
    assert_eq!(got, vec![v("a"), v("a/x"), v("b"), v("c")]);
}
