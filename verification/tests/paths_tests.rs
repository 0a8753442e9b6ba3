use csprojtool::paths::{
    absolute, file_stem_seg, looks_like_out_of_tree_relative_path, parse_path, path_eq,
    relative_path, starts_with_dir, FsPath,
};

fn p(s: &str) -> FsPath {
    parse_path(s).simplify()
}

fn parts(p: &FsPath) -> Vec<String> {
    p.parts.clone()
}

#[test]
fn parse_splits_on_both_separators() {
    let a = parse_path("a/b\\c");
    assert!(!a.rooted);
    assert_eq!(parts(&a), vec!["a".to_string(), "b".to_string(), "c".to_string()]);
}

#[test]
fn parse_detects_root() {
    assert!(parse_path("/a/b").rooted);
    assert!(!parse_path("a/b").rooted);
    assert!(parse_path("\\a").rooted);
}

#[test]
fn simplify_collapses_dot_and_dotdot() {
    let a = p("/repo/a/./b/../c");
    assert!(a.rooted);
    assert_eq!(parts(&a), vec!["repo".to_string(), "a".to_string(), "c".to_string()]);
}

#[test]
fn simplify_keeps_leading_parent_segments_of_relative_paths() {
    let a = p("../../x");
    assert!(!a.rooted);
    assert_eq!(parts(&a), vec!["..".to_string(), "..".to_string(), "x".to_string()]);
}

#[test]
fn simplify_drops_parent_segments_at_the_root() {
    let a = p("/../x");
    assert!(a.rooted);
    assert_eq!(parts(&a), vec!["x".to_string()]);
}

#[test]
fn render_uses_forward_slashes() {
    assert_eq!(p("/repo\\a/b").render(), "/repo/a/b");
    assert_eq!(p("a/b").render(), "a/b");
}

#[test]
fn relative_path_descendant() {
    let r = relative_path(&p("/repo"), &p("/repo/shared/lib"));
    assert_eq!(r.render(), "shared/lib");
}

#[test]
fn relative_path_sibling_climbs_out() {
    let r = relative_path(&p("/repo/A"), &p("/repo/shared/lib"));
    assert_eq!(r.render(), "../shared/lib");
}

#[test]
fn relative_path_ancestor() {
    let r = relative_path(&p("/repo/a/b"), &p("/repo"));
    assert_eq!(r.render(), "../..");
}

#[test]
fn relative_path_resolves_back() {
    // The rewrite-correctness scenario: old directory /repo/A, new directory
    // /repo/B/A, a value resolving to /repo/shared/lib.
    let old_dir = p("/repo/A");
    let new_dir = p("/repo/B/A");
    let target = absolute(&parse_path("../shared/lib"), &old_dir);
    assert_eq!(target.render(), "/repo/shared/lib");
    let rewritten = relative_path(&new_dir, &target);
    assert_eq!(rewritten.render(), "../../shared/lib");
    let back = absolute(&parse_path(&rewritten.render()), &new_dir);
    assert!(path_eq(&back, &target));
}

#[test]
fn absolute_keeps_rooted_paths() {
    let r = absolute(&parse_path("/x/../y"), &p("/base"));
    assert_eq!(r.render(), "/y");
}

#[test]
fn out_of_tree_heuristic() {
    assert!(looks_like_out_of_tree_relative_path("../x"));
    assert!(looks_like_out_of_tree_relative_path("a/../b"));
    assert!(looks_like_out_of_tree_relative_path("..\\win"));
    assert!(looks_like_out_of_tree_relative_path("foo../bar/"));
    assert!(!looks_like_out_of_tree_relative_path("a/b.txt"));
    assert!(!looks_like_out_of_tree_relative_path("..x"));
    assert!(!looks_like_out_of_tree_relative_path(".."));
}

#[test]
fn file_stem_strips_one_extension() {
    assert_eq!(file_stem_seg(&"Foo.csproj".to_string()), "Foo");
    assert_eq!(file_stem_seg(&"a.b.c".to_string()), "a.b");
    assert_eq!(file_stem_seg(&"noext".to_string()), "noext");
    assert_eq!(file_stem_seg(&".hidden".to_string()), ".hidden");
}

#[test]
fn starts_with_dir_is_component_wise() {
    assert!(starts_with_dir(&p("/repo/A/x.csproj"), &p("/repo/A")));
    assert!(!starts_with_dir(&p("/repo/AB/x.csproj"), &p("/repo/A")));
    assert!(!starts_with_dir(&p("repo/A/x.csproj"), &p("/repo/A")));
}

#[test]
fn dir_of_and_child() {
    let f = p("/repo/A/A.csproj");
    let d = f.dir_of();
    assert_eq!(d.render(), "/repo/A");
    let c = d.child(&"B.csproj".to_string());
    assert_eq!(c.render(), "/repo/A/B.csproj");
}
