use tuxedo_md::markdown::{is_markdown, markdown_paths, should_visit, LaunchArgument};

#[test]
fn recognizes_markdown_extensions_case_insensitively() {
    assert!(is_markdown("notes/README.MD"));
    assert!(is_markdown("notes/page.markdown"));
    assert!(!is_markdown("notes/image.png"));
}

#[test]
fn accepts_every_markdown_extension() {
    assert!(is_markdown("a.md"));
    assert!(is_markdown("a.markdown"));
    assert!(is_markdown("a.mdown"));
    assert!(is_markdown("a.mkd"));
    assert!(is_markdown("a.MkD"));
    assert!(is_markdown("/abs/path/Notes.MarkDown"));
}

#[test]
fn rejects_names_without_markdown_extension() {
    assert!(!is_markdown(""));
    assert!(!is_markdown("md"));
    assert!(!is_markdown(".md"));
    assert!(!is_markdown("notes/.md"));
    assert!(!is_markdown("a.md.txt"));
    assert!(!is_markdown("a.mdx"));
    assert!(!is_markdown("a."));
    assert!(!is_markdown("/"));
    assert!(!is_markdown("a/.."));
}

#[test]
fn judges_the_last_component_after_trimming() {
    assert!(is_markdown("notes/page.md/"));
    assert!(is_markdown("notes/page.md/."));
    assert!(is_markdown("..md"));
    assert!(!is_markdown("page.md/.."));
}

#[test]
fn case_changes_do_not_change_the_verdict() {
    for (a, b) in [("Notes/README.md", "notes/readme.MD"), ("x.PNG", "X.png")] {
        assert_eq!(is_markdown(a), is_markdown(b));
    }
}

#[test]
fn root_is_always_visited() {
    assert!(should_visit(0, true, ".hidden"));
    assert!(should_visit(0, true, "node_modules"));
}

#[test]
fn hidden_and_build_directories_are_pruned() {
    assert!(!should_visit(1, true, ".git"));
    assert!(!should_visit(2, true, "node_modules"));
    assert!(!should_visit(1, true, "target"));
    assert!(!should_visit(1, true, "dist"));
    assert!(!should_visit(3, true, "build"));
    assert!(should_visit(1, true, "docs"));
    assert!(should_visit(1, true, "Target"));
}

#[test]
fn files_are_always_visited() {
    assert!(should_visit(1, false, ".hidden.md"));
    assert!(should_visit(1, false, "build"));
}

fn arg(path: &str, is_file: bool) -> LaunchArgument {
    LaunchArgument { path: path.to_string(), is_file }
}

#[test]
fn launch_arguments_keep_markdown_files_in_order() {
    let res = markdown_paths(vec![
        arg("--flag", false),
        arg("b.md", true),
        arg("dir.md", false),
        arg("image.png", true),
        arg("a.MARKDOWN", true),
    ]);
    assert_eq!(res, vec!["b.md".to_string(), "a.MARKDOWN".to_string()]);
}

#[test]
fn no_launch_arguments_give_no_paths() {
    assert!(markdown_paths(vec![]).is_empty());
}

#[test]
fn launch_selection_distributes_over_concatenation_and_is_idempotent() {
    let a = vec![arg("a.md", true), arg("x.png", true)];
    let b = vec![arg("b.mkd", true), arg("c.md", false)];
    let mut both = markdown_paths(vec![arg("a.md", true), arg("x.png", true)]);
    both.extend(markdown_paths(vec![arg("b.mkd", true), arg("c.md", false)]));
    let joined: Vec<LaunchArgument> = a.into_iter().chain(b).collect();
    let once = markdown_paths(joined);
    assert_eq!(once, both);
    let again = markdown_paths(once.iter().map(|p| arg(p, true)).collect());
    assert_eq!(again, once);
}
