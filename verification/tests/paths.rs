use tuxedo_md::path::{extension, file_name, join, parent};

fn s(x: &str) -> Option<String> {
    Some(x.to_string())
}

#[test]
fn file_name_follows_path_components() {
    assert_eq!(file_name("a/b.md"), s("b.md"));
    assert_eq!(file_name("a/b/"), s("b"));
    assert_eq!(file_name("a/b/."), s("b"));
    assert_eq!(file_name("a//b"), s("b"));
    assert_eq!(file_name("./a"), s("a"));
    assert_eq!(file_name("b"), s("b"));
    assert_eq!(file_name(".hidden"), s(".hidden"));
    assert_eq!(file_name("/"), None);
    assert_eq!(file_name(""), None);
    assert_eq!(file_name("."), None);
    assert_eq!(file_name("a/.."), None);
}

#[test]
fn extension_is_text_after_last_dot() {
    assert_eq!(extension("a.tar.gz"), s("gz"));
    assert_eq!(extension("a."), s(""));
    assert_eq!(extension("..md"), s("md"));
    assert_eq!(extension(".bashrc"), None);
    assert_eq!(extension("plain"), None);
    assert_eq!(extension(".."), None);
}

#[test]
fn parent_drops_the_last_component() {
    assert_eq!(parent("a/b"), s("a"));
    assert_eq!(parent("a/b/"), s("a"));
    assert_eq!(parent("a//b"), s("a"));
    assert_eq!(parent("a/./b"), s("a"));
    assert_eq!(parent("/a"), s("/"));
    assert_eq!(parent("./a"), s("."));
    assert_eq!(parent("b"), s(""));
    assert_eq!(parent("."), s(""));
    assert_eq!(parent(".."), s(""));
    assert_eq!(parent("/"), None);
    assert_eq!(parent(""), None);
}

#[test]
fn join_adds_one_separator() {
    assert_eq!(join("a", "b"), "a/b");
    assert_eq!(join("a/", "b"), "a/b");
    assert_eq!(join("", "b"), "b");
    assert_eq!(join("a", "/b"), "/b");
    assert_eq!(join("a", ""), "a/");
}

#[test]
fn joined_name_is_file_name_and_base_is_parent() {
    for base in ["dir", "dir/", "/", "", "."] {
        let joined = join(base, "x.md");
        assert_eq!(file_name(&joined), s("x.md"));
    }
    assert_eq!(parent(&join("dir/", "x.md")), s("dir"));
    assert_eq!(parent(&join("", "x.md")), s(""));
}
