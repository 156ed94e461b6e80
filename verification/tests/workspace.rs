use tuxedo_md::path::{file_name, join};
use tuxedo_md::error::AppError;
use tuxedo_md::workspace::{scan_workspace, WalkEntry, WalkEvent, WorkspaceScan, MAX_WORKSPACE_FILES};

fn entry(depth: usize, name: &str, is_file: bool) -> WalkEvent {
    WalkEvent::Entry(WalkEntry { depth, name: name.to_string(), is_file })
}

fn listed(root: &str, events: Vec<WalkEvent>) -> Vec<(String, String, String)> {
    scan_workspace(root, true, events)
        .unwrap()
        .into_iter()
        .map(|e| (e.path, e.relative_path, e.name))
        .collect()
}

fn t(a: &str, b: &str, c: &str) -> (String, String, String) {
    (a.to_string(), b.to_string(), c.to_string())
}

#[test]
fn scan_rebuilds_paths_and_sorts_case_insensitively() {
    let res = listed(
        "/ws",
        vec![
            entry(0, "ws", false),
            entry(1, "zeta.md", true),
            entry(1, "docs", false),
            entry(2, "Intro.md", true),
            entry(2, "img.png", true),
            entry(2, "deep", false),
            entry(3, "b.markdown", true),
            entry(1, "Alpha.MD", true),
        ],
    );
    assert_eq!(
        res,
        vec![
            t("/ws/Alpha.MD", "Alpha.MD", "Alpha.MD"),
            t("/ws/docs/deep/b.markdown", "docs/deep/b.markdown", "b.markdown"),
            t("/ws/docs/Intro.md", "docs/Intro.md", "Intro.md"),
            t("/ws/zeta.md", "zeta.md", "zeta.md"),
        ]
    );
}

#[test]
fn equal_keys_keep_walk_order() {
    let res = listed(
        "ws/",
        vec![entry(0, "ws", false), entry(1, "b.md", true), entry(1, "B.md", true), entry(1, "a.md", true)],
    );
    assert_eq!(
        res,
        vec![t("ws/a.md", "a.md", "a.md"), t("ws/b.md", "b.md", "b.md"), t("ws/B.md", "B.md", "B.md")]
    );
}

#[test]
fn directories_and_other_files_are_not_listed() {
    let res = listed(
        "/ws",
        vec![entry(0, "ws", false), entry(1, "notes.md", false), entry(1, "x.txt", true)],
    );
    assert!(res.is_empty());
}

#[test]
fn a_root_that_is_not_a_folder_is_refused() {
    assert_eq!(scan_workspace("/ws", false, vec![]), Err(AppError::NotADirectory));
}

#[test]
fn a_walk_failure_ends_the_scan() {
    let res = scan_workspace(
        "/ws",
        true,
        vec![entry(0, "ws", false), entry(1, "a.md", true), WalkEvent::Failure("denied".to_string())],
    );
    assert_eq!(res, Err(AppError::Walk("denied".to_string())));
}

#[test]
fn more_than_twenty_thousand_documents_are_refused() {
    assert_eq!(MAX_WORKSPACE_FILES, 20_000);
    let mut scan = WorkspaceScan::new("/ws");
    assert_eq!(scan.visit(entry(0, "ws", false)), Ok(()));
    for i in 0..MAX_WORKSPACE_FILES {
        assert_eq!(scan.visit(entry(1, &format!("n{i}.md"), true)), Ok(()));
    }
    assert_eq!(scan.visit(entry(1, "extra.png", true)), Ok(()));
    assert_eq!(scan.visit(entry(1, "extra.md", true)), Err(AppError::WorkspaceTooLarge));
}

#[test]
fn exactly_twenty_thousand_documents_are_listed() {
    let mut events = vec![entry(0, "ws", false)];
    for i in 0..MAX_WORKSPACE_FILES {
        events.push(entry(1, &format!("n{i:05}.md"), true));
    }
    let res = scan_workspace("/ws", true, events).unwrap();
    assert_eq!(res.len(), MAX_WORKSPACE_FILES);
    assert_eq!(res[0].relative_path, "n00000.md");
}

#[test]
fn a_scan_starts_only_at_a_folder() {
    assert!(matches!(WorkspaceScan::start("/ws", false), Err(AppError::NotADirectory)));
    let mut scan = match WorkspaceScan::start("/ws", true) {
        Ok(scan) => scan,
        Err(_) => panic!("a folder root starts a scan"),
    };
    assert_eq!(scan.visit(entry(0, "ws", false)), Ok(()));
    assert_eq!(scan.visit(entry(1, "a.md", true)), Ok(()));
    let found = scan.finish();
    assert_eq!(found.len(), 1);
    assert_eq!(found[0].path, "/ws/a.md");
}

#[test]
fn listed_paths_are_root_joined_with_relative_paths() {
    for root in ["/ws", "ws/", "."] {
        let res = scan_workspace(
            root,
            true,
            vec![entry(0, "ws", false), entry(1, "d", false), entry(2, "n.md", true), entry(1, "m.md", true)],
        )
        .unwrap();
        assert_eq!(res.len(), 2);
        for e in res {
            assert_eq!(e.path, join(root, &e.relative_path));
            assert_eq!(file_name(&e.path), Some(e.name.clone()));
        }
    }
}
