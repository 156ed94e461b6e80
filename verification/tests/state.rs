use tuxedo_md::error::{AppError, IoFailure};
use tuxedo_md::path::{file_name_bytes, parent_bytes};
use tuxedo_md::state::{
    is_valid_state_key, replacement_plan, state_delete_result, state_file, state_load_result,
    PendingOpenPaths,
};

#[test]
fn state_keys_are_letters_digits_dashes_and_underscores() {
    assert!(is_valid_state_key("recent-files_2"));
    assert!(is_valid_state_key(""));
    assert!(!is_valid_state_key("../secrets"));
    assert!(!is_valid_state_key("a/b"));
    assert!(!is_valid_state_key("a.b"));
    assert!(!is_valid_state_key("ключ"));
    assert!(!is_valid_state_key("with space"));
}

#[test]
fn state_files_live_in_the_state_directory() {
    let path = state_file(Ok(b"/data/app".to_vec()), "recent").unwrap();
    assert_eq!(path, b"/data/app/state/recent.json".to_vec());
    assert_eq!(parent_bytes(&path), Some(b"/data/app/state".to_vec()));
    assert_eq!(file_name_bytes(&path), Some(b"recent.json".to_vec()));
    let path = state_file(Ok(b"/data/app/".to_vec()), "").unwrap();
    assert_eq!(path, b"/data/app/state/.json".to_vec());
    let path = state_file(Ok(b"/home/\xff/app".to_vec()), "recent").unwrap();
    assert_eq!(path, b"/home/\xff/app/state/recent.json".to_vec());
}

#[test]
fn invalid_keys_are_refused_before_the_directory_is_consulted() {
    assert_eq!(
        state_file(Err("no home".to_string()), "../x"),
        Err(AppError::InvalidStateKey)
    );
    assert_eq!(
        state_file(Err("no home".to_string()), "ok"),
        Err(AppError::StatePath("no home".to_string()))
    );
}

fn failure(not_found: bool) -> IoFailure {
    IoFailure { not_found, message: "denied".to_string() }
}

#[test]
fn missing_state_reads_as_nothing_stored() {
    assert_eq!(state_load_result(Ok("{}".to_string())), Ok(Some("{}".to_string())));
    assert_eq!(state_load_result(Err(failure(true))), Ok(None));
    assert_eq!(
        state_load_result(Err(failure(false))),
        Err(AppError::Io("denied".to_string()))
    );
}

#[test]
fn deleting_missing_state_succeeds() {
    assert_eq!(state_delete_result(Ok(())), Ok(()));
    assert_eq!(state_delete_result(Err(failure(true))), Ok(()));
    assert_eq!(
        state_delete_result(Err(failure(false))),
        Err(AppError::Io("denied".to_string()))
    );
}

#[test]
fn replacement_writes_a_hidden_sibling() {
    let plan = replacement_plan(b"/data/state/recent.json");
    assert_eq!(plan.directory, b"/data/state".to_vec());
    assert_eq!(plan.temporary, b"/data/state/.recent.json.tmp".to_vec());
    let plan = replacement_plan(b"/");
    assert_eq!(plan.directory, b".".to_vec());
    assert_eq!(plan.temporary, b"./..tmp".to_vec());
    let paths: [&[u8]; 5] = [b"/data/state/recent.json", b"x", b"/", b"", b"/d\xff/s.json"];
    for path in paths {
        let plan = replacement_plan(path);
        assert_eq!(parent_bytes(&plan.temporary), Some(plan.directory.clone()));
        assert_ne!(plan.temporary, path.to_vec());
    }
}

#[test]
fn replacement_names_that_are_not_utf8_are_read_lossily() {
    let plan = replacement_plan(b"/d\xff/a\xfe.json");
    assert_eq!(plan.directory, b"/d\xff".to_vec());
    let expected = [b"/d\xff/.a".as_slice(), "\u{fffd}".as_bytes(), b".json.tmp"].concat();
    assert_eq!(plan.temporary, expected);
}

#[test]
fn pending_paths_are_handed_out_once() {
    let mut pending = PendingOpenPaths::new(vec!["a.md".to_string(), "b.md".to_string()]);
    assert_eq!(pending.take(), vec!["a.md".to_string(), "b.md".to_string()]);
    assert!(pending.take().is_empty());
}
