use tuxedo_md::app_info::build_info;
use tuxedo_md::error::{AppError, IoFailure};
use tuxedo_md::menu::{native_menu, MenuEntry};

#[test]
fn error_messages_match_the_user_interface() {
    assert_eq!(AppError::FileTooLarge.message(), "The selected file is larger than 16 MB");
    assert_eq!(AppError::NotAFile.message(), "The selected path is not a regular file");
    assert_eq!(AppError::NotADirectory.message(), "The selected workspace path is not a folder");
    assert_eq!(
        AppError::WorkspaceTooLarge.message(),
        "The workspace contains more than 20,000 Markdown files"
    );
    assert_eq!(AppError::Conflict.message(), "The file changed on disk before it could be saved");
    assert_eq!(AppError::InvalidStateKey.message(), "Invalid application state key");
    assert_eq!(
        AppError::StatePath("no home".to_string()).message(),
        "Application state path error: no home"
    );
    assert_eq!(AppError::Io("disk full".to_string()).message(), "disk full");
    assert_eq!(AppError::Walk("loop".to_string()).message(), "loop");
    let io = AppError::from_io(IoFailure { not_found: true, message: "gone".to_string() });
    assert_eq!(io, AppError::Io("gone".to_string()));
}

#[test]
fn build_info_defaults_to_community_edition() {
    let info = build_info(None, "1.2.3".to_string());
    assert_eq!(info.edition, "community");
    assert_eq!(info.version, "1.2.3");
    assert_eq!(build_info(Some("pro".to_string()), "1".to_string()).edition, "pro");
}

#[test]
fn menu_has_file_edit_and_view() {
    let menu = native_menu();
    let titles: Vec<&str> = menu.iter().map(|m| m.title.as_str()).collect();
    assert_eq!(titles, vec!["File", "Edit", "View"]);
    assert_eq!(menu[0].entries.len(), 5);
    assert_eq!(menu[0].entries[3], MenuEntry::Separator);
    assert_eq!(menu[0].entries[4], MenuEntry::Quit);
    assert_eq!(
        menu[2].entries[3],
        MenuEntry::Command {
            id: "settings".to_string(),
            label: "Settings".to_string(),
            accelerator: "CmdOrCtrl+,".to_string()
        }
    );
}

#[test]
fn menu_command_ids_are_distinct() {
    let mut ids = Vec::new();
    for sub in native_menu() {
        for e in sub.entries {
            if let MenuEntry::Command { id, .. } = e {
                assert!(!ids.contains(&id));
                ids.push(id);
            }
        }
    }
    assert_eq!(ids.len(), 9);
}
