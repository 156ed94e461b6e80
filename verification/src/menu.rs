//! The application's native menu: its submenus, and the commands whose
//! identifiers are sent to the front end when chosen.
use vstd::prelude::*;

verus! {

/// One entry of a submenu.
#[derive(Debug, Clone, PartialEq, Eq)]
pub enum MenuEntry {
    /// A command with its identifier, label and keyboard accelerator.
    Command { id: String, label: String, accelerator: String },
    Separator,
    /// The platform's quit entry.
    Quit,
}

/// A submenu with its title and entries.
#[derive(Debug, Clone, PartialEq, Eq)]
pub struct Submenu {
    pub title: String,
    pub entries: Vec<MenuEntry>,
}

/// The abstract value of a menu entry.
pub enum EntryModel {
    Command(Seq<char>, Seq<char>, Seq<char>),
    Separator,
    Quit,
}

pub open spec fn entry_model(e: MenuEntry) -> EntryModel {
    match e {
        MenuEntry::Command { id, label, accelerator } => EntryModel::Command(id@, label@, accelerator@),
        MenuEntry::Separator => EntryModel::Separator,
        MenuEntry::Quit => EntryModel::Quit,
    }
}

pub open spec fn submenu_model(s: Submenu) -> (Seq<char>, Seq<EntryModel>) {
    (s.title@, s.entries@.map_values(|e: MenuEntry| entry_model(e)))
}

/// The menu's commands: identifier, label and accelerator.
pub open spec fn spec_commands() -> Seq<(Seq<char>, Seq<char>, Seq<char>)> {
    seq![
        ("new-document"@, "New Document"@, "CmdOrCtrl+N"@),
        ("open-document"@, "Open\u{2026}"@, "CmdOrCtrl+O"@),
        ("save-document"@, "Save"@, "CmdOrCtrl+S"@),
        ("find"@, "Find"@, "CmdOrCtrl+F"@),
        ("command-palette"@, "Command Palette"@, "CmdOrCtrl+Shift+P"@),
        ("toggle-sidebar"@, "Toggle Tools"@, "CmdOrCtrl+Shift+B"@),
        ("editor-view"@, "Editor"@, "CmdOrCtrl+Shift+E"@),
        ("preview-view"@, "Preview"@, "CmdOrCtrl+Shift+V"@),
        ("settings"@, "Settings"@, "CmdOrCtrl+,"@),
    ]
}

pub open spec fn command_model(i: int) -> EntryModel {
    EntryModel::Command(spec_commands()[i].0, spec_commands()[i].1, spec_commands()[i].2)
}

/// File, Edit and View, in that order.
pub open spec fn spec_native_menu() -> Seq<(Seq<char>, Seq<EntryModel>)> {
    seq![
        ("File"@, seq![command_model(0), command_model(1), command_model(2), EntryModel::Separator, EntryModel::Quit]),
        ("Edit"@, seq![command_model(3), command_model(4)]),
        ("View"@, seq![command_model(5), command_model(6), command_model(7), command_model(8)]),
    ]
}

fn command(id: &str, label: &str, accelerator: &str) -> (res: MenuEntry)
    ensures
        entry_model(res) == EntryModel::Command(id@, label@, accelerator@),
{
    MenuEntry::Command {
        id: String::from_str(id),
        label: String::from_str(label),
        accelerator: String::from_str(accelerator),
    }
}

/// The application's menu.
pub fn native_menu() -> (res: Vec<Submenu>)
    ensures
        res@.map_values(|s: Submenu| submenu_model(s)) == spec_native_menu(),
{
    let file = Submenu {
        title: String::from_str("File"),
        entries: vec![
            command("new-document", "New Document", "CmdOrCtrl+N"),
            command("open-document", "Open\u{2026}", "CmdOrCtrl+O"),
            command("save-document", "Save", "CmdOrCtrl+S"),
            MenuEntry::Separator,
            MenuEntry::Quit,
        ],
    };
    let edit = Submenu {
        title: String::from_str("Edit"),
        entries: vec![
            command("find", "Find", "CmdOrCtrl+F"),
            command("command-palette", "Command Palette", "CmdOrCtrl+Shift+P"),
        ],
    };
    let view = Submenu {
        title: String::from_str("View"),
        entries: vec![
            command("toggle-sidebar", "Toggle Tools", "CmdOrCtrl+Shift+B"),
            command("editor-view", "Editor", "CmdOrCtrl+Shift+E"),
            command("preview-view", "Preview", "CmdOrCtrl+Shift+V"),
            command("settings", "Settings", "CmdOrCtrl+,"),
        ],
    };
    assert(submenu_model(file).1 =~= spec_native_menu()[0].1);
    assert(submenu_model(edit).1 =~= spec_native_menu()[1].1);
    assert(submenu_model(view).1 =~= spec_native_menu()[2].1);
    let res = vec![file, edit, view];
    assert(res@.map_values(|s: Submenu| submenu_model(s)) =~= spec_native_menu());
    res
}

/// Every command has its own identifier, so the front end can tell which
/// one was chosen.
pub proof fn lemma_command_ids_distinct()
    ensures
        forall|i: int, j: int|
            0 <= i < j < spec_commands().len() ==> spec_commands()[i].0 != spec_commands()[j].0,
{
    reveal_strlit("new-document");
    reveal_strlit("open-document");
    reveal_strlit("save-document");
    reveal_strlit("find");
    reveal_strlit("command-palette");
    reveal_strlit("toggle-sidebar");
    reveal_strlit("editor-view");
    reveal_strlit("preview-view");
    reveal_strlit("settings");
    let c = spec_commands();
    assert forall|i: int, j: int| 0 <= i < j < c.len() implies c[i].0 != c[j].0 by {
        let a = c[i].0;
        let b = c[j].0;
        if a == b {
            assert(a.len() == b.len());
            assert(a[0] == b[0]);
            assert(a[a.len() - 1] == b[b.len() - 1]);
        }
    }
}

} // verus!
