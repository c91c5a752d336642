use mochios_files::file_association::Handler;
use mochios_files::interaction::{
    accepts_menu_result, command_for, context_menu, delete_menu, edit_click, handler_menu,
    input_target, is_double_click, press, EditClick, HitTarget, PressOperation,
    is_sidebar_command, key_action, next_request_id, Command, EditField, InputTarget, Key,
    KeyAction, MenuItem, MenuTarget, CONTEXT_COMMAND_ADD_TO_SIDEBAR, CONTEXT_COMMAND_DELETE,
    CONTEXT_COMMAND_OPEN, CONTEXT_COMMAND_OPEN_WITH, CONTEXT_COMMAND_RELOAD,
    CONTEXT_COMMAND_REMOVE_FROM_SIDEBAR,
};

fn labels(items: &[MenuItem]) -> Vec<&str> {
    items.iter().map(|item| item.label.as_str()).collect()
}

fn handler(name: &str) -> Handler {
    Handler { bundle_id: format!("org.example.{name}"), name: name.to_owned() }
}

#[test]
fn file_menus_offer_opening_with_other_applications() {
    let items = context_menu(MenuTarget::Entry {
        is_directory: false,
        has_handlers: false,
        in_sidebar: true,
    });
    assert_eq!(
        labels(&items),
        vec![
            "Open",
            "Open With…",
            "Set Default Application…",
            "Add to Sidebar",
            "",
            "Rename",
            "Delete",
            "",
            "New Folder",
            "Reload"
        ]
    );
    assert_eq!(items[0].command_id, CONTEXT_COMMAND_OPEN);
    assert!(!items[1].enabled);
    assert!(!items[3].enabled);
    assert!(items[4].separator);
    assert!(items[6].destructive);
    assert_eq!(items[6].command_id, CONTEXT_COMMAND_DELETE);
}

#[test]
fn folder_and_background_menus() {
    let folder = context_menu(MenuTarget::Entry {
        is_directory: true,
        has_handlers: true,
        in_sidebar: false,
    });
    assert_eq!(folder.len(), 8);
    assert_eq!(folder[1].command_id, CONTEXT_COMMAND_ADD_TO_SIDEBAR);
    assert!(folder[1].enabled);
    let background = context_menu(MenuTarget::Background);
    assert_eq!(labels(&background), vec!["New Folder", "", "Reload"]);
    assert_eq!(background[2].command_id, CONTEXT_COMMAND_RELOAD);
    let sidebar = context_menu(MenuTarget::SidebarItem);
    assert_eq!(labels(&sidebar), vec!["Remove from Sidebar"]);
    assert_eq!(sidebar[0].command_id, CONTEXT_COMMAND_REMOVE_FROM_SIDEBAR);
}

#[test]
fn handler_menus_number_their_entries() {
    let handlers = vec![handler("Editor"), handler("Viewer")];
    let open_with = handler_menu(&handlers, false);
    assert_eq!(labels(&open_with), vec!["Editor", "Viewer"]);
    assert_eq!(open_with[1].command_id, 1_001);
    let set_default = handler_menu(&handlers, true);
    assert_eq!(labels(&set_default), vec!["Use Editor by Default", "Use Viewer by Default"]);
    assert_eq!(set_default[0].command_id, 2_000);
    assert!(handler_menu(&Vec::new(), true).is_empty());
}

#[test]
fn deleting_asks_for_confirmation() {
    let items = delete_menu("report.txt");
    assert_eq!(labels(&items), vec!["Delete \"report.txt\"", "Cancel"]);
    assert!(items[0].destructive);
    assert!(!items[1].destructive);
}

#[test]
fn commands_are_decoded() {
    assert_eq!(command_for(Some(CONTEXT_COMMAND_OPEN)), Command::Open);
    assert_eq!(command_for(Some(CONTEXT_COMMAND_OPEN_WITH)), Command::OpenWith);
    assert_eq!(command_for(Some(6)), Command::ConfirmDelete);
    assert_eq!(command_for(None), Command::CancelDelete);
    assert_eq!(command_for(Some(1_003)), Command::OpenWithHandler(3));
    assert_eq!(command_for(Some(2_000)), Command::SetDefaultHandler(0));
    assert_eq!(command_for(Some(500)), Command::Nothing);
    assert!(is_sidebar_command(Some(8)));
    assert!(is_sidebar_command(Some(9)));
    assert!(!is_sidebar_command(Some(1)));
    assert!(!is_sidebar_command(None));
}

#[test]
fn keys_act_by_focus() {
    assert_eq!(key_action(Key::Escape, true, true, true), KeyAction::CancelNameEdit);
    assert_eq!(key_action(Key::Enter, true, false, false), KeyAction::CommitNameEdit);
    assert_eq!(key_action(Key::Escape, false, true, true), KeyAction::LeavePath);
    assert_eq!(key_action(Key::Escape, false, false, true), KeyAction::LeaveSearch);
    assert_eq!(key_action(Key::Escape, false, false, false), KeyAction::Ignore);
    assert_eq!(key_action(Key::ArrowUp, true, false, false), KeyAction::SelectPrevious);
    assert_eq!(key_action(Key::ArrowDown, false, true, false), KeyAction::Ignore);
    assert_eq!(key_action(Key::Enter, false, true, false), KeyAction::NavigateToPath);
    assert_eq!(key_action(Key::Enter, false, false, true), KeyAction::OpenSelected);
    assert_eq!(key_action(Key::Other, false, false, false), KeyAction::Ignore);
}

#[test]
fn typed_text_goes_to_the_focused_field() {
    assert_eq!(input_target(true, true, true), InputTarget::NameField);
    assert_eq!(input_target(false, true, true), InputTarget::PathField);
    assert_eq!(input_target(false, false, true), InputTarget::Search);
    assert_eq!(input_target(false, false, false), InputTarget::Ignored);
}

#[test]
fn the_first_input_replaces_the_field() {
    let mut field = EditField::replacing("old name".to_owned());
    field.insert("n");
    assert_eq!(field.value, "n");
    field.insert("ew");
    assert_eq!(field.value, "new");
    field.backspace();
    assert_eq!(field.value, "ne");
    let mut replaced = EditField::replacing("gone".to_owned());
    replaced.backspace();
    assert_eq!(replaced.value, "");
    assert!(!replaced.replace_on_input);
    let mut empty = EditField::empty();
    empty.backspace();
    assert_eq!(empty.value, "");
}

#[test]
fn request_ids_skip_zero() {
    assert_eq!(next_request_id(0), 1);
    assert_eq!(next_request_id(41), 42);
    assert_eq!(next_request_id(u64::MAX), 1);
}

#[test]
fn double_clicks_are_quick_clicks_on_one_entry() {
    assert!(is_double_click(true, 500_000_000));
    assert!(!is_double_click(true, 500_000_001));
    assert!(!is_double_click(false, 1));
}

#[test]
fn only_the_awaited_menu_answer_is_taken() {
    assert!(accepts_menu_result(Some(3), 3));
    assert!(!accepts_menu_result(Some(3), 2));
    assert!(!accepts_menu_result(None, 3));
}

#[test]
fn clicks_commit_a_name_being_edited_first() {
    assert_eq!(edit_click(false, false), EditClick::Proceed);
    assert_eq!(edit_click(true, true), EditClick::KeepEditing);
    assert_eq!(edit_click(true, false), EditClick::CommitFirst);
}

#[test]
fn primary_clicks_move_the_focus_and_act() {
    let on_path = press(Some(HitTarget::Path), false);
    assert!(on_path.path_focused && on_path.fill_path_field && !on_path.search_focused);
    assert_eq!(on_path.operation, PressOperation::Nothing);
    assert!(!press(Some(HitTarget::Path), true).fill_path_field);
    let on_search = press(Some(HitTarget::Search), true);
    assert!(on_search.search_focused && !on_search.path_focused);
    assert_eq!(press(Some(HitTarget::Entry(4)), false).operation, PressOperation::ActivateEntry(4));
    assert_eq!(press(Some(HitTarget::Sidebar(1)), false).operation, PressOperation::ActivateSidebar(1));
    assert_eq!(press(Some(HitTarget::Back), false).operation, PressOperation::GoBack);
    assert_eq!(press(Some(HitTarget::Forward), false).operation, PressOperation::GoForward);
    assert_eq!(press(Some(HitTarget::ListMode), false).operation, PressOperation::ShowList);
    assert_eq!(press(Some(HitTarget::GridMode), false).operation, PressOperation::ShowGrid);
    assert_eq!(press(Some(HitTarget::Content), false).operation, PressOperation::ClearSelection);
    assert_eq!(press(None, true).operation, PressOperation::Nothing);
    assert!(!press(None, true).path_focused);
}
