//! The decisions of the file view's event handling: which context menu a
//! secondary click opens, what a chosen menu command means, what a key
//! press does in the current focus, where typed text goes, and how the
//! text fields of the view take input.

use vstd::prelude::*;

use crate::file_association::Handler;
use crate::strings::pop_char;

verus! {

pub const CONTEXT_COMMAND_OPEN: u32 = 1;
pub const CONTEXT_COMMAND_RELOAD: u32 = 2;
pub const CONTEXT_COMMAND_NEW_FOLDER: u32 = 3;
pub const CONTEXT_COMMAND_RENAME: u32 = 4;
pub const CONTEXT_COMMAND_DELETE: u32 = 5;
pub const CONTEXT_COMMAND_CONFIRM_DELETE: u32 = 6;
pub const CONTEXT_COMMAND_CANCEL_DELETE: u32 = 7;
pub const CONTEXT_COMMAND_ADD_TO_SIDEBAR: u32 = 8;
pub const CONTEXT_COMMAND_REMOVE_FROM_SIDEBAR: u32 = 9;
pub const CONTEXT_COMMAND_OPEN_WITH: u32 = 10;
pub const CONTEXT_COMMAND_SET_DEFAULT: u32 = 11;
pub const CONTEXT_COMMAND_OPEN_WITH_FIRST_HANDLER: u32 = 1000;
pub const CONTEXT_COMMAND_SET_DEFAULT_FIRST_HANDLER: u32 = 2000;

/// One entry of a context menu.
#[derive(Clone, Debug)]
pub struct MenuItem {
    pub command_id: u32,
    pub label: String,
    pub enabled: bool,
    pub checked: bool,
    pub destructive: bool,
    pub separator: bool,
}

/// The value of a menu entry.
pub struct MenuItemView {
    pub command_id: u32,
    pub label: Seq<char>,
    pub enabled: bool,
    pub checked: bool,
    pub destructive: bool,
    pub separator: bool,
}

impl View for MenuItem {
    type V = MenuItemView;

    open spec fn view(&self) -> MenuItemView {
        MenuItemView {
            command_id: self.command_id,
            label: self.label@,
            enabled: self.enabled,
            checked: self.checked,
            destructive: self.destructive,
            separator: self.separator,
        }
    }
}

/// The values of a menu.
pub open spec fn menu_views(s: Seq<MenuItem>) -> Seq<MenuItemView> {
    s.map_values(|i: MenuItem| i@)
}

/// A command entry of a menu.
pub open spec fn command_item(
    command_id: u32,
    label: Seq<char>,
    enabled: bool,
    destructive: bool,
) -> MenuItemView {
    MenuItemView { command_id, label, enabled, checked: false, destructive, separator: false }
}

/// A separator line of a menu.
pub open spec fn separator_item() -> MenuItemView {
    MenuItemView {
        command_id: 0,
        label: Seq::empty(),
        enabled: false,
        checked: false,
        destructive: false,
        separator: true,
    }
}

/// What a secondary click landed on.
#[derive(Clone, Copy, Debug, PartialEq, Eq, Structural)]
pub enum MenuTarget {
    /// A place of the sidebar.
    SidebarItem,
    /// An entry of the listing, with whether it is a folder, whether any
    /// application can open it, and whether the sidebar already lists it.
    Entry { is_directory: bool, has_handlers: bool, in_sidebar: bool },
    /// The background of the listing.
    Background,
}

/// The context menu that a secondary click on `target` opens.
pub open spec fn context_menu_items(target: MenuTarget) -> Seq<MenuItemView> {
    match target {
        MenuTarget::SidebarItem => seq![
            command_item(CONTEXT_COMMAND_REMOVE_FROM_SIDEBAR, "Remove from Sidebar"@, true, false),
        ],
        MenuTarget::Entry { is_directory, has_handlers, in_sidebar } => {
            let open = seq![command_item(CONTEXT_COMMAND_OPEN, "Open"@, true, false)];
            let with = if is_directory {
                Seq::empty()
            } else {
                seq![
                    command_item(CONTEXT_COMMAND_OPEN_WITH, "Open With…"@, has_handlers, false),
                    command_item(
                        CONTEXT_COMMAND_SET_DEFAULT,
                        "Set Default Application…"@,
                        has_handlers,
                        false,
                    ),
                ]
            };
            let rest = seq![
                command_item(CONTEXT_COMMAND_ADD_TO_SIDEBAR, "Add to Sidebar"@, !in_sidebar, false),
                separator_item(),
                command_item(CONTEXT_COMMAND_RENAME, "Rename"@, true, false),
                command_item(CONTEXT_COMMAND_DELETE, "Delete"@, true, true),
                separator_item(),
                command_item(CONTEXT_COMMAND_NEW_FOLDER, "New Folder"@, true, false),
                command_item(CONTEXT_COMMAND_RELOAD, "Reload"@, true, false),
            ];
            open + with + rest
        },
        MenuTarget::Background => seq![
            command_item(CONTEXT_COMMAND_NEW_FOLDER, "New Folder"@, true, false),
            separator_item(),
            command_item(CONTEXT_COMMAND_RELOAD, "Reload"@, true, false),
        ],
    }
}

fn command_entry(command_id: u32, label: &str, enabled: bool, destructive: bool) -> (r: MenuItem)
    ensures
        r@ == command_item(command_id, label@, enabled, destructive),
{
    MenuItem {
        command_id,
        label: label.to_owned(),
        enabled,
        checked: false,
        destructive,
        separator: false,
    }
}

fn separator_entry() -> (r: MenuItem)
    ensures
        r@ == separator_item(),
{
    MenuItem {
        command_id: 0,
        label: String::new(),
        enabled: false,
        checked: false,
        destructive: false,
        separator: true,
    }
}

/// The context menu that a secondary click on `target` opens.
pub fn context_menu(target: MenuTarget) -> (r: Vec<MenuItem>)
    ensures
        menu_views(r@) == context_menu_items(target),
{
    let mut items: Vec<MenuItem> = Vec::new();
    match target {
        MenuTarget::SidebarItem => {
            items.push(
                command_entry(CONTEXT_COMMAND_REMOVE_FROM_SIDEBAR, "Remove from Sidebar", true, false),
            );
        },
        MenuTarget::Entry { is_directory, has_handlers, in_sidebar } => {
            items.push(command_entry(CONTEXT_COMMAND_OPEN, "Open", true, false));
            if !is_directory {
                items.push(command_entry(CONTEXT_COMMAND_OPEN_WITH, "Open With…", has_handlers, false));
                items.push(
                    command_entry(
                        CONTEXT_COMMAND_SET_DEFAULT,
                        "Set Default Application…",
                        has_handlers,
                        false,
                    ),
                );
            }
            items.push(command_entry(CONTEXT_COMMAND_ADD_TO_SIDEBAR, "Add to Sidebar", !in_sidebar, false));
            items.push(separator_entry());
            items.push(command_entry(CONTEXT_COMMAND_RENAME, "Rename", true, false));
            items.push(command_entry(CONTEXT_COMMAND_DELETE, "Delete", true, true));
            items.push(separator_entry());
            items.push(command_entry(CONTEXT_COMMAND_NEW_FOLDER, "New Folder", true, false));
            items.push(command_entry(CONTEXT_COMMAND_RELOAD, "Reload", true, false));
        },
        MenuTarget::Background => {
            items.push(command_entry(CONTEXT_COMMAND_NEW_FOLDER, "New Folder", true, false));
            items.push(separator_entry());
            items.push(command_entry(CONTEXT_COMMAND_RELOAD, "Reload", true, false));
        },
    }
    assert(menu_views(items@) =~= context_menu_items(target));
    items
}

/// The label of a handler in the "Open With" menu, or in the "Set Default
/// Application" menu.
pub open spec fn handler_label(name: Seq<char>, set_default: bool) -> Seq<char> {
    if set_default {
        "Use "@ + name + " by Default"@
    } else {
        name
    }
}

/// The command of the first handler of the "Open With" menu, or of the
/// "Set Default Application" menu.
pub open spec fn first_handler_command(set_default: bool) -> u32 {
    if set_default {
        CONTEXT_COMMAND_SET_DEFAULT_FIRST_HANDLER
    } else {
        CONTEXT_COMMAND_OPEN_WITH_FIRST_HANDLER
    }
}

/// How many of `n` handlers get an entry: those whose command still fits
/// in a `u32`.
pub open spec fn handler_entries(n: int, set_default: bool) -> int {
    let room = u32::MAX - first_handler_command(set_default) + 1;
    if n <= room {
        n
    } else {
        room
    }
}

/// The menu that lists the applications `names`, one entry each, the
/// `i`-th with the command of the first handler plus `i`.
pub open spec fn handler_menu_items(names: Seq<Seq<char>>, set_default: bool) -> Seq<
    MenuItemView,
> {
    Seq::new(
        handler_entries(names.len() as int, set_default) as nat,
        |i: int|
            command_item(
                (first_handler_command(set_default) + i) as u32,
                handler_label(names[i], set_default),
                true,
                false,
            ),
    )
}

/// The names of a list of handlers.
pub open spec fn handler_names(handlers: Seq<Handler>) -> Seq<Seq<char>> {
    handlers.map_values(|h: Handler| h.name@)
}

fn handler_entry_label(name: &String, set_default: bool) -> (r: String)
    ensures
        r@ == handler_label(name@, set_default),
{
    if set_default {
        let mut label = "Use ".to_owned();
        label.append(name.as_str());
        label.append(" by Default");
        label
    } else {
        name.clone()
    }
}

/// The menu of the applications that can open the chosen file: the "Open
/// With" menu, or where `set_default` holds, the "Set Default
/// Application" menu.
pub fn handler_menu(handlers: &Vec<Handler>, set_default: bool) -> (r: Vec<MenuItem>)
    ensures
        menu_views(r@) == handler_menu_items(handler_names(handlers@), set_default),
{
    let first = if set_default {
        CONTEXT_COMMAND_SET_DEFAULT_FIRST_HANDLER
    } else {
        CONTEXT_COMMAND_OPEN_WITH_FIRST_HANDLER
    };
    let ghost names = handler_names(handlers@);
    let ghost total = handler_entries(handlers@.len() as int, set_default);
    let mut items: Vec<MenuItem> = Vec::new();
    let mut i: usize = 0;
    while i < handlers.len()
        invariant
            first == first_handler_command(set_default),
            names == handler_names(handlers@),
            total == handler_entries(handlers@.len() as int, set_default),
            i <= handlers@.len(),
            i <= total,
            menu_views(items@) == handler_menu_items(names, set_default).subrange(0, i as int),
        ensures
            i == total,
            menu_views(items@) == handler_menu_items(names, set_default).subrange(0, i as int),
        decreases handlers@.len() - i,
    {
        if i as u64 > (u32::MAX - first) as u64 {
            break;
        }
        let command_id = first + i as u32;
        let label = handler_entry_label(&handlers[i].name, set_default);
        let ghost before = items@;
        items.push(
            MenuItem {
                command_id,
                label,
                enabled: true,
                checked: false,
                destructive: false,
                separator: false,
            },
        );
        proof {
            assert(names[i as int] == handlers@[i as int].name@);
            assert(menu_views(items@) =~= menu_views(before).push(
                handler_menu_items(names, set_default)[i as int],
            ));
            assert(handler_menu_items(names, set_default).subrange(0, i + 1) =~= handler_menu_items(
                names,
                set_default,
            ).subrange(0, i as int).push(handler_menu_items(names, set_default)[i as int]));
        }
        i = i + 1;
    }
    assert(handler_menu_items(names, set_default).subrange(0, i as int) =~= handler_menu_items(
        names,
        set_default,
    ));
    items
}

/// The menu that asks to confirm the deletion of the entry `name`.
pub open spec fn delete_menu_items(name: Seq<char>) -> Seq<MenuItemView> {
    seq![
        command_item(CONTEXT_COMMAND_CONFIRM_DELETE, "Delete \""@ + name + "\""@, true, true),
        command_item(CONTEXT_COMMAND_CANCEL_DELETE, "Cancel"@, true, false),
    ]
}

/// The menu that asks to confirm the deletion of the entry `name`.
pub fn delete_menu(name: &str) -> (r: Vec<MenuItem>)
    ensures
        menu_views(r@) == delete_menu_items(name@),
{
    let mut label = "Delete \"".to_owned();
    label.append(name);
    label.append("\"");
    let mut items: Vec<MenuItem> = Vec::new();
    items.push(
        MenuItem {
            command_id: CONTEXT_COMMAND_CONFIRM_DELETE,
            label,
            enabled: true,
            checked: false,
            destructive: true,
            separator: false,
        },
    );
    items.push(command_entry(CONTEXT_COMMAND_CANCEL_DELETE, "Cancel", true, false));
    assert(menu_views(items@) =~= delete_menu_items(name@));
    items
}

/// What a command chosen from a context menu asks for.
#[derive(Clone, Copy, Debug, PartialEq, Eq, Structural)]
pub enum Command {
    Open,
    OpenWith,
    SetDefault,
    NewFolder,
    Rename,
    Delete,
    ConfirmDelete,
    CancelDelete,
    Reload,
    AddToSidebar,
    RemoveFromSidebar,
    /// Make the handler at this index the default application.
    SetDefaultHandler(usize),
    /// Open the file with the handler at this index.
    OpenWithHandler(usize),
    /// A command that asks for nothing.
    Nothing,
}

/// What the command `command_id` asks for; a menu closed without a choice
/// cancels a pending deletion.
pub open spec fn command_of(command_id: Option<u32>) -> Command {
    match command_id {
        None => Command::CancelDelete,
        Some(id) => if id == CONTEXT_COMMAND_OPEN {
            Command::Open
        } else if id == CONTEXT_COMMAND_OPEN_WITH {
            Command::OpenWith
        } else if id == CONTEXT_COMMAND_SET_DEFAULT {
            Command::SetDefault
        } else if id == CONTEXT_COMMAND_NEW_FOLDER {
            Command::NewFolder
        } else if id == CONTEXT_COMMAND_RENAME {
            Command::Rename
        } else if id == CONTEXT_COMMAND_DELETE {
            Command::Delete
        } else if id == CONTEXT_COMMAND_CONFIRM_DELETE {
            Command::ConfirmDelete
        } else if id == CONTEXT_COMMAND_CANCEL_DELETE {
            Command::CancelDelete
        } else if id == CONTEXT_COMMAND_RELOAD {
            Command::Reload
        } else if id == CONTEXT_COMMAND_ADD_TO_SIDEBAR {
            Command::AddToSidebar
        } else if id == CONTEXT_COMMAND_REMOVE_FROM_SIDEBAR {
            Command::RemoveFromSidebar
        } else if id >= CONTEXT_COMMAND_SET_DEFAULT_FIRST_HANDLER {
            Command::SetDefaultHandler((id - CONTEXT_COMMAND_SET_DEFAULT_FIRST_HANDLER) as usize)
        } else if id >= CONTEXT_COMMAND_OPEN_WITH_FIRST_HANDLER {
            Command::OpenWithHandler((id - CONTEXT_COMMAND_OPEN_WITH_FIRST_HANDLER) as usize)
        } else {
            Command::Nothing
        },
    }
}

/// What the command `command_id` asks for.
pub fn command_for(command_id: Option<u32>) -> (r: Command)
    ensures
        r == command_of(command_id),
{
    match command_id {
        None => Command::CancelDelete,
        Some(id) => if id == CONTEXT_COMMAND_OPEN {
            Command::Open
        } else if id == CONTEXT_COMMAND_OPEN_WITH {
            Command::OpenWith
        } else if id == CONTEXT_COMMAND_SET_DEFAULT {
            Command::SetDefault
        } else if id == CONTEXT_COMMAND_NEW_FOLDER {
            Command::NewFolder
        } else if id == CONTEXT_COMMAND_RENAME {
            Command::Rename
        } else if id == CONTEXT_COMMAND_DELETE {
            Command::Delete
        } else if id == CONTEXT_COMMAND_CONFIRM_DELETE {
            Command::ConfirmDelete
        } else if id == CONTEXT_COMMAND_CANCEL_DELETE {
            Command::CancelDelete
        } else if id == CONTEXT_COMMAND_RELOAD {
            Command::Reload
        } else if id == CONTEXT_COMMAND_ADD_TO_SIDEBAR {
            Command::AddToSidebar
        } else if id == CONTEXT_COMMAND_REMOVE_FROM_SIDEBAR {
            Command::RemoveFromSidebar
        } else if id >= CONTEXT_COMMAND_SET_DEFAULT_FIRST_HANDLER {
            Command::SetDefaultHandler((id - CONTEXT_COMMAND_SET_DEFAULT_FIRST_HANDLER) as usize)
        } else if id >= CONTEXT_COMMAND_OPEN_WITH_FIRST_HANDLER {
            Command::OpenWithHandler((id - CONTEXT_COMMAND_OPEN_WITH_FIRST_HANDLER) as usize)
        } else {
            Command::Nothing
        },
    }
}

/// Whether the command `command_id` changes the sidebar.
pub fn is_sidebar_command(command_id: Option<u32>) -> (r: bool)
    ensures
        r == (command_id == Some(CONTEXT_COMMAND_ADD_TO_SIDEBAR) || command_id == Some(
            CONTEXT_COMMAND_REMOVE_FROM_SIDEBAR,
        )),
{
    match command_id {
        Some(id) => id == CONTEXT_COMMAND_ADD_TO_SIDEBAR || id == CONTEXT_COMMAND_REMOVE_FROM_SIDEBAR,
        None => false,
    }
}

/// The identifier of the next context menu request: one more than the
/// last, and never 0.
pub fn next_request_id(last: u64) -> (r: u64)
    ensures
        r == (if last == u64::MAX {
            1
        } else {
            last + 1
        }),
        r != 0,
{
    if last == u64::MAX {
        1
    } else {
        last + 1
    }
}

/// The keys the file view answers.
#[derive(Clone, Copy, Debug, PartialEq, Eq, Structural)]
pub enum Key {
    Escape,
    Enter,
    ArrowUp,
    ArrowDown,
    Other,
}

/// What a key press does.
#[derive(Clone, Copy, Debug, PartialEq, Eq, Structural)]
pub enum KeyAction {
    /// Drop the name being edited.
    CancelNameEdit,
    /// Give the entry the name being edited.
    CommitNameEdit,
    /// Leave the path field and clear it.
    LeavePath,
    /// Clear the search and leave the search field.
    LeaveSearch,
    /// Select the entry before the selected one.
    SelectPrevious,
    /// Select the entry after the selected one.
    SelectNext,
    /// Go to the path typed into the path field.
    NavigateToPath,
    /// Open the selected entry.
    OpenSelected,
    /// Nothing.
    Ignore,
}

/// What pressing `key` does, given whether a name is being edited, and
/// whether the path field or the search field has the focus.
pub open spec fn key_action_of(
    key: Key,
    name_editing: bool,
    path_focused: bool,
    search_focused: bool,
) -> KeyAction {
    if key == Key::Escape && name_editing {
        KeyAction::CancelNameEdit
    } else if key == Key::Enter && name_editing {
        KeyAction::CommitNameEdit
    } else if key == Key::Escape && path_focused {
        KeyAction::LeavePath
    } else if key == Key::Escape && search_focused {
        KeyAction::LeaveSearch
    } else if key == Key::ArrowUp && !path_focused {
        KeyAction::SelectPrevious
    } else if key == Key::ArrowDown && !path_focused {
        KeyAction::SelectNext
    } else if key == Key::Enter && path_focused {
        KeyAction::NavigateToPath
    } else if key == Key::Enter {
        KeyAction::OpenSelected
    } else {
        KeyAction::Ignore
    }
}

/// What pressing `key` does in the given focus.
pub fn key_action(key: Key, name_editing: bool, path_focused: bool, search_focused: bool) -> (r:
    KeyAction)
    ensures
        r == key_action_of(key, name_editing, path_focused, search_focused),
{
    match key {
        Key::Escape => if name_editing {
            KeyAction::CancelNameEdit
        } else if path_focused {
            KeyAction::LeavePath
        } else if search_focused {
            KeyAction::LeaveSearch
        } else {
            KeyAction::Ignore
        },
        Key::Enter => if name_editing {
            KeyAction::CommitNameEdit
        } else if path_focused {
            KeyAction::NavigateToPath
        } else {
            KeyAction::OpenSelected
        },
        Key::ArrowUp => if path_focused {
            KeyAction::Ignore
        } else {
            KeyAction::SelectPrevious
        },
        Key::ArrowDown => if path_focused {
            KeyAction::Ignore
        } else {
            KeyAction::SelectNext
        },
        Key::Other => KeyAction::Ignore,
    }
}

/// Where typed text, and a backspace, go.
#[derive(Clone, Copy, Debug, PartialEq, Eq, Structural)]
pub enum InputTarget {
    NameField,
    PathField,
    Search,
    Ignored,
}

/// Where typed text goes: to the name being edited, else to the focused
/// path field, else to the focused search field.
pub fn input_target(name_editing: bool, path_focused: bool, search_focused: bool) -> (r:
    InputTarget)
    ensures
        r == (if name_editing {
            InputTarget::NameField
        } else if path_focused {
            InputTarget::PathField
        } else if search_focused {
            InputTarget::Search
        } else {
            InputTarget::Ignored
        }),
{
    if name_editing {
        InputTarget::NameField
    } else if path_focused {
        InputTarget::PathField
    } else if search_focused {
        InputTarget::Search
    } else {
        InputTarget::Ignored
    }
}

/// A text field of the view: its text, and whether the next input
/// replaces the whole text rather than adding to it.
#[derive(Clone, Debug)]
pub struct EditField {
    pub value: String,
    pub replace_on_input: bool,
}

impl EditField {
    /// A field that shows `value`, which the first input replaces.
    pub fn replacing(value: String) -> (r: EditField)
        ensures
            r.value@ == value@,
            r.replace_on_input,
    {
        EditField { value, replace_on_input: true }
    }

    /// An empty field.
    pub fn empty() -> (r: EditField)
        ensures
            r.value@ == Seq::<char>::empty(),
            !r.replace_on_input,
    {
        EditField { value: String::new(), replace_on_input: false }
    }

    /// Types `text`: it replaces the text where the field asks for that,
    /// else it is added at the end.
    pub fn insert(&mut self, text: &str)
        ensures
            final(self).value@ == (if old(self).replace_on_input {
                text@
            } else {
                old(self).value@ + text@
            }),
            !final(self).replace_on_input,
    {
        if self.replace_on_input {
            self.value = String::new();
            self.replace_on_input = false;
        }
        self.value.append(text);
    }

    /// A backspace: it clears the text where the next input would have
    /// replaced it, else it removes the last character.
    pub fn backspace(&mut self)
        ensures
            final(self).value@ == (if old(self).replace_on_input {
                Seq::<char>::empty()
            } else if old(self).value@.len() == 0 {
                old(self).value@
            } else {
                old(self).value@.drop_last()
            }),
            !final(self).replace_on_input,
    {
        if self.replace_on_input {
            self.value = String::new();
            self.replace_on_input = false;
        } else {
            let _ = pop_char(&mut self.value);
        }
    }
}

/// How long after a click on an entry a second click on it opens it.
pub const DOUBLE_CLICK_NANOS: u128 = 500_000_000;

/// Whether a click on an entry opens it: the last click was on the same
/// entry, at most [`DOUBLE_CLICK_NANOS`] before.
pub fn is_double_click(same_entry: bool, elapsed_nanos: u128) -> (r: bool)
    ensures
        r == (same_entry && elapsed_nanos <= DOUBLE_CLICK_NANOS),
{
    same_entry && elapsed_nanos <= DOUBLE_CLICK_NANOS
}

/// Whether the answer to the context menu request `request_id` is the
/// one awaited: the view only acts on the menu it showed last.
pub fn accepts_menu_result(active: Option<u64>, request_id: u64) -> (r: bool)
    ensures
        r == (active == Some(request_id)),
{
    match active {
        Some(a) => a == request_id,
        None => false,
    }
}

/// What a point of the file view is over.
#[derive(Clone, Copy, Debug, PartialEq, Eq, Structural)]
pub enum HitTarget {
    Back,
    Forward,
    ListMode,
    GridMode,
    Path,
    Search,
    /// The sidebar place at this index.
    Sidebar(usize),
    /// The visible entry at this index.
    Entry(usize),
    /// The listing's background.
    Content,
}

/// What a primary click does while a name is being edited.
#[derive(Clone, Copy, Debug, PartialEq, Eq, Structural)]
pub enum EditClick {
    /// The click is on the entry being renamed: nothing happens.
    KeepEditing,
    /// The name is committed first; the click goes on only where that
    /// succeeds.
    CommitFirst,
    /// No name is being edited: the click goes on.
    Proceed,
}

/// What a primary click does to a name being edited, given whether one is
/// and whether the click is on that very entry.
pub fn edit_click(name_editing: bool, on_edited_entry: bool) -> (r: EditClick)
    ensures
        r == (if !name_editing {
            EditClick::Proceed
        } else if on_edited_entry {
            EditClick::KeepEditing
        } else {
            EditClick::CommitFirst
        }),
{
    if !name_editing {
        EditClick::Proceed
    } else if on_edited_entry {
        EditClick::KeepEditing
    } else {
        EditClick::CommitFirst
    }
}

/// The browsing operation of a primary click.
#[derive(Clone, Copy, Debug, PartialEq, Eq, Structural)]
pub enum PressOperation {
    GoBack,
    GoForward,
    ShowList,
    ShowGrid,
    /// Open the sidebar place at this index.
    ActivateSidebar(usize),
    /// Select, or on a second click open, the entry at this index.
    ActivateEntry(usize),
    /// Clear the selection and forget the last click.
    ClearSelection,
    /// Only the focus changes.
    Nothing,
}

/// What a primary click on `target` does: the new focus of the path and
/// search fields, whether the path field is filled with the current
/// directory (when it takes the focus), and the browsing operation.
pub struct Press {
    pub path_focused: bool,
    pub search_focused: bool,
    pub fill_path_field: bool,
    pub operation: PressOperation,
}

/// The operation of a primary click on `target`.
pub open spec fn press_operation(target: Option<HitTarget>) -> PressOperation {
    match target {
        Some(HitTarget::Back) => PressOperation::GoBack,
        Some(HitTarget::Forward) => PressOperation::GoForward,
        Some(HitTarget::ListMode) => PressOperation::ShowList,
        Some(HitTarget::GridMode) => PressOperation::ShowGrid,
        Some(HitTarget::Sidebar(i)) => PressOperation::ActivateSidebar(i),
        Some(HitTarget::Entry(i)) => PressOperation::ActivateEntry(i),
        Some(HitTarget::Content) => PressOperation::ClearSelection,
        Some(HitTarget::Path) | Some(HitTarget::Search) | None => PressOperation::Nothing,
    }
}

/// What a primary click on `target` does, given whether the path field
/// has the focus.
pub fn press(target: Option<HitTarget>, path_focused: bool) -> (r: Press)
    ensures
        r.path_focused == (target == Some(HitTarget::Path)),
        r.search_focused == (target == Some(HitTarget::Search)),
        r.fill_path_field == (target == Some(HitTarget::Path) && !path_focused),
        r.operation == press_operation(target),
{
    let on_path = match target {
        Some(HitTarget::Path) => true,
        _ => false,
    };
    let on_search = match target {
        Some(HitTarget::Search) => true,
        _ => false,
    };
    let operation = match target {
        Some(HitTarget::Back) => PressOperation::GoBack,
        Some(HitTarget::Forward) => PressOperation::GoForward,
        Some(HitTarget::ListMode) => PressOperation::ShowList,
        Some(HitTarget::GridMode) => PressOperation::ShowGrid,
        Some(HitTarget::Sidebar(i)) => PressOperation::ActivateSidebar(i),
        Some(HitTarget::Entry(i)) => PressOperation::ActivateEntry(i),
        Some(HitTarget::Content) => PressOperation::ClearSelection,
        Some(HitTarget::Path) | Some(HitTarget::Search) | None => PressOperation::Nothing,
    };
    Press {
        path_focused: on_path,
        search_focused: on_search,
        fill_path_field: on_path && !path_focused,
        operation,
    }
}

} // verus!
