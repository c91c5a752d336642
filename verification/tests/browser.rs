use mochios_files::browser::{
    folder_search_step, new_folder_name, valid_entry_name, Browser, FolderSearch, RenameStep,
};
use mochios_files::entry::{EntryKind, FileEntry, ViewMode};

fn entry(path: &str, name: &str, kind: EntryKind) -> FileEntry {
    FileEntry {
        path: path.as_bytes().to_vec(),
        name: name.to_owned(),
        kind,
        size: 0,
        modified: "--".to_owned(),
    }
}

fn names(browser: &Browser) -> Vec<String> {
    browser.entries().iter().map(|e| e.name.clone()).collect()
}

/// The first candidate for a new folder that does not exist yet, as the
/// application picks it.
fn new_folder(browser: &Browser, existing: &[Vec<u8>]) -> Option<Vec<u8>> {
    let mut suffix = 1u32;
    loop {
        let candidate = browser.folder_candidate(suffix);
        if !existing.contains(&candidate) {
            return Some(candidate);
        }
        suffix = suffix.checked_add(1)?;
    }
}

#[test]
fn defaults_to_grid_view() {
    assert_eq!(Browser::new(b"/".to_vec(), Ok(Vec::new())).view_mode(), ViewMode::Grid);
}

#[test]
fn creates_uniquely_named_folders() {
    let browser = Browser::new(b"/tmp/work".to_vec(), Ok(Vec::new()));
    let mut existing: Vec<Vec<u8>> = Vec::new();
    let first = new_folder(&browser, &existing);
    existing.extend(first.clone());
    let second = new_folder(&browser, &existing);
    assert_eq!(first, Some(b"/tmp/work/New Folder".to_vec()));
    assert_eq!(second, Some(b"/tmp/work/New Folder 2".to_vec()));
}

#[test]
fn renames_without_replacing_an_existing_item() {
    let old = b"/tmp/work/old.txt".to_vec();
    let mut browser = Browser::new(
        b"/tmp/work".to_vec(),
        Ok(vec![
            entry("/tmp/work/old.txt", "old.txt", EntryKind::Document),
            entry("/tmp/work/occupied.txt", "occupied.txt", EntryKind::Document),
        ]),
    );
    browser.select(old.clone());
    assert!(matches!(browser.rename_selected("occupied.txt", true), RenameStep::Refused));
    assert_eq!(browser.error(), Some("/tmp/work/occupied.txt already exists"));
    match browser.rename_selected("new.txt", false) {
        RenameStep::Move { source, destination } => {
            assert_eq!(source, old);
            assert_eq!(destination, b"/tmp/work/new.txt".to_vec());
        }
        other => panic!("unexpected rename step {other:?}"),
    }
}

#[test]
fn deletes_a_directory_tree() {
    let target = b"/tmp/work/target".to_vec();
    let mut browser = Browser::new(
        b"/tmp/work".to_vec(),
        Ok(vec![entry("/tmp/work/target", "target", EntryKind::Directory)]),
    );
    browser.select(target.clone());
    assert_eq!(browser.delete_selected(), Some(target));
    assert_eq!(browser.error(), None);
}

#[test]
fn rejects_invalid_names() {
    let target = b"/tmp/work/target".to_vec();
    let mut browser = Browser::new(
        b"/tmp/work".to_vec(),
        Ok(vec![entry("/tmp/work/target", "target", EntryKind::File)]),
    );
    browser.select(target);
    assert!(matches!(browser.rename_selected("../outside", false), RenameStep::Refused));
    assert_eq!(browser.error(), Some("The name is not valid"));
}

#[test]
fn entry_names_are_checked() {
    assert!(valid_entry_name("notes.txt"));
    assert!(!valid_entry_name(""));
    assert!(!valid_entry_name("."));
    assert!(!valid_entry_name(".."));
    assert!(!valid_entry_name("a/b"));
    assert!(!valid_entry_name("a\0b"));
}

#[test]
fn renaming_to_the_same_name_is_unchanged() {
    let mut browser = Browser::new(
        b"/tmp/work".to_vec(),
        Ok(vec![entry("/tmp/work/a.txt", "a.txt", EntryKind::Document)]),
    );
    browser.select(b"/tmp/work/a.txt".to_vec());
    assert!(matches!(browser.rename_selected("a.txt", true), RenameStep::Unchanged));
    assert_eq!(browser.error(), None);
}

#[test]
fn renaming_without_a_selection_is_refused() {
    let mut browser = Browser::new(b"/tmp/work".to_vec(), Ok(Vec::new()));
    assert!(matches!(browser.rename_selected("b.txt", false), RenameStep::Refused));
    assert_eq!(browser.error(), None);
}

#[test]
fn deleting_outside_the_current_directory_is_refused() {
    let mut browser = Browser::new(b"/tmp/work".to_vec(), Ok(Vec::new()));
    browser.select(b"/etc/passwd".to_vec());
    assert_eq!(browser.delete_selected(), None);
    assert_eq!(browser.error(), Some("The selected item cannot be deleted"));
}

#[test]
fn folder_names_count_from_the_second() {
    assert_eq!(new_folder_name(1), "New Folder");
    assert_eq!(new_folder_name(2), "New Folder 2");
    assert_eq!(new_folder_name(10), "New Folder 10");
}

#[test]
fn back_undoes_navigate_and_forward_undoes_back() {
    let mut browser = Browser::new(
        b"/home".to_vec(),
        Ok(vec![entry("/home/docs", "docs", EntryKind::Directory)]),
    );
    assert!(!browser.can_go_back());
    assert!(browser.navigate(b"/home/docs", Ok(vec![entry("/home/docs/a.md", "a.md", EntryKind::Document)])));
    assert_eq!(browser.current_dir(), b"/home/docs");
    assert_eq!(names(&browser), vec!["a.md".to_owned()]);
    assert!(browser.can_go_back());
    assert!(!browser.can_go_forward());
    assert!(browser.go_back(Ok(vec![entry("/home/docs", "docs", EntryKind::Directory)])));
    assert_eq!(browser.current_dir(), b"/home");
    assert!(browser.can_go_forward());
    assert!(browser.go_forward(Ok(Vec::new())));
    assert_eq!(browser.current_dir(), b"/home/docs");
    assert!(!browser.can_go_forward());
}

#[test]
fn failed_navigation_keeps_the_directory() {
    let mut browser = Browser::new(b"/home".to_vec(), Ok(Vec::new()));
    assert!(!browser.navigate(b"/missing", Err("not found".to_owned())));
    assert_eq!(browser.current_dir(), b"/home");
    assert_eq!(browser.error(), Some("Cannot open /missing"));
    assert!(!browser.can_go_back());
}

#[test]
fn navigation_normalizes_the_path() {
    let mut browser = Browser::new(b"/home".to_vec(), Ok(Vec::new()));
    assert!(browser.navigate(b"/home/./docs/../music", Ok(Vec::new())));
    assert_eq!(browser.current_dir(), b"/home/music");
}

#[test]
fn navigating_drops_the_forward_history() {
    let mut browser = Browser::new(b"/a".to_vec(), Ok(Vec::new()));
    assert!(browser.navigate(b"/b", Ok(Vec::new())));
    assert!(browser.go_back(Ok(Vec::new())));
    assert!(browser.navigate(b"/c", Ok(Vec::new())));
    assert!(!browser.can_go_forward());
    assert!(browser.go_back(Ok(Vec::new())));
    assert_eq!(browser.current_dir(), b"/a");
}

#[test]
fn going_up_opens_the_parent() {
    let mut browser = Browser::new(b"/home/docs".to_vec(), Ok(Vec::new()));
    assert_eq!(browser.up_target(), Some(b"/home".to_vec()));
    assert!(browser.go_up(Ok(Vec::new())));
    assert_eq!(browser.current_dir(), b"/home");
    let root = Browser::new(b"/".to_vec(), Ok(Vec::new()));
    assert_eq!(root.up_target(), None);
}

#[test]
fn search_filters_names_ignoring_case() {
    let mut browser = Browser::new(
        b"/w".to_vec(),
        Ok(vec![
            entry("/w/Photos", "Photos", EntryKind::Directory),
            entry("/w/notes.md", "notes.md", EntryKind::Document),
            entry("/w/photo.PNG", "photo.PNG", EntryKind::Image),
        ]),
    );
    browser.select(b"/w/notes.md".to_vec());
    browser.push_search("PHO");
    assert_eq!(browser.search(), "PHO");
    assert_eq!(browser.selected(), None);
    assert_eq!(names(&browser), vec!["Photos".to_owned(), "photo.PNG".to_owned()]);
    browser.pop_search();
    assert_eq!(browser.search(), "PH");
    browser.clear_search();
    assert_eq!(names(&browser).len(), 3);
}

#[test]
fn relative_selection_is_clamped() {
    let mut browser = Browser::new(
        b"/w".to_vec(),
        Ok(vec![
            entry("/w/a", "a", EntryKind::Directory),
            entry("/w/b.txt", "b.txt", EntryKind::Document),
            entry("/w/c.txt", "c.txt", EntryKind::Document),
        ]),
    );
    browser.select_relative(-1);
    assert_eq!(browser.selected(), Some(&b"/w/c.txt"[..]));
    browser.select_relative(1);
    assert_eq!(browser.selected(), Some(&b"/w/c.txt"[..]));
    browser.select_relative(-5);
    assert_eq!(browser.selected(), Some(&b"/w/a"[..]));
    browser.clear_selection();
    browser.select_relative(1);
    assert_eq!(browser.selected(), Some(&b"/w/a"[..]));
    let mut empty = Browser::new(b"/e".to_vec(), Ok(Vec::new()));
    empty.select(b"/e/x".to_vec());
    empty.select_relative(1);
    assert_eq!(empty.selected(), None);
}

#[test]
fn only_folders_are_opened() {
    let mut browser = Browser::new(
        b"/w".to_vec(),
        Ok(vec![
            entry("/w/a", "a", EntryKind::Directory),
            entry("/w/b.txt", "b.txt", EntryKind::Document),
        ]),
    );
    browser.select(b"/w/b.txt".to_vec());
    assert_eq!(browser.open_target(), None);
    assert!(!browser.open_selected(Ok(Vec::new())));
    browser.select(b"/w/a".to_vec());
    assert_eq!(browser.open_target(), Some(b"/w/a".to_vec()));
    assert!(browser.open_selected(Ok(Vec::new())));
    assert_eq!(browser.current_dir(), b"/w/a");
}

#[test]
fn reading_errors_are_reported() {
    let mut browser = Browser::new(
        b"/w".to_vec(),
        Ok(vec![entry("/w/a", "a", EntryKind::Directory)]),
    );
    browser.select(b"/w/a".to_vec());
    browser.reload(Err("permission denied".to_owned()));
    assert_eq!(browser.error(), Some("Cannot read /w: permission denied"));
    assert_eq!(names(&browser).len(), 0);
    assert_eq!(browser.selected(), None);
    browser.set_operation_error("rename", b"/w/a", "busy");
    assert_eq!(browser.error(), Some("Cannot rename /w/a: busy"));
    browser.clear_error();
    assert_eq!(browser.error(), None);
}

#[test]
fn reloading_after_an_operation_selects_the_result() {
    let mut browser = Browser::new(b"/w".to_vec(), Ok(Vec::new()));
    browser.push_search("x");
    browser.report_error("old".to_owned());
    browser.reload_select(
        Ok(vec![entry("/w/New Folder", "New Folder", EntryKind::Directory)]),
        Some(b"/w/New Folder".to_vec()),
    );
    assert_eq!(browser.search(), "");
    assert_eq!(browser.error(), None);
    assert_eq!(browser.selected(), Some(&b"/w/New Folder"[..]));
}

#[test]
fn view_mode_can_be_switched() {
    let mut browser = Browser::new(b"/".to_vec(), Ok(Vec::new()));
    browser.set_view_mode(ViewMode::List);
    assert_eq!(browser.view_mode(), ViewMode::List);
}

#[test]
fn folder_search_tries_suffixes_in_turn() {
    assert_eq!(folder_search_step(1, false), FolderSearch::Create(1));
    assert_eq!(folder_search_step(1, true), FolderSearch::Next(2));
    assert_eq!(folder_search_step(u32::MAX, true), FolderSearch::NoName);
}

#[test]
fn typing_more_search_never_shows_more() {
    let mut browser = Browser::new(
        b"/w".to_vec(),
        Ok(vec![
            entry("/w/report.txt", "report.txt", EntryKind::Document),
            entry("/w/repo", "repo", EntryKind::Directory),
            entry("/w/notes", "notes", EntryKind::Document),
        ]),
    );
    browser.push_search("rep");
    let before = names(&browser);
    browser.push_search("ort");
    let after = names(&browser);
    assert_eq!(before, vec!["report.txt".to_owned(), "repo".to_owned()]);
    assert_eq!(after, vec!["report.txt".to_owned()]);
}

#[test]
fn the_selection_index_counts_visible_entries() {
    let mut browser = Browser::new(
        b"/w".to_vec(),
        Ok(vec![
            entry("/w/a", "a", EntryKind::Directory),
            entry("/w/b.txt", "b.txt", EntryKind::Document),
        ]),
    );
    assert_eq!(browser.selected_index(), None);
    browser.select(b"/w/b.txt".to_vec());
    assert_eq!(browser.selected_index(), Some(1));
    browser.push_search("b");
    browser.select(b"/w/b.txt".to_vec());
    assert_eq!(browser.selected_index(), Some(0));
    browser.clear_selection();
    browser.select_relative(isize::MAX);
    assert_eq!(browser.selected(), Some(&b"/w/b.txt"[..]));
}
