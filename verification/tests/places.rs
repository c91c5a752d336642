use mochios_files::entry::{EntryKind, FileEntry};
use mochios_files::path::join_exec;
use mochios_files::places::{
    grid_title, has_parent, is_current_place, is_default_sidebar_path, sidebar_after_add,
    sidebar_after_remove, sidebar_items,
    uses_application_icon, SidebarIcon,
};
use mochios_files::sidebar::SidebarBookmarks;

const DEFAULT_SIDEBAR_DIRECTORIES: [&str; 6] =
    ["Desktop", "Documents", "Downloads", "Movies", "Music", "Pictures"];

#[test]
fn default_sidebar_uses_standard_home_directories_in_order() {
    let home: &[u8] = b"/home/tester";
    let items = sidebar_items(home, &SidebarBookmarks::default(), &[]);
    assert_eq!(
        items
            .iter()
            .map(|item| item.label.as_str())
            .collect::<Vec<_>>(),
        DEFAULT_SIDEBAR_DIRECTORIES
    );
    assert_eq!(items[0].path, join_exec(home, b"Desktop"));
    assert_eq!(items[5].path, join_exec(home, b"Pictures"));
}

#[test]
fn applications_use_application_icon() {
    let applications = FileEntry {
        path: b"/applications".to_vec(),
        name: "applications".to_owned(),
        kind: EntryKind::Directory,
        size: 0,
        modified: String::new(),
    };
    let app_bundle = FileEntry {
        path: b"/applications/Files.app".to_vec(),
        name: "Files.app".to_owned(),
        kind: EntryKind::Application,
        size: 0,
        modified: String::new(),
    };

    assert!(uses_application_icon(&applications));
    assert!(uses_application_icon(&app_bundle));
}

#[test]
fn bookmarks_follow_the_shown_standard_folders() {
    let home: &[u8] = b"/home/tester";
    let mut bookmarks = SidebarBookmarks::default();
    assert!(bookmarks.hide_default(b"/home/tester/Movies".to_vec()));
    assert!(bookmarks.add(b"/srv/Tools.APP".to_vec()));
    assert!(bookmarks.add(b"/srv/readme.txt".to_vec()));
    assert!(bookmarks.add(b"/home/tester/Music".to_vec()));
    let items = sidebar_items(home, &bookmarks, &[true, false, true]);
    let labels: Vec<&str> = items.iter().map(|item| item.label.as_str()).collect();
    assert_eq!(
        labels,
        vec!["Desktop", "Documents", "Downloads", "Music", "Pictures", "Tools.APP", "readme.txt"]
    );
    assert_eq!(items[5].icon, SidebarIcon::Application);
    assert_eq!(items[6].icon, SidebarIcon::File);
    assert_eq!(items[0].icon, SidebarIcon::Folder);
}

#[test]
fn standard_folders_are_recognized() {
    let home: &[u8] = b"/home/tester";
    assert!(is_default_sidebar_path(home, b"/home/tester/Music"));
    assert!(!is_default_sidebar_path(home, b"/home/tester/Other"));
    assert!(!is_default_sidebar_path(home, b"/home/other/Music"));
}

#[test]
fn adding_and_removing_places_updates_the_store() {
    let home: &[u8] = b"/home/tester";
    let bookmarks = SidebarBookmarks::default();
    let shown = sidebar_items(home, &bookmarks, &[]);
    assert!(sidebar_after_add(home, &shown, &bookmarks, b"/home/tester/Music").is_none());
    let added = sidebar_after_add(home, &shown, &bookmarks, b"/srv/project").unwrap();
    assert_eq!(added.paths(), &[b"/srv/project".to_vec()]);

    let hidden = sidebar_after_remove(home, &bookmarks, b"/home/tester/Music").unwrap();
    assert!(hidden.hides_default(b"/home/tester/Music"));
    assert!(sidebar_after_remove(home, &hidden, b"/home/tester/Music").is_none());
    let shown_after = sidebar_items(home, &hidden, &[]);
    assert_eq!(shown_after.len(), 5);
    let restored = sidebar_after_add(home, &shown_after, &hidden, b"/home/tester/Music").unwrap();
    assert!(!restored.hides_default(b"/home/tester/Music"));
    assert!(restored.paths().is_empty());

    let removed = sidebar_after_remove(home, &added, b"/srv/project").unwrap();
    assert!(removed.paths().is_empty());
    assert!(sidebar_after_remove(home, &removed, b"/srv/project").is_none());
}

#[test]
fn the_shown_place_is_highlighted() {
    assert!(is_current_place(b"/home/t/Music", None, b"/home/t/Music/", true));
    assert!(!is_current_place(b"/home/t", None, b"/home/t/Music", true));
    assert!(is_current_place(b"/srv", Some(b"/srv/notes.txt"), b"/srv/notes.txt", false));
    assert!(!is_current_place(b"/srv", None, b"/srv/notes.txt", false));
    assert!(!is_current_place(b"/other", Some(b"/srv/notes.txt"), b"/srv/notes.txt", false));
    assert!(has_parent(b"/srv"));
    assert!(!has_parent(b"/"));
    assert!(!has_parent(b""));
}

#[test]
fn grid_titles_name_the_directory() {
    assert_eq!(grid_title(b"/home/t", Some(b"/home/t"), None), "Home");
    assert_eq!(grid_title(b"/home/other", None, None), "Home");
    assert_eq!(grid_title(b"/preview", None, Some(b"/preview/")), "Home");
    assert_eq!(grid_title(b"/", None, None), "Computer");
    assert_eq!(grid_title(b"/srv/data", Some(b"/home/t"), None), "data");
    assert_eq!(grid_title(b"/srv/..", None, None), "Files");
}

#[test]
fn a_bookmarked_standard_folder_stays_after_hiding() {
    let home: &[u8] = b"/home/tester";
    let mut bookmarks = SidebarBookmarks::default();
    assert!(bookmarks.add(b"/home/tester/Music".to_vec()));
    let before = sidebar_items(home, &bookmarks, &[true]);
    assert_eq!(before.len(), 6);
    let hidden = sidebar_after_remove(home, &bookmarks, b"/home/tester/Music").unwrap();
    let after = sidebar_items(home, &hidden, &[true]);
    let labels: Vec<&str> = after.iter().map(|item| item.label.as_str()).collect();
    assert_eq!(labels, vec!["Desktop", "Documents", "Downloads", "Movies", "Pictures", "Music"]);
}

#[test]
fn an_added_place_is_shown_once() {
    let home: &[u8] = b"/home/tester";
    let bookmarks = SidebarBookmarks::default();
    let shown = sidebar_items(home, &bookmarks, &[]);
    let added = sidebar_after_add(home, &shown, &bookmarks, b"/srv/share").unwrap();
    let after = sidebar_items(home, &added, &[true]);
    assert_eq!(after.iter().filter(|item| item.path == b"/srv/share".to_vec()).count(), 1);
    assert!(sidebar_after_add(home, &after, &added, b"/srv/share/").is_none());
}
