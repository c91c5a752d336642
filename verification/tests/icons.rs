use mochios_files::entry::{EntryKind, FileEntry};
use mochios_files::icons::{document_icon_key, entry_icon, requested_extensions};
use mochios_files::places::SidebarIcon;

fn entry(path: &[u8], kind: EntryKind) -> FileEntry {
    FileEntry {
        path: path.to_vec(),
        name: String::from_utf8_lossy(path).into_owned(),
        kind,
        size: 0,
        modified: String::new(),
    }
}

#[test]
fn entries_get_kind_icons() {
    assert_eq!(entry_icon(&entry(b"/applications", EntryKind::Directory)), SidebarIcon::Application);
    assert_eq!(entry_icon(&entry(b"/a/X.app", EntryKind::Application)), SidebarIcon::Application);
    assert_eq!(entry_icon(&entry(b"/a/docs", EntryKind::Directory)), SidebarIcon::Folder);
    assert_eq!(entry_icon(&entry(b"/a/p.png", EntryKind::Image)), SidebarIcon::File);
}

#[test]
fn document_icons_are_found_by_lower_case_extension() {
    assert_eq!(document_icon_key(b"/a/Report.PDF"), Some(b"pdf".to_vec()));
    assert_eq!(document_icon_key(b"/a/Makefile"), None);
    assert_eq!(document_icon_key(b"/a/x.\xff"), None);
}

#[test]
fn requested_extensions_are_sorted_and_unique() {
    let entries = vec![
        entry(b"/a/b.TXT", EntryKind::Document),
        entry(b"/a/dir.png", EntryKind::Directory),
        entry(b"/a/a.md", EntryKind::Document),
        entry(b"/a/c.txt", EntryKind::Document),
        entry(b"/a/none", EntryKind::File),
        entry(b"/a/z.Md", EntryKind::Document),
    ];
    assert_eq!(requested_extensions(&entries), vec![b"md".to_vec(), b"txt".to_vec()]);
    assert!(requested_extensions(&Vec::new()).is_empty());
}
