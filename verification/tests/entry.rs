use std::cmp::Ordering;

use mochios_files::entry::{classify, compare_entries, sort_entries, EntryKind, FileEntry};

#[test]
fn classifies_common_file_types() {
    assert_eq!(classify("Files.app", true), EntryKind::Application);
    assert_eq!(classify("Pictures", true), EntryKind::Directory);
    assert_eq!(classify("photo.PNG", false), EntryKind::Image);
    assert_eq!(classify("notes.md", false), EntryKind::Document);
    assert_eq!(classify("bundle.mpkg", false), EntryKind::Archive);
}

fn entry(name: &str, kind: EntryKind) -> FileEntry {
    FileEntry {
        path: format!("/w/{name}").into_bytes(),
        name: name.to_owned(),
        kind,
        size: 1,
        modified: "--".to_owned(),
    }
}

#[test]
fn kinds_have_labels_and_folders_sort_first() {
    assert_eq!(EntryKind::Directory.label(), "Folder");
    assert_eq!(EntryKind::Application.label(), "Application");
    assert_eq!(EntryKind::File.label(), "File");
    assert!(EntryKind::Application.sorts_as_directory());
    assert!(!EntryKind::Image.sorts_as_directory());
    assert!(entry("a", EntryKind::Directory).is_directory());
    assert!(!entry("a", EntryKind::Archive).is_directory());
}

#[test]
fn classification_covers_every_kind() {
    assert_eq!(classify("Tools.APP", true), EntryKind::Application);
    assert_eq!(classify("Tools.app", false), EntryKind::File);
    assert_eq!(classify("archive.tar.GZ", false), EntryKind::Archive);
    assert_eq!(classify("vector.svg", false), EntryKind::Image);
    assert_eq!(classify("log.log", false), EntryKind::Document);
    assert_eq!(classify("Makefile", false), EntryKind::File);
    assert_eq!(classify(".png", false), EntryKind::File);
}

#[test]
fn entries_compare_folders_first_then_by_name_ignoring_case() {
    let folder = entry("zeta", EntryKind::Directory);
    let file = entry("Alpha.txt", EntryKind::Document);
    assert_eq!(compare_entries(&folder, &file), Ordering::Less);
    assert_eq!(compare_entries(&file, &folder), Ordering::Greater);
    let lower = entry("beta", EntryKind::File);
    let upper = entry("Beta", EntryKind::File);
    assert_eq!(compare_entries(&lower, &upper), Ordering::Equal);
    assert_eq!(compare_entries(&file, &lower), Ordering::Less);
}

#[test]
fn sorting_is_stable_and_in_listing_order() {
    let sorted = sort_entries(vec![
        entry("b.txt", EntryKind::Document),
        entry("B.TXT", EntryKind::Document),
        entry("Apps.app", EntryKind::Application),
        entry("a.txt", EntryKind::Document),
        entry("zoo", EntryKind::Directory),
    ]);
    let names: Vec<&str> = sorted.iter().map(|e| e.name.as_str()).collect();
    assert_eq!(names, vec!["Apps.app", "zoo", "a.txt", "b.txt", "B.TXT"]);
}
