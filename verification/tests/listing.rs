use mochios_files::entry::EntryKind;
use mochios_files::format::format_modified;
use mochios_files::listing::{build_listing, RawEntry, RawMetadata};

fn found(path: &str, name: &str, is_dir: bool, size: u64, modified: Option<u64>) -> RawEntry {
    RawEntry::Found {
        path: path.as_bytes().to_vec(),
        name: name.to_owned(),
        metadata: Ok(RawMetadata { is_dir, size, modified }),
    }
}

#[test]
fn listings_hide_dot_files_and_put_folders_first() {
    let raws = vec![
        found("/w/zeta.txt", "zeta.txt", false, 10, Some(0)),
        found("/w/.hidden", ".hidden", false, 1, None),
        found("/w/Beta", "Beta", true, 0, None),
        found("/w/alpha.md", "alpha.md", false, 3, None),
        found("/w/Tools.app", "Tools.app", true, 0, None),
    ];
    let entries = build_listing(&raws).unwrap();
    let names: Vec<&str> = entries.iter().map(|e| e.name.as_str()).collect();
    assert_eq!(names, vec!["Beta", "Tools.app", "alpha.md", "zeta.txt"]);
    assert_eq!(entries[1].kind, EntryKind::Application);
    assert_eq!(entries[3].modified, "01/01/1970 00:00");
    assert_eq!(entries[2].modified, "--");
    assert_eq!(entries[3].size, 10);
}

#[test]
fn listing_errors_are_passed_on() {
    let unreadable = vec![found("/w/a", "a", false, 0, None), RawEntry::Unreadable("io error".to_owned())];
    assert_eq!(build_listing(&unreadable).unwrap_err(), "io error");
    let bad_metadata = vec![RawEntry::Found {
        path: b"/w/b".to_vec(),
        name: "b".to_owned(),
        metadata: Err("stat failed".to_owned()),
    }];
    assert_eq!(build_listing(&bad_metadata).unwrap_err(), "stat failed");
    let hidden_bad = vec![RawEntry::Found {
        path: b"/w/.b".to_vec(),
        name: ".b".to_owned(),
        metadata: Err("stat failed".to_owned()),
    }];
    assert!(build_listing(&hidden_bad).unwrap().is_empty());
}

#[test]
fn modification_times_are_formatted() {
    assert_eq!(format_modified(0), "01/01/1970 00:00");
    assert_eq!(format_modified(20_000 * 86_400 + 13 * 3_600 + 5 * 60 + 59), "10/04/2024 13:05");
}
