use mochios_files::sidebar::{
    read_u32, storage_path, valid_user_name, SidebarBookmarks, SidebarError,
};

const MAGIC: &[u8] = b"MOCHIOS-FILES-SIDEBAR\0\x01";

#[test]
fn binary_format_round_trips_unicode_and_non_utf8_paths() {
    let mut bookmarks = SidebarBookmarks::default();
    assert!(bookmarks.add("/home/test/Documents/設計".as_bytes().to_vec()));
    assert!(bookmarks.add(vec![b'/', b't', b'm', b'p', b'/', 0x80]));

    assert_eq!(
        SidebarBookmarks::decode(&bookmarks.encode().unwrap()).unwrap(),
        bookmarks
    );
}

#[test]
fn decode_rejects_relative_truncated_and_trailing_data() {
    let relative = SidebarBookmarks {
        paths: vec![b"relative".to_vec()],
        hidden_defaults: Vec::new(),
    };
    assert!(relative.encode().is_err());

    let mut valid = SidebarBookmarks {
        paths: vec![b"/absolute".to_vec()],
        hidden_defaults: Vec::new(),
    }
    .encode()
    .unwrap();
    assert!(SidebarBookmarks::decode(&valid[..valid.len() - 1]).is_err());
    valid.push(0);
    assert!(SidebarBookmarks::decode(&valid).is_err());
}

#[test]
fn duplicate_bookmarks_are_rejected_by_add_and_deduplicated_by_decode() {
    let mut bookmarks = SidebarBookmarks::default();
    assert!(bookmarks.add(b"/home/test/Desktop".to_vec()));
    assert!(!bookmarks.add(b"/home/test/Desktop".to_vec()));

    let raw_path = b"/home/test/Desktop";
    let mut bytes = MAGIC.to_vec();
    bytes.extend_from_slice(&2u32.to_le_bytes());
    for _ in 0..2 {
        bytes.extend_from_slice(&(raw_path.len() as u32).to_le_bytes());
        bytes.extend_from_slice(raw_path);
    }
    bytes.extend_from_slice(&0u32.to_le_bytes());
    assert_eq!(SidebarBookmarks::decode(&bytes).unwrap().paths().len(), 1);
}

#[test]
fn custom_bookmarks_can_be_removed() {
    let path = b"/home/test/Documents/project".to_vec();
    let mut bookmarks = SidebarBookmarks::default();
    assert!(bookmarks.add(path.clone()));
    assert!(bookmarks.remove(&path));
    assert!(!bookmarks.remove(&path));
    assert!(bookmarks.paths().is_empty());
}

#[test]
fn default_bookmarks_can_be_hidden_and_restored() {
    let path = b"/home/test/Desktop".to_vec();
    let mut bookmarks = SidebarBookmarks::default();
    assert!(bookmarks.hide_default(path.clone()));
    assert!(bookmarks.hides_default(&path));
    assert!(bookmarks.restore_default(&path));
    assert!(!bookmarks.hides_default(&path));
}

#[test]
fn user_name_cannot_escape_application_storage() {
    assert!(valid_user_name("test-user_1"));
    assert!(!valid_user_name("../root"));
    assert!(!valid_user_name("user/name"));
}

#[test]
fn every_decoding_error_is_named() {
    assert_eq!(SidebarBookmarks::decode(b"nope"), Err(SidebarError::InvalidHeader));
    assert_eq!(SidebarBookmarks::decode(MAGIC), Err(SidebarError::Truncated));

    let mut too_many = MAGIC.to_vec();
    too_many.extend_from_slice(&129u32.to_le_bytes());
    assert_eq!(SidebarBookmarks::decode(&too_many), Err(SidebarError::TooManySaved));

    let mut zero_length = MAGIC.to_vec();
    zero_length.extend_from_slice(&1u32.to_le_bytes());
    zero_length.extend_from_slice(&0u32.to_le_bytes());
    assert_eq!(SidebarBookmarks::decode(&zero_length), Err(SidebarError::InvalidLength));

    let mut past_end = MAGIC.to_vec();
    past_end.extend_from_slice(&1u32.to_le_bytes());
    past_end.extend_from_slice(&10u32.to_le_bytes());
    past_end.extend_from_slice(b"/a");
    assert_eq!(SidebarBookmarks::decode(&past_end), Err(SidebarError::InvalidLength));

    let mut relative = MAGIC.to_vec();
    relative.extend_from_slice(&1u32.to_le_bytes());
    relative.extend_from_slice(&1u32.to_le_bytes());
    relative.extend_from_slice(b"a");
    assert_eq!(SidebarBookmarks::decode(&relative), Err(SidebarError::NotAbsolute));

    let mut trailing = MAGIC.to_vec();
    trailing.extend_from_slice(&0u32.to_le_bytes());
    trailing.extend_from_slice(&0u32.to_le_bytes());
    assert_eq!(SidebarBookmarks::decode(&trailing), Ok(SidebarBookmarks::default()));
    trailing.push(7);
    assert_eq!(SidebarBookmarks::decode(&trailing), Err(SidebarError::TrailingData));
    assert_eq!(SidebarError::TrailingData.message(), "trailing sidebar bookmark data");
}

#[test]
fn encoding_rejects_invalid_paths() {
    let empty = SidebarBookmarks { paths: vec![Vec::new()], hidden_defaults: Vec::new() };
    assert_eq!(empty.encode(), Err(SidebarError::InvalidPath));
    let long = SidebarBookmarks {
        paths: Vec::new(),
        hidden_defaults: vec![[b"/".to_vec(), vec![b'a'; 4096]].concat()],
    };
    assert_eq!(long.encode(), Err(SidebarError::InvalidPath));
}

#[test]
fn the_encoding_is_the_documented_layout() {
    let bookmarks = SidebarBookmarks {
        paths: vec![b"/a".to_vec()],
        hidden_defaults: vec![b"/h/Music".to_vec()],
    };
    let mut expected = MAGIC.to_vec();
    expected.extend_from_slice(&1u32.to_le_bytes());
    expected.extend_from_slice(&2u32.to_le_bytes());
    expected.extend_from_slice(b"/a");
    expected.extend_from_slice(&1u32.to_le_bytes());
    expected.extend_from_slice(&8u32.to_le_bytes());
    expected.extend_from_slice(b"/h/Music");
    assert_eq!(bookmarks.encode(), Ok(expected));
}

#[test]
fn the_store_holds_at_most_the_bookmark_limit() {
    let mut bookmarks = SidebarBookmarks::default();
    for i in 0..128u32 {
        assert!(bookmarks.add(format!("/b/{i}").into_bytes()));
    }
    assert!(!bookmarks.add(b"/b/extra".to_vec()));
    assert_eq!(bookmarks.paths().len(), 128);
    assert!(bookmarks.contains(b"/b/7"));
    assert!(!bookmarks.contains(b"/b/extra"));
}

#[test]
fn storage_lives_under_the_user_directory() {
    assert_eq!(
        storage_path(b"/data/files", "tester"),
        Some(b"/data/files/tester/sidebar-v1".to_vec())
    );
    assert_eq!(storage_path(b"/data/files", "../root"), None);
    assert_eq!(storage_path(b"/data/files", ""), None);
    assert!(!valid_user_name(&"a".repeat(65)));
    assert!(valid_user_name(&"a".repeat(64)));
}

#[test]
fn read_u32_reads_little_endian_and_advances() {
    let bytes = [1u8, 2, 0, 0, 9];
    let mut cursor = 0usize;
    assert_eq!(read_u32(&bytes, &mut cursor), Ok(0x0201));
    assert_eq!(cursor, 4);
    assert_eq!(read_u32(&bytes, &mut cursor), Err(SidebarError::Truncated));
}
