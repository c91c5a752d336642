use mochios_files::file_association::{
    content_type, handlers, looks_like_utf8_text, open, set_default,
};

#[test]
fn known_extensions_have_stable_content_types() {
    assert_eq!(content_type(b"document.json", None), "application/json");
    assert_eq!(content_type(b"document.toml", None), "application/toml");
    assert_eq!(content_type(b"README.md", None), "text/markdown");
    assert_eq!(content_type(b"main.rs", None), "text/x-rust");
}

#[test]
fn extensions_are_compared_without_case() {
    assert_eq!(content_type(b"/a/DATA.JSON", None), "application/json");
    assert_eq!(content_type(b"/a/build.Yml", None), "text/yaml");
    assert_eq!(content_type(b"/a/notes.txt", Some(&[0u8, 1u8])), "text/plain");
}

#[test]
fn unknown_files_are_sniffed() {
    assert_eq!(content_type(b"/a/README", Some(b"hello")), "text/plain");
    assert_eq!(content_type(b"/a/blob.bin", Some(&[0u8, 1u8, 2u8])), "application/octet-stream");
    assert_eq!(content_type(b"/a/blob.bin", Some(&[0xffu8, 0xfeu8])), "application/octet-stream");
    assert_eq!(content_type(b"/a/blob.bin", None), "application/octet-stream");
    assert_eq!(content_type(b"/a/empty", Some(b"")), "text/plain");
    assert!(looks_like_utf8_text("h\u{e9}llo".as_bytes()));
    assert!(!looks_like_utf8_text(b"a\0b"));
}

#[test]
fn application_launching_is_unavailable_here() {
    assert_eq!(
        open(b"/a/notes.txt", None),
        Err("Application launching is only available on mochiOS".to_owned())
    );
    assert_eq!(handlers(b"/a/notes.txt"), Ok(Vec::new()));
    assert_eq!(
        set_default(b"/a/notes.txt", "org.example.Editor"),
        Err("Default applications can only be changed on mochiOS".to_owned())
    );
}
