use mochios_files::panel::{
    decode_hex, panel_start_directory, parse_u64, split_content_types, split_panel_argument,
};

#[test]
fn panel_arguments_are_split_and_decoded() {
    assert_eq!(
        split_panel_argument("--system-file-panel=42:0aFf:6869"),
        Some((42, vec![0x0a, 0xff], b"hi".to_vec()))
    );
    assert_eq!(split_panel_argument("--system-file-panel=+7::"), Some((7, Vec::new(), Vec::new())));
    assert_eq!(split_panel_argument("--other=1:00:00"), None);
    assert_eq!(split_panel_argument("--system-file-panel=1:00"), None);
    assert_eq!(split_panel_argument("--system-file-panel=x:00:00"), None);
    assert_eq!(split_panel_argument("--system-file-panel=1:0:00"), None);
    assert_eq!(split_panel_argument("--system-file-panel=1:00:00:00"), None);
}

#[test]
fn hex_and_decimal_fields() {
    assert_eq!(decode_hex(""), Some(Vec::new()));
    assert_eq!(decode_hex("00ff7A"), Some(vec![0x00, 0xff, 0x7a]));
    assert_eq!(decode_hex("abc"), None);
    assert_eq!(decode_hex("zz"), None);
    assert_eq!(parse_u64(b"18446744073709551615"), Some(u64::MAX));
    assert_eq!(parse_u64(b"18446744073709551616"), None);
    assert_eq!(parse_u64(b"+12"), Some(12));
    assert_eq!(parse_u64(b"+"), None);
    assert_eq!(parse_u64(b""), None);
    assert_eq!(parse_u64(b"-1"), None);
    assert_eq!(parse_u64(b"1 "), None);
}

#[test]
fn content_type_lists_drop_empty_pieces() {
    assert_eq!(
        split_content_types("public.text\u{1f}\u{1f}public.image\u{1f}"),
        vec!["public.text".to_owned(), "public.image".to_owned()]
    );
    assert!(split_content_types("").is_empty());
    assert_eq!(split_content_types("one"), vec!["one".to_owned()]);
}

#[test]
fn panels_open_in_an_existing_folder() {
    assert_eq!(panel_start_directory(b"/req", true, Some(b"/home/u"), true), b"/req".to_vec());
    assert_eq!(panel_start_directory(b"/req", false, Some(b"/home/u"), true), b"/home/u".to_vec());
    assert_eq!(panel_start_directory(b"/req", false, Some(b"/home/u"), false), b"/".to_vec());
    assert_eq!(panel_start_directory(b"/req", false, None, false), b"/".to_vec());
}
