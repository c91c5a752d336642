use mochios_files::metadata::metadata_string;

#[test]
fn metadata_values_are_read_from_quoted_lines() {
    let about = "name = \"Editor\"\nbundle_id=\"org.example.Editor\"\nicon = \"icon.svg\"\n";
    assert_eq!(metadata_string(about, "bundle_id"), Some("org.example.Editor".to_owned()));
    assert_eq!(metadata_string(about, "icon"), Some("icon.svg".to_owned()));
    assert_eq!(metadata_string(about, "document_icon"), None);
}

#[test]
fn metadata_lines_without_quotes_are_skipped() {
    let about = "icon = plain\n  icon  =  \"second.png\"  \r\n";
    assert_eq!(metadata_string(about, "icon"), Some("second.png".to_owned()));
    assert_eq!(metadata_string("icon = \"open", "icon"), None);
    assert_eq!(metadata_string("", "icon"), None);
    assert_eq!(metadata_string("iconx = \"a\"", "icon"), None);
}
