use mochios_files::path::normalize_path;

#[test]
fn normalizes_parent_components_without_leaving_root() {
    assert_eq!(normalize_path(b"/system/../applications"), b"/applications".to_vec());
    assert_eq!(normalize_path(b"/../../tmp"), b"/tmp".to_vec());
}
