use mochios_files::calendar::civil_from_days;

#[test]
fn converts_unix_epoch_date() {
    assert_eq!(civil_from_days(0), (1970, 1, 1));
    assert_eq!(civil_from_days(20_000), (2024, 10, 4));
}
