use qracer::timestamp::{
    civil_from_unix_days, export_svg_file_name, format_export_timestamp, timestamp_from_unix_seconds,
};

#[test]
fn civil_dates_around_the_epoch() {
    assert_eq!(civil_from_unix_days(0), (1970, 1, 1));
    assert_eq!(civil_from_unix_days(-1), (1969, 12, 31));
    assert_eq!(civil_from_unix_days(19723), (2024, 1, 1));
    assert_eq!(civil_from_unix_days(11016), (2000, 2, 29));
    assert_eq!(civil_from_unix_days(-719468), (0, 3, 1));
    assert_eq!(civil_from_unix_days(-25508), (1900, 3, 1));
}

#[test]
fn timestamps_are_zero_padded() {
    assert_eq!(format_export_timestamp(2024, 1, 2, 3, 4, 5), "20240102030405");
    assert_eq!(format_export_timestamp(5, 12, 31, 23, 59, 59), "00051231235959");
    assert_eq!(format_export_timestamp(-5, 1, 1, 0, 0, 0), "-005" .to_owned() + "0101000000");
    assert_eq!(format_export_timestamp(12345, 1, 1, 0, 0, 0), "123450101000000");
}

#[test]
fn unix_seconds_to_file_names() {
    assert_eq!(timestamp_from_unix_seconds(0), "19700101000000");
    assert_eq!(timestamp_from_unix_seconds(1_700_000_000), "20231114221320");
    assert_eq!(export_svg_file_name(86_399), "19700101235959.svg");
}
