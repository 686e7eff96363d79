use yata_reader::clock::{civil, rfc3339};

#[test]
fn times_are_written_in_utc_to_the_second() {
    assert_eq!(rfc3339(0), "1970-01-01T00:00:00Z");
    assert_eq!(rfc3339(951_782_400), "2000-02-29T00:00:00Z");
    assert_eq!(rfc3339(1_700_000_000), "2023-11-14T22:13:20Z");
    assert_eq!(rfc3339(4_107_542_399), "2100-02-28T23:59:59Z");
    assert_eq!(rfc3339(4_107_542_400), "2100-03-01T00:00:00Z");
}

#[test]
fn a_date_is_split_into_its_fields() {
    let c = civil(86_400 * 365 + 3_661);
    assert_eq!((c.year, c.month, c.day), (1971, 1, 1));
    assert_eq!((c.hour, c.minute, c.second), (1, 1, 1));
}
