use nota::note::parse_timestamp;
use nota::time::{iso_timestamp, now_timestamp};

#[test]
fn iso_timestamp_renders_parsed_time() {
    let dt = parse_timestamp("2024-03-05T07:08:09").unwrap();
    assert_eq!(iso_timestamp(&dt), "2024-03-05T07:08:09");
}

#[test]
fn iso_timestamp_pads_small_years() {
    let dt = parse_timestamp("0042-12-31T23:59:00").unwrap();
    assert_eq!(iso_timestamp(&dt), "0042-12-31T23:59:00");
}

#[test]
fn now_timestamp_has_note_form_and_parses_back() {
    let now = now_timestamp();
    assert_eq!(now.len(), 19);
    assert_eq!(&now[10..11], "T");
    let dt = parse_timestamp(&now).unwrap();
    assert_eq!(iso_timestamp(&dt), now);
}
