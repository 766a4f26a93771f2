use relayburn_analyze::time::parse_iso_ms;

#[test]
fn instants_are_read_in_milliseconds() {
    assert_eq!(parse_iso_ms("1970-01-01T00:00:00.000Z"), Some(0));
    assert_eq!(parse_iso_ms("2026-04-20T00:00:03.000Z"), Some(1_776_643_203_000));
    assert_eq!(parse_iso_ms("not a date"), None);
    assert_eq!(parse_iso_ms(""), None);
}
