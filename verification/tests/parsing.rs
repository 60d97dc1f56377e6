use station_agg::display::mean_tenths;
use station_agg::record::{parse, parse_record, render_tenths};

#[test]
fn parses_positive_one_digit() {
    assert_eq!(parse(b"Hamburg;8.8"), Some((7, 88)));
}

#[test]
fn parses_positive_two_digits() {
    assert_eq!(parse(b"Hamburg;12.0"), Some((7, 120)));
}

#[test]
fn parses_negative_one_digit() {
    assert_eq!(parse(b"Hamburg;-3.5"), Some((7, -35)));
}

#[test]
fn parses_negative_two_digits() {
    // A negative two-digit value parses to the station name and -123 tenths.
    assert_eq!(parse(b"Y;-12.3"), Some((1, -123)));
    let (name, v) = parse_record(b"Y;-12.3").unwrap();
    assert_eq!(name, b"Y");
    assert_eq!(v, -123);
}

#[test]
fn parses_empty_name() {
    assert_eq!(parse(b";0.0"), Some((0, 0)));
}

#[test]
fn parses_extremes() {
    assert_eq!(parse(b"a;99.9"), Some((1, 999)));
    assert_eq!(parse(b"a;-99.9"), Some((1, -999)));
}

#[test]
fn rejects_malformed_suffixes() {
    assert_eq!(parse(b""), None);
    assert_eq!(parse(b"a;9"), None);
    assert_eq!(parse(b"a;9.x"), None);
    assert_eq!(parse(b"a;9x9"), None);
    assert_eq!(parse(b"ab9.9"), None);
    assert_eq!(parse(b"-9.9"), None);
    assert_eq!(parse(b"a;-123.9"), None);
    assert_eq!(parse(b"8.8"), None);
}

#[test]
fn renders_canonical_forms() {
    assert_eq!(render_tenths(0), b"0.0".to_vec());
    assert_eq!(render_tenths(88), b"8.8".to_vec());
    assert_eq!(render_tenths(120), b"12.0".to_vec());
    assert_eq!(render_tenths(-35), b"-3.5".to_vec());
    assert_eq!(render_tenths(-3), b"-0.3".to_vec());
    assert_eq!(render_tenths(999), b"99.9".to_vec());
    assert_eq!(render_tenths(-999), b"-99.9".to_vec());
}

#[test]
fn render_parse_round_trip_all_values() {
    // Every value in tenths from -999 to 999 survives a render and a parse.
    let mut v: isize = -999;
    while v <= 999 {
        let mut line: Vec<u8> = b"Station X".to_vec();
        line.push(b';');
        line.extend_from_slice(&render_tenths(v));
        let (name, back) = parse_record(&line).expect("rendered value must parse");
        assert_eq!(name, b"Station X");
        assert_eq!(back, v);
        v += 1;
    }
}

#[test]
fn mean_rounding_matches_display_rule() {
    // floor(sum/count + 0.49), all in tenths.
    assert_eq!(mean_tenths(85, 2), 42);
    assert_eq!(mean_tenths(88, 1), 88);
    assert_eq!(mean_tenths(-35, 1), -35);
    assert_eq!(mean_tenths(-5, 2), -3);
    assert_eq!(mean_tenths(5, 2), 2);
    assert_eq!(mean_tenths(0, 3), 0);
    assert_eq!(mean_tenths(999, 1), 999);
    assert_eq!(mean_tenths(-999, 1), -999);
    assert_eq!(mean_tenths(1, 3), 0);
    assert_eq!(mean_tenths(-1, 3), 0);
    assert_eq!(mean_tenths(-2, 3), -1);
}
