use station_agg::aggregate::aggregate_stations;
use station_agg::display::mean_tenths;
use station_agg::error::Error;
use station_agg::pipeline::run;
use station_agg::record::render_tenths;
use station_agg::table::StationTable;

const INPUT: &[u8] = b"Hamburg;12.0\nHamburg;-3.5\nBerlin;8.8\n";

fn format_table(t: &StationTable) -> String {
    let mut rows = t.rows();
    rows.sort_by(|a, b| a.0.cmp(&b.0));
    let mut out = String::from("{");
    let mut first = true;
    for (name, (count, sum, min, max)) in rows {
        if !first {
            out.push_str(", ");
        }
        first = false;
        out.push_str(std::str::from_utf8(&name).unwrap());
        out.push('=');
        out.push_str(std::str::from_utf8(&render_tenths(min)).unwrap());
        out.push('/');
        out.push_str(std::str::from_utf8(&render_tenths(mean_tenths(sum, count))).unwrap());
        out.push('/');
        out.push_str(std::str::from_utf8(&render_tenths(max)).unwrap());
    }
    out.push('}');
    out
}

#[test]
fn three_records_single_partition() {
    let t = run(INPUT, 1).unwrap();
    assert_eq!(t.len(), 2);
    assert_eq!(t.get(b"Hamburg"), Some((2, 85, -35, 120)));
    assert_eq!(t.get(b"Berlin"), Some((1, 88, 88, 88)));
    assert_eq!(t.get(b"Paris"), None);
    assert_eq!(
        format_table(&t),
        "{Berlin=8.8/8.8/8.8, Hamburg=-3.5/4.2/12.0}"
    );
}

#[test]
fn two_partitions_match_single_partition() {
    let whole = run(INPUT, 1).unwrap();
    let split = run(INPUT, 2).unwrap();
    assert_eq!(split.len(), 2);
    assert_eq!(split.get(b"Hamburg"), whole.get(b"Hamburg"));
    assert_eq!(split.get(b"Berlin"), whole.get(b"Berlin"));
    assert_eq!(format_table(&split), format_table(&whole));
}

#[test]
fn every_aligned_split_matches_single_partition() {
    // The terminator-aligned boundaries of the input are at 13 and 26.
    let whole = aggregate_stations(INPUT).unwrap();
    for cut in [13usize, 26] {
        let mut left = aggregate_stations(&INPUT[..cut]).unwrap();
        let right = aggregate_stations(&INPUT[cut..]).unwrap();
        left.merge_into(&right);
        assert_eq!(left.len(), whole.len());
        assert_eq!(left.get(b"Hamburg"), whole.get(b"Hamburg"));
        assert_eq!(left.get(b"Berlin"), whole.get(b"Berlin"));
    }
}

#[test]
fn single_line_file_cannot_make_two_partitions() {
    assert!(matches!(run(b"X;0.0\n", 2), Err(Error::Configuration)));
}

#[test]
fn negative_two_digit_record_aggregates() {
    let t = aggregate_stations(b"Y;-12.3\n").unwrap();
    assert_eq!(t.get(b"Y"), Some((1, -123, -123, -123)));
}

#[test]
fn empty_input_gives_empty_table() {
    let t = aggregate_stations(b"").unwrap();
    assert_eq!(t.len(), 0);
    let r = run(b"", 1).unwrap();
    assert_eq!(r.len(), 0);
}

#[test]
fn malformed_line_reports_its_offset() {
    match aggregate_stations(b"X;0.0\nbroken\nY;1.2\n") {
        Err(e) => assert_eq!(e, Error::MalformedRecord { offset: 6 }),
        Ok(_) => panic!("malformed input must not aggregate"),
    }
}

#[test]
fn unterminated_tail_reports_its_offset() {
    match aggregate_stations(b"X;0.0\nY;1.2") {
        Err(e) => assert_eq!(e, Error::MalformedRecord { offset: 6 }),
        Ok(_) => panic!("an unterminated tail must not aggregate"),
    }
}

#[test]
fn run_reports_absolute_offset_across_partitions() {
    // Two partitions; the bad line sits in the second one.
    let input = b"Hamburg;12.0\nHamburg;-3.5\nBerlin;8x8\n";
    match run(input, 2) {
        Err(e) => assert_eq!(e, Error::MalformedRecord { offset: 26 }),
        Ok(_) => panic!("malformed input must not aggregate"),
    }
}

#[test]
fn station_names_are_byte_exact() {
    let t = aggregate_stations(b"a;1.0\nA;2.0\na ;3.0\n").unwrap();
    assert_eq!(t.len(), 3);
    assert_eq!(t.get(b"a"), Some((1, 10, 10, 10)));
    assert_eq!(t.get(b"A"), Some((1, 20, 20, 20)));
    assert_eq!(t.get(b"a "), Some((1, 30, 30, 30)));
}
