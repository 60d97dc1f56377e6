use station_agg::aggregate::aggregate_stations;
use station_agg::table::{merge, StationTable};

#[test]
fn same_record_twice_doubles_count_and_sum() {
    let mut t = StationTable::new();
    t.add_record(b"S", 50);
    t.add_record(b"S", 50);
    assert_eq!(t.get(b"S"), Some((2, 100, 50, 50)));
    // A value inside the range moves neither extreme.
    t.add_record(b"S", 10);
    t.add_record(b"S", 10);
    assert_eq!(t.get(b"S"), Some((4, 120, 10, 50)));
    // A new extreme updates exactly one end.
    t.add_record(b"S", -100);
    assert_eq!(t.get(b"S"), Some((5, 20, -100, 50)));
    t.add_record(b"S", 999);
    assert_eq!(t.get(b"S"), Some((6, 1019, -100, 999)));
}

#[test]
fn fresh_table_is_empty() {
    let t = StationTable::new();
    assert_eq!(t.len(), 0);
    assert_eq!(t.get(b"S"), None);
    assert_eq!(t.rows(), vec![]);
}

#[test]
fn rows_list_every_station_once() {
    let t = aggregate_stations(b"b;1.0\na;2.0\nb;-4.0\n").unwrap();
    let mut rows = t.rows();
    rows.sort_by(|x, y| x.0.cmp(&y.0));
    assert_eq!(
        rows,
        vec![
            (b"a".to_vec(), (1, 20, 20, 20)),
            (b"b".to_vec(), (2, -30, -40, 10)),
        ]
    );
}

#[test]
fn merge_of_no_tables_is_empty() {
    let tables: Vec<StationTable> = Vec::new();
    let t = merge(&tables);
    assert_eq!(t.len(), 0);
}

#[test]
fn merge_combines_disjoint_and_shared_stations() {
    let a = aggregate_stations(b"x;1.0\nshared;-2.0\n").unwrap();
    let b = aggregate_stations(b"y;5.5\nshared;30.0\n").unwrap();
    let c = StationTable::new();
    let tables = vec![a, b, c];
    let t = merge(&tables);
    assert_eq!(t.len(), 3);
    assert_eq!(t.get(b"x"), Some((1, 10, 10, 10)));
    assert_eq!(t.get(b"y"), Some((1, 55, 55, 55)));
    assert_eq!(t.get(b"shared"), Some((2, 280, -20, 300)));
}

#[test]
fn merge_order_does_not_change_the_table() {
    let a = aggregate_stations(b"x;1.0\nshared;-2.0\n").unwrap();
    let b = aggregate_stations(b"y;5.5\nshared;30.0\n").unwrap();
    let ab = merge(&vec![
        aggregate_stations(b"x;1.0\nshared;-2.0\n").unwrap(),
        aggregate_stations(b"y;5.5\nshared;30.0\n").unwrap(),
    ]);
    let ba = merge(&vec![b, a]);
    for key in [b"x".as_slice(), b"y".as_slice(), b"shared".as_slice()] {
        assert_eq!(ab.get(key), ba.get(key));
    }
    assert_eq!(ab.len(), ba.len());
}

#[test]
fn many_stations_survive_the_backing_switch() {
    // halfbrown moves from its vector backend to hashing past 32 entries;
    // the table must behave the same on both sides of the switch.
    let mut t = StationTable::new();
    let mut names: Vec<Vec<u8>> = Vec::new();
    for i in 0..100usize {
        let name = format!("station-{i:03}").into_bytes();
        t.add_record(&name, (i as isize) - 50);
        names.push(name);
    }
    assert_eq!(t.len(), 100);
    for (i, name) in names.iter().enumerate() {
        let v = (i as isize) - 50;
        assert_eq!(t.get(name), Some((1, v as i128, v, v)));
    }
    let rows = t.rows();
    assert_eq!(rows.len(), 100);
    let mut seen: Vec<Vec<u8>> = rows.iter().map(|r| r.0.clone()).collect();
    seen.sort();
    let mut expected = names.clone();
    expected.sort();
    assert_eq!(seen, expected);
}
