use station_agg::error::Error;
use station_agg::partition::partition;

const INPUT: &[u8] = b"Hamburg;12.0\nHamburg;-3.5\nBerlin;8.8\n";

#[test]
fn single_partition_covers_everything() {
    assert_eq!(partition(INPUT, 1), Ok(vec![(0, 37)]));
    assert_eq!(partition(b"", 1), Ok(vec![(0, 0)]));
}

#[test]
fn two_partitions_cut_after_a_terminator() {
    // division 18, first terminator at or after offset 18 is at 25.
    assert_eq!(partition(INPUT, 2), Ok(vec![(0, 26), (26, 37)]));
}

#[test]
fn three_partitions_cut_after_terminators() {
    // division 12; terminators at or after 12 and 24 are at 12 and 25.
    assert_eq!(partition(INPUT, 3), Ok(vec![(0, 13), (13, 26), (26, 37)]));
}

#[test]
fn partitions_cover_contiguously_and_align() {
    for parts in 1..=3usize {
        let cuts = partition(INPUT, parts).unwrap();
        assert_eq!(cuts.len(), parts);
        assert_eq!(cuts[0].0, 0);
        assert_eq!(cuts[cuts.len() - 1].1, INPUT.len());
        for w in cuts.windows(2) {
            assert_eq!(w[0].1, w[1].0);
        }
        for c in &cuts[1..] {
            assert_eq!(INPUT[c.0 - 1], b'\n');
        }
        for c in &cuts {
            assert!(c.0 < c.1);
        }
    }
}

#[test]
fn too_many_partitions_for_one_line() {
    assert_eq!(partition(b"X;0.0\n", 2), Err(Error::Configuration));
}

#[test]
fn too_many_partitions_for_three_lines() {
    // Four partitions over three records cannot all be nonempty.
    assert_eq!(partition(INPUT, 12), Err(Error::Configuration));
}

#[test]
fn empty_input_cannot_be_split() {
    assert_eq!(partition(b"", 2), Err(Error::Configuration));
}
