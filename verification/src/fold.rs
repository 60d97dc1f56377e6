//! Model of per-station aggregation and of merging aggregate tables.
//!
//! An aggregate is the quadruple `(count, sum, min, max)` of one station's
//! records, all temperatures in tenths of a degree. A table is a map from
//! station name to aggregate. Tables are built by a left fold over records
//! and combined by a commutative, associative join; the lemmas here tie the
//! fold of a concatenation to the join of the folds, which is what makes
//! partitioned aggregation agree with a single sequential pass.

use vstd::prelude::*;

verus! {

/// The smaller of two integers.
pub open spec fn min_int(a: int, b: int) -> int {
    if a <= b {
        a
    } else {
        b
    }
}

/// The larger of two integers.
pub open spec fn max_int(a: int, b: int) -> int {
    if a >= b {
        a
    } else {
        b
    }
}

/// A station's aggregate: `(count, sum, min, max)` over its records so far.
pub type AggModel = (int, int, int, int);

/// A table: per-station aggregates, station names as raw byte sequences.
pub type TableModel = Map<Seq<u8>, AggModel>;

/// The table with no stations.
pub open spec fn empty_table() -> TableModel {
    Map::empty()
}

/// The aggregate of a single record.
pub open spec fn agg_one(v: int) -> AggModel {
    (1, v, v, v)
}

/// One more record folded into an aggregate.
pub open spec fn agg_add(a: AggModel, v: int) -> AggModel {
    (a.0 + 1, a.1 + v, min_int(a.2, v), max_int(a.3, v))
}

/// Two aggregates of disjoint record multisets, combined.
pub open spec fn agg_join(a: AggModel, b: AggModel) -> AggModel {
    (a.0 + b.0, a.1 + b.1, min_int(a.2, b.2), max_int(a.3, b.3))
}

/// One record folded into a table: the station's first record starts its
/// aggregate, a later one extends it.
pub open spec fn fold_one(m: TableModel, name: Seq<u8>, v: int) -> TableModel {
    if m.dom().contains(name) {
        m.insert(name, agg_add(m[name], v))
    } else {
        m.insert(name, agg_one(v))
    }
}

/// The table of a record sequence: a left fold of `fold_one` starting from
/// the empty table.
pub open spec fn fold_records(rs: Seq<(Seq<u8>, int)>) -> TableModel
    decreases rs.len(),
{
    if rs.len() == 0 {
        Map::empty()
    } else {
        fold_one(fold_records(rs.drop_last()), rs.last().0, rs.last().1)
    }
}

/// Two tables merged: stations of either side, aggregates joined where both
/// sides know the station.
pub open spec fn merge_maps(a: TableModel, b: TableModel) -> TableModel {
    Map::new(
        |k: Seq<u8>| a.dom().contains(k) || b.dom().contains(k),
        |k: Seq<u8>|
            if a.dom().contains(k) && b.dom().contains(k) {
                agg_join(a[k], b[k])
            } else if b.dom().contains(k) {
                b[k]
            } else {
                a[k]
            },
    )
}

/// A sequence of tables merged left to right, starting from the empty table.
pub open spec fn merge_seq(ms: Seq<TableModel>) -> TableModel
    decreases ms.len(),
{
    if ms.len() == 0 {
        Map::empty()
    } else {
        merge_maps(merge_seq(ms.drop_last()), ms.last())
    }
}

/// Bounds on one aggregate: at least one and at most `bound` records went
/// in, the extremes are single-record temperatures, and the sum is bounded
/// by the extreme temperatures times the count.
pub open spec fn wf_agg(a: AggModel, bound: int) -> bool {
    &&& 1 <= a.0 <= bound
    &&& -999 <= a.2 <= a.3 <= 999
    &&& -999 * a.0 <= a.1 <= 999 * a.0
}

/// Every aggregate of the table is within bounds for `bound` records.
pub open spec fn wf_table(m: TableModel, bound: int) -> bool {
    forall|k: Seq<u8>| #[trigger] m.dom().contains(k) ==> wf_agg(m[k], bound)
}

/// Folding one in-range record keeps the table well formed, with one more
/// record accounted for.
pub proof fn lemma_fold_one_wf(m: TableModel, bound: int, name: Seq<u8>, v: int)
    requires
        wf_table(m, bound),
        -999 <= v <= 999,
        0 <= bound,
    ensures
        wf_table(fold_one(m, name, v), bound + 1),
{
    let m2 = fold_one(m, name, v);
    assert forall|k: Seq<u8>| #[trigger] m2.dom().contains(k) implies wf_agg(m2[k], bound + 1) by {
        if k == name {
            if m.dom().contains(name) {
                assert(wf_agg(m[name], bound));
            }
        } else {
            assert(m.dom().contains(k));
        }
    }
}

/// Joining two well-formed tables gives a well-formed table whose record
/// bound is the sum of the two.
pub proof fn lemma_merge_maps_wf(a: TableModel, ba: int, b: TableModel, bb: int)
    requires
        wf_table(a, ba),
        wf_table(b, bb),
        0 <= ba,
        0 <= bb,
    ensures
        wf_table(merge_maps(a, b), ba + bb),
{
    let m = merge_maps(a, b);
    assert forall|k: Seq<u8>| #[trigger] m.dom().contains(k) implies wf_agg(m[k], ba + bb) by {
        if a.dom().contains(k) && b.dom().contains(k) {
            assert(wf_agg(a[k], ba));
            assert(wf_agg(b[k], bb));
        } else if b.dom().contains(k) {
            assert(wf_agg(b[k], bb));
        } else {
            assert(wf_agg(a[k], ba));
        }
    }
}

/// Folding a record into the right-hand table commutes with merging: the
/// join of `a` with `b` plus one record is the join of `a` with `b`, plus
/// that record.
pub proof fn lemma_merge_fold_one(a: TableModel, b: TableModel, name: Seq<u8>, v: int)
    ensures
        merge_maps(a, fold_one(b, name, v)) == fold_one(merge_maps(a, b), name, v),
{
    assert(merge_maps(a, fold_one(b, name, v)) =~= fold_one(merge_maps(a, b), name, v));
}

/// Merging is commutative: the merged table does not depend on which side
/// a partial table came from.
pub proof fn lemma_merge_maps_comm(a: TableModel, b: TableModel)
    ensures
        merge_maps(a, b) == merge_maps(b, a),
{
    assert(merge_maps(a, b) =~= merge_maps(b, a));
}

/// Merging is associative: partial tables may be combined in any grouping
/// without changing the result.
pub proof fn lemma_merge_maps_assoc(a: TableModel, b: TableModel, c: TableModel)
    ensures
        merge_maps(merge_maps(a, b), c) == merge_maps(a, merge_maps(b, c)),
{
    assert(merge_maps(merge_maps(a, b), c) =~= merge_maps(a, merge_maps(b, c)));
}

/// The fold of concatenated record sequences is the join of their folds:
/// aggregating two chunks separately and merging gives exactly the table of
/// the one-pass aggregation.
pub proof fn lemma_fold_concat(r1: Seq<(Seq<u8>, int)>, r2: Seq<(Seq<u8>, int)>)
    ensures
        fold_records(r1 + r2) == merge_maps(fold_records(r1), fold_records(r2)),
    decreases r2.len(),
{
    if r2.len() == 0 {
        assert(r1 + r2 =~= r1);
        assert(merge_maps(fold_records(r1), Map::empty()) =~= fold_records(r1));
    } else {
        assert((r1 + r2).drop_last() =~= r1 + r2.drop_last());
        assert((r1 + r2).last() == r2.last());
        lemma_fold_concat(r1, r2.drop_last());
        lemma_merge_fold_one(fold_records(r1), fold_records(r2.drop_last()), r2.last().0, r2.last().1);
    }
}

/// Folding the same record twice doubles the station's count and sum over
/// the starting table, while min and max take the record's value in only
/// when it is a new extreme; after the first fold, the second one leaves
/// min and max untouched. Other stations are untouched throughout.
pub proof fn lemma_fold_twice(m: TableModel, name: Seq<u8>, v: int)
    ensures
        ({
            let once = fold_one(m, name, v);
            let twice = fold_one(once, name, v);
            &&& m.dom().contains(name) ==> twice[name] == (
                m[name].0 + 2,
                m[name].1 + 2 * v,
                min_int(m[name].2, v),
                max_int(m[name].3, v),
            )
            &&& !m.dom().contains(name) ==> twice[name] == (2int, 2 * v, v, v)
            &&& twice[name].2 == once[name].2
            &&& twice[name].3 == once[name].3
            &&& forall|k: Seq<u8>| k != name ==> twice.dom().contains(k) == m.dom().contains(k)
                && (#[trigger] twice.dom().contains(k) ==> twice[k] == m[k])
        }),
{
}

} // verus!
