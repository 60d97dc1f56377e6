//! The whole pipeline, and the law that ties it together: aggregating a
//! buffer partition by partition and merging gives exactly the table of one
//! sequential pass.

use vstd::prelude::*;
use vstd::slice::slice_subrange;

use crate::aggregate::aggregate_stations;
use crate::error::Error;
use crate::fold::{
    fold_records, merge_seq, TableModel, lemma_fold_concat,
};
use crate::model::{records_from, spec_records, lemma_records_split, NL};
use crate::partition::{partition, partition_ok};
use crate::table::{merge, sum_records, views_of, StationTable, lemma_sum_records_prefix};

verus! {

/// A record-aligned cut list over `s`: at least one cut, starting at offset
/// zero, ending at the buffer length, contiguous, and with every internal
/// boundary one byte past a line terminator.
pub open spec fn cuts_ok(s: Seq<u8>, cuts: Seq<(int, int)>) -> bool {
    &&& cuts.len() >= 1
    &&& cuts[0].0 == 0
    &&& cuts[cuts.len() - 1].1 == s.len()
    &&& forall|i: int| 0 <= i < cuts.len() ==> 0 <= (#[trigger] cuts[i]).0 <= cuts[i].1 <= s.len()
    &&& forall|i: int| 0 <= i < cuts.len() - 1 ==> (#[trigger] cuts[i]).1 == cuts[i + 1].0
    &&& forall|i: int| 1 <= i < cuts.len() ==> 1 <= (#[trigger] cuts[i]).0 && s[cuts[i].0 - 1]
        == NL
}

/// One cut's bytes.
pub open spec fn chunk_of(s: Seq<u8>, c: (int, int)) -> Seq<u8> {
    s.subrange(c.0, c.1)
}

/// One cut's records, taken from a successful scan.
pub open spec fn chunk_recs(s: Seq<u8>, c: (int, int)) -> Seq<(Seq<u8>, int)> {
    spec_records(chunk_of(s, c))->Ok_0
}

/// The records of the cuts from `k` on, concatenated in order.
pub open spec fn tail_records(s: Seq<u8>, cuts: Seq<(int, int)>, k: int) -> Seq<(Seq<u8>, int)>
    decreases cuts.len() - k,
{
    if k < 0 || k >= cuts.len() {
        Seq::empty()
    } else {
        chunk_recs(s, cuts[k]) + tail_records(s, cuts, k + 1)
    }
}

/// Each cut's aggregate table, in cut order.
pub open spec fn chunk_tables(s: Seq<u8>, cuts: Seq<(int, int)>) -> Seq<TableModel> {
    Seq::new(cuts.len(), |i: int| fold_records(chunk_recs(s, cuts[i])))
}

/// The start offset of cut `k`, the buffer length once the cuts are spent.
pub open spec fn cut_start(s: Seq<u8>, cuts: Seq<(int, int)>, k: int) -> int {
    if k >= cuts.len() {
        s.len() as int
    } else {
        cuts[k].0
    }
}

/// When every cut from `k` on scans cleanly, the scan of `s` from cut `k`'s
/// start yields exactly those cuts' records, concatenated.
pub proof fn lemma_records_of_partition(s: Seq<u8>, cuts: Seq<(int, int)>, k: int)
    requires
        cuts_ok(s, cuts),
        0 <= k <= cuts.len(),
        forall|i: int| k <= i < cuts.len() ==> spec_records(chunk_of(s, #[trigger] cuts[i])) is Ok,
    ensures
        records_from(s, cut_start(s, cuts, k)) == Ok::<Seq<(Seq<u8>, int)>, int>(
            tail_records(s, cuts, k),
        ),
    decreases cuts.len() - k,
{
    if k == cuts.len() {
        assert(tail_records(s, cuts, k) =~= Seq::<(Seq<u8>, int)>::empty());
    } else {
        let a = cuts[k].0;
        let b = cuts[k].1;
        lemma_records_split(s, a, b);
        lemma_records_of_partition(s, cuts, k + 1);
        assert(cut_start(s, cuts, k + 1) == b);
        assert(records_from(s, a) == Ok::<Seq<(Seq<u8>, int)>, int>(
            chunk_recs(s, cuts[k]) + tail_records(s, cuts, k + 1),
        ));
    }
}

/// A failing cut after clean ones fails the whole scan, at the same byte:
/// the cut's start plus the offset within the cut.
pub proof fn lemma_records_of_partition_err(s: Seq<u8>, cuts: Seq<(int, int)>, k: int, f: int)
    requires
        cuts_ok(s, cuts),
        0 <= k <= f < cuts.len(),
        forall|i: int| k <= i < f ==> spec_records(chunk_of(s, #[trigger] cuts[i])) is Ok,
        spec_records(chunk_of(s, cuts[f])) is Err,
    ensures
        records_from(s, cuts[k].0) == Err::<Seq<(Seq<u8>, int)>, int>(
            cuts[f].0 + spec_records(chunk_of(s, cuts[f]))->Err_0,
        ),
    decreases f - k,
{
    let a = cuts[k].0;
    let b = cuts[k].1;
    lemma_records_split(s, a, b);
    if k == f {
    } else {
        lemma_records_of_partition_err(s, cuts, k + 1, f);
    }
}

/// Concatenated cut records, split at the last cut.
proof fn lemma_tail_records_snoc(s: Seq<u8>, cuts: Seq<(int, int)>, k: int)
    requires
        cuts.len() >= 1,
        0 <= k <= cuts.len() - 1,
    ensures
        tail_records(s, cuts, k) == tail_records(s, cuts.drop_last(), k) + chunk_recs(
            s,
            cuts.last(),
        ),
    decreases cuts.len() - k,
{
    let head = cuts.drop_last();
    if k == cuts.len() - 1 {
        assert(tail_records(s, cuts, k + 1) == Seq::<(Seq<u8>, int)>::empty());
        assert(tail_records(s, cuts, k) =~= chunk_recs(s, cuts[k]));
        assert(tail_records(s, head, k) =~= Seq::<(Seq<u8>, int)>::empty());
        assert(tail_records(s, head, k) + chunk_recs(s, cuts.last()) =~= chunk_recs(s, cuts[k]));
    } else {
        lemma_tail_records_snoc(s, cuts, k + 1);
        assert(head[k] == cuts[k]);
        assert(chunk_recs(s, cuts[k]) + (tail_records(s, head, k + 1) + chunk_recs(s, cuts.last()))
            =~= (chunk_recs(s, cuts[k]) + tail_records(s, head, k + 1)) + chunk_recs(
            s,
            cuts.last(),
        ));
    }
}

/// The fold of all the cuts' records is the merge of the per-cut tables.
pub proof fn lemma_fold_of_partition(s: Seq<u8>, cuts: Seq<(int, int)>)
    ensures
        fold_records(tail_records(s, cuts, 0)) == merge_seq(chunk_tables(s, cuts)),
    decreases cuts.len(),
{
    if cuts.len() == 0 {
        assert(tail_records(s, cuts, 0) =~= Seq::<(Seq<u8>, int)>::empty());
    } else {
        let head = cuts.drop_last();
        lemma_tail_records_snoc(s, cuts, 0);
        lemma_fold_concat(tail_records(s, head, 0), chunk_recs(s, cuts.last()));
        lemma_fold_of_partition(s, head);
        assert(chunk_tables(s, cuts).drop_last() =~= chunk_tables(s, head));
        assert(chunk_tables(s, cuts).last() == fold_records(chunk_recs(s, cuts.last())));
    }
}

/// Merge agreement: over any record-aligned cut list whose every cut scans
/// cleanly, the whole buffer scans cleanly, its records are the cuts'
/// records in order, and the one-pass table equals the merge of the per-cut
/// tables — whatever the cut count and wherever the aligned boundaries lie.
pub proof fn lemma_partition_aggregate(s: Seq<u8>, cuts: Seq<(int, int)>)
    requires
        cuts_ok(s, cuts),
        forall|i: int| 0 <= i < cuts.len() ==> spec_records(chunk_of(s, #[trigger] cuts[i])) is Ok,
    ensures
        spec_records(s) is Ok,
        spec_records(s)->Ok_0 == tail_records(s, cuts, 0),
        fold_records(spec_records(s)->Ok_0) == merge_seq(chunk_tables(s, cuts)),
{
    lemma_records_of_partition(s, cuts, 0);
    lemma_fold_of_partition(s, cuts);
}

/// Run the whole pipeline sequentially: split the buffer into `parts`
/// record-aligned partitions, aggregate each, and merge the partial tables.
/// The outcome is exactly the one-pass scan's: the merged table of a clean
/// buffer, the configuration error when the split is infeasible, and the
/// malformed-record error, at the offending line's absolute byte offset,
/// when a partition's scan fails.
pub fn run(bytes: &[u8], parts: usize) -> (r: Result<StationTable, Error>)
    requires
        1 <= parts,
    ensures
        match r {
            Ok(t) => {
                &&& partition_ok(bytes@, parts as int)
                &&& spec_records(bytes@) is Ok
                &&& t@ == fold_records(spec_records(bytes@)->Ok_0)
                &&& t.inv()
            },
            Err(e) => match e {
                Error::Configuration => !partition_ok(bytes@, parts as int),
                Error::MalformedRecord { offset } => {
                    &&& partition_ok(bytes@, parts as int)
                    &&& spec_records(bytes@) is Err
                    &&& offset == spec_records(bytes@)->Err_0
                },
            },
        },
{
    let cuts = match partition(bytes, parts) {
        Ok(v) => v,
        Err(_) => {
            return Err(Error::Configuration);
        },
    };
    let ghost icuts: Seq<(int, int)> = Seq::new(
        cuts@.len(),
        |i: int| (cuts@[i].0 as int, cuts@[i].1 as int),
    );
    proof {
        assert(cuts_ok(bytes@, icuts));
    }
    let n = cuts.len();
    let mut tables: Vec<StationTable> = Vec::new();
    let mut j: usize = 0;
    while j < n
        invariant
            0 <= j <= n,
            n == cuts@.len(),
            n == icuts.len(),
            1 <= parts,
            n == parts,
            bytes@.len() <= usize::MAX,
            partition_ok(bytes@, parts as int),
            cuts_ok(bytes@, icuts),
            forall|i: int| 0 <= i < n ==> #[trigger] icuts[i] == (
                cuts@[i].0 as int,
                cuts@[i].1 as int,
            ),
            tables@.len() == j,
            forall|i: int| 0 <= i < j ==> spec_records(
                chunk_of(bytes@, #[trigger] icuts[i]),
            ) is Ok,
            forall|i: int| 0 <= i < j ==> (#[trigger] tables@[i])@ == fold_records(
                chunk_recs(bytes@, icuts[i]),
            ),
            forall|i: int| 0 <= i < j ==> (#[trigger] tables@[i]).inv(),
            5 * sum_records(tables@) <= cut_start(bytes@, icuts, j as int),
        decreases n - j,
    {
        let start = cuts[j].0;
        let end = cuts[j].1;
        let chunk = slice_subrange(bytes, start, end);
        match aggregate_stations(chunk) {
            Ok(t) => {
                proof {
                    assert(tables@.push(t).drop_last() =~= tables@);
                    assert(tables@.push(t).last() == t);
                }
                tables.push(t);
            },
            Err(e) => {
                match e {
                    Error::MalformedRecord { offset } => {
                        proof {
                            assert(icuts[j as int] == (start as int, end as int));
                            assert(chunk@ == chunk_of(bytes@, icuts[j as int]));
                            lemma_records_of_partition_err(bytes@, icuts, 0, j as int);
                            assert(icuts[0].0 == 0);
                            assert(records_from(bytes@, 0int) == Err::<Seq<(Seq<u8>, int)>, int>(
                                start + offset,
                            ));
                        }
                        return Err(Error::MalformedRecord { offset: start + offset });
                    },
                    Error::Configuration => {
                        // A chunk scan only ever fails with a malformed
                        // record, so this arm cannot be reached.
                        proof {
                            assert(false);
                        }
                        return Err(Error::Configuration);
                    },
                }
            },
        }
        j = j + 1;
    }
    proof {
        lemma_partition_aggregate(bytes@, icuts);
        assert(views_of(tables@) =~= chunk_tables(bytes@, icuts));
        lemma_sum_records_prefix(tables@, n as int);
        assert(tables@.take(n as int) =~= tables@);
    }
    let merged = merge(&tables);
    Ok(merged)
}

} // verus!
