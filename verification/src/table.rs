//! The per-station aggregate table.
//!
//! Stations are keyed by their raw name bytes; each holds a stored row
//! `(count, sum, min, max)` with the temperatures in tenths of a degree.
//! The map itself is `halfbrown::HashMap`, which keeps small tables in a
//! vector and switches to hashing for large ones; its calls sit behind a
//! small trusted layer, and everything on top of it — folding records in,
//! merging tables — is verified against the model in [`crate::fold`].

use vstd::prelude::*;
use vstd::slice::slice_to_vec;

use crate::fold::{
    agg_one, agg_add, empty_table, fold_one, merge_maps, merge_seq, wf_agg, wf_table, AggModel,
    TableModel, lemma_fold_one_wf, lemma_merge_maps_wf,
};

verus! {

/// A station's stored row: `(count, sum, min, max)`, temperatures in tenths.
///
/// The sum is kept in 128 bits so that it cannot overflow: each record
/// contributes at most 999 in magnitude and there are at most `usize::MAX`
/// records, which keeps every sum far below the 128-bit bounds.
pub type AggRow = (usize, i128, isize, isize);

/// The stored row read as a mathematical aggregate.
pub open spec fn row_model(t: AggRow) -> AggModel {
    (t.0 as int, t.1 as int, t.2 as int, t.3 as int)
}

/// Stands for `halfbrown::DefaultHashBuilder`, the map's default hasher
/// state; nothing is assumed of it.
#[verifier::external_type_specification]
#[verifier::external_body]
pub struct ExDefaultHashBuilder(halfbrown::DefaultHashBuilder);

/// Stands for `halfbrown::SizedHashMap`, the hybrid vector-or-hash map that
/// backs the table; its contents are spoken of only through
/// [`table_contents`].
#[verifier::external_type_specification]
#[verifier::external_body]
#[verifier::reject_recursive_types(K)]
#[verifier::reject_recursive_types(V)]
#[verifier::reject_recursive_types(S)]
pub struct ExSizedHashMap<K, V, S, const VEC_LIMIT_UPPER: usize>(
    halfbrown::SizedHashMap<K, V, S, VEC_LIMIT_UPPER>,
);

/// The backing map: station name bytes to stored row.
pub type RawMap = halfbrown::HashMap<Vec<u8>, AggRow>;

/// What the halfbrown map holds: its stored pairs, as a map from name bytes
/// to the mathematical reading of the stored row.
pub uninterp spec fn table_contents(m: RawMap) -> TableModel;

/// Relies on `halfbrown::HashMap::new`: a freshly created map is empty.
#[verifier::external_body]
fn raw_new() -> (r: RawMap)
    ensures
        table_contents(r) == empty_table(),
{
    halfbrown::HashMap::new()
}

/// Relies on `halfbrown::HashMap::get`: the value stored under the key,
/// or `None` when the key is absent.
#[verifier::external_body]
fn raw_get(m: &RawMap, name: &[u8]) -> (r: Option<AggRow>)
    ensures
        match r {
            Some(t) => table_contents(*m).dom().contains(name@) && table_contents(*m)[name@]
                == row_model(t),
            None => !table_contents(*m).dom().contains(name@),
        },
{
    m.get(name).copied()
}

/// Relies on `halfbrown::HashMap::insert`: stores the value under the key,
/// replacing any previous one.
#[verifier::external_body]
fn raw_insert(m: &mut RawMap, name: Vec<u8>, t: AggRow)
    ensures
        table_contents(*final(m)) == table_contents(*old(m)).insert(name@, row_model(t)),
{
    m.insert(name, t);
}

/// Relies on `halfbrown::HashMap::get_mut`: overwrites the value under a
/// key that is present, without copying the key.
#[verifier::external_body]
fn raw_update(m: &mut RawMap, name: &[u8], t: AggRow)
    requires
        table_contents(*old(m)).dom().contains(name@),
    ensures
        table_contents(*final(m)) == table_contents(*old(m)).insert(name@, row_model(t)),
{
    if let Some(slot) = m.get_mut(name) {
        *slot = t;
    }
}

/// Relies on `halfbrown::HashMap::len`: the number of stored keys.
#[verifier::external_body]
fn raw_len(m: &RawMap) -> (n: usize)
    ensures
        n == table_contents(*m).dom().len(),
{
    m.len()
}

/// Relies on `halfbrown::HashMap::iter`: yields every stored pair exactly
/// once, in no promised order.
#[verifier::external_body]
fn raw_rows(m: &RawMap) -> (rows: Vec<(Vec<u8>, AggRow)>)
    ensures
        map_of_rows(rows@) == table_contents(*m),
        forall|i: int, j: int| 0 <= i < j < rows@.len() ==> rows@[i].0@ != rows@[j].0@,
{
    m.iter().map(|(k, v)| (k.clone(), *v)).collect()
}

/// The table that a row listing describes: later rows would win, though the
/// listings handled here never repeat a key.
pub open spec fn map_of_rows(rows: Seq<(Vec<u8>, AggRow)>) -> TableModel
    decreases rows.len(),
{
    if rows.len() == 0 {
        Map::empty()
    } else {
        map_of_rows(rows.drop_last()).insert(rows.last().0@, row_model(rows.last().1))
    }
}

/// A key of a row listing is in the described table exactly when some row
/// carries it.
pub proof fn lemma_map_of_rows_dom(rows: Seq<(Vec<u8>, AggRow)>)
    ensures
        forall|k: Seq<u8>| #[trigger] map_of_rows(rows).dom().contains(k) <==> exists|i: int|
            0 <= i < rows.len() && rows[i].0@ == k,
    decreases rows.len(),
{
    if rows.len() > 0 {
        let head = rows.drop_last();
        lemma_map_of_rows_dom(head);
        assert forall|k: Seq<u8>| #[trigger] map_of_rows(rows).dom().contains(k) implies exists|
            i: int,
        | 0 <= i < rows.len() && rows[i].0@ == k by {
            if k == rows.last().0@ {
                assert(rows[rows.len() - 1].0@ == k);
            } else {
                assert(map_of_rows(head).dom().contains(k));
                let i = choose|i: int| 0 <= i < head.len() && (#[trigger] head[i]).0@ == k;
                assert(rows[i] == head[i]);
                assert(rows[i].0@ == k);
            }
        }
        assert forall|k: Seq<u8>| (exists|i: int| 0 <= i < rows.len() && rows[i].0@ == k) implies #[trigger] map_of_rows(
            rows,
        ).dom().contains(k) by {
            let i = choose|i: int| 0 <= i < rows.len() && (#[trigger] rows[i]).0@ == k;
            if i < rows.len() - 1 {
                assert(head[i] == rows[i]);
                assert(head[i].0@ == k);
                assert(map_of_rows(head).dom().contains(k));
            }
        }
    }
}

/// With no key repeated, every row's pair is stored as given.
pub proof fn lemma_map_of_rows_at(rows: Seq<(Vec<u8>, AggRow)>)
    requires
        forall|i: int, j: int| 0 <= i < j < rows.len() ==> rows[i].0@ != rows[j].0@,
    ensures
        forall|i: int| 0 <= i < rows.len() ==> map_of_rows(rows).dom().contains(
            (#[trigger] rows[i]).0@,
        ) && map_of_rows(rows)[rows[i].0@] == row_model(rows[i].1),
    decreases rows.len(),
{
    if rows.len() > 0 {
        lemma_map_of_rows_at(rows.drop_last());
        assert forall|i: int| 0 <= i < rows.len() implies map_of_rows(rows).dom().contains(
            (#[trigger] rows[i]).0@,
        ) && map_of_rows(rows)[rows[i].0@] == row_model(rows[i].1) by {
            if i < rows.len() - 1 {
                assert(rows.drop_last()[i] == rows[i]);
                assert(rows[i].0@ != rows[rows.len() - 1].0@);
            }
        }
    }
}

/// One partition's (or the merged) aggregate table.
pub struct StationTable {
    inner: RawMap,
    records: usize,
}

impl View for StationTable {
    type V = TableModel;

    closed spec fn view(&self) -> TableModel {
        table_contents(self.inner)
    }
}

impl StationTable {
    /// How many records have been folded into this table.
    pub closed spec fn record_count(&self) -> int {
        self.records as int
    }

    /// Every aggregate is within the bounds that `record_count` records
    /// admit; this is what keeps the stored arithmetic exact.
    pub closed spec fn inv(&self) -> bool {
        wf_table(self@, self.record_count())
    }

    /// An empty table.
    pub fn new() -> (t: StationTable)
        ensures
            t@ == empty_table(),
            t.inv(),
            t.record_count() == 0,
    {
        let t = StationTable { inner: raw_new(), records: 0 };
        proof {
            assert(t.inv());
        }
        t
    }

    /// The stored row of one station, or `None` for a station without
    /// records.
    pub fn get(&self, name: &[u8]) -> (r: Option<AggRow>)
        ensures
            match r {
                Some(t) => self@.dom().contains(name@) && self@[name@] == row_model(t),
                None => !self@.dom().contains(name@),
            },
    {
        raw_get(&self.inner, name)
    }

    /// The number of distinct stations.
    pub fn len(&self) -> (n: usize)
        ensures
            n == self@.dom().len(),
    {
        raw_len(&self.inner)
    }

    /// All stored rows, each station exactly once, in no promised order.
    pub fn rows(&self) -> (rows: Vec<(Vec<u8>, AggRow)>)
        ensures
            map_of_rows(rows@) == self@,
            forall|i: int, j: int| 0 <= i < j < rows@.len() ==> rows@[i].0@ != rows@[j].0@,
    {
        raw_rows(&self.inner)
    }

    /// Fold one record into the table: a station's first record starts its
    /// aggregate with count 1 and the value as sum, min and max; a later
    /// record bumps the count, adds to the sum and widens the extremes.
    pub fn add_record(&mut self, name: &[u8], value: isize)
        requires
            old(self).inv(),
            -999 <= value <= 999,
            old(self).record_count() < usize::MAX,
        ensures
            final(self)@ == fold_one(old(self)@, name@, value as int),
            final(self).inv(),
            final(self).record_count() == old(self).record_count() + 1,
    {
        match raw_get(&self.inner, name) {
            Some(row) => {
                proof {
                    assert(wf_agg(row_model(row), old(self).record_count()));
                }
                let t: AggRow = (
                    row.0 + 1,
                    row.1 + value as i128,
                    if value < row.2 {
                        value
                    } else {
                        row.2
                    },
                    if value > row.3 {
                        value
                    } else {
                        row.3
                    },
                );
                proof {
                    assert(row_model(t) == agg_add(row_model(row), value as int));
                }
                raw_update(&mut self.inner, name, t);
            },
            None => {
                let key = slice_to_vec(name);
                raw_insert(&mut self.inner, key, (1, value as i128, value, value));
                proof {
                    assert(row_model((1usize, value as i128, value, value)) == agg_one(
                        value as int,
                    ));
                }
            },
        }
        self.records = self.records + 1;
        proof {
            lemma_fold_one_wf(old(self)@, old(self).record_count(), name@, value as int);
        }
    }

    /// Merge another table into this one: stations of either table survive,
    /// counts and sums add up, min and max take the wider extreme. The
    /// record bound asks only that the two tables' records together can be
    /// counted in a machine word.
    pub fn merge_into(&mut self, other: &StationTable)
        requires
            old(self).inv(),
            other.inv(),
            old(self).record_count() + other.record_count() <= usize::MAX,
        ensures
            final(self)@ == merge_maps(old(self)@, other@),
            final(self).inv(),
            final(self).record_count() == old(self).record_count() + other.record_count(),
    {
        let ghost m0 = old(self)@;
        let ghost rc0 = old(self).record_count();
        let rows = raw_rows(&other.inner);
        let ghost orows = rows@;
        proof {
            lemma_map_of_rows_at(orows);
        }
        self.records = self.records + other.records;
        let n = rows.len();
        let mut j: usize = 0;
        while j < n
            invariant
                0 <= j <= n,
                n == orows.len(),
                rows@ == orows,
                map_of_rows(orows) == other@,
                forall|a: int, b: int| 0 <= a < b < orows.len() ==> orows[a].0@ != orows[b].0@,
                forall|i: int| 0 <= i < orows.len() ==> map_of_rows(orows).dom().contains(
                    (#[trigger] orows[i]).0@,
                ) && map_of_rows(orows)[orows[i].0@] == row_model(orows[i].1),
                self@ == merge_maps(m0, map_of_rows(orows.take(j as int))),
                self.record_count() == rc0 + other.record_count(),
                wf_table(m0, rc0),
                wf_table(other@, other.record_count()),
                0 <= rc0,
                0 <= other.record_count(),
                rc0 + other.record_count() <= usize::MAX,
            decreases n - j,
        {
            let row = &rows[j];
            let ghost k = row.0@;
            let ghost partial = map_of_rows(orows.take(j as int));
            proof {
                lemma_map_of_rows_dom(orows.take(j as int));
                assert(!partial.dom().contains(k)) by {
                    if partial.dom().contains(k) {
                        let i = choose|i: int|
                            0 <= i < j && (#[trigger] orows.take(j as int)[i]).0@ == k;
                        assert(orows[i].0@ == orows[j as int].0@);
                    }
                }
                assert(wf_agg(row_model(orows[j as int].1), other.record_count()));
            }
            let stored: AggRow = row.1;
            let newrow: AggRow = match raw_get(&self.inner, row.0.as_slice()) {
                Some(a) => {
                    proof {
                        assert(self@[k] == row_model(a));
                        assert(self@[k] == m0[k]);
                        assert(wf_agg(row_model(a), rc0));
                    }
                    (
                        a.0 + stored.0,
                        a.1 + stored.1,
                        if stored.2 < a.2 {
                            stored.2
                        } else {
                            a.2
                        },
                        if stored.3 > a.3 {
                            stored.3
                        } else {
                            a.3
                        },
                    )
                },
                None => stored,
            };
            let key = slice_to_vec(row.0.as_slice());
            raw_insert(&mut self.inner, key, newrow);
            proof {
                let partial2 = map_of_rows(orows.take(j + 1int));
                assert(orows.take(j + 1int).drop_last() =~= orows.take(j as int));
                assert(orows.take(j + 1int).last() == orows[j as int]);
                assert(partial2 == partial.insert(k, row_model(orows[j as int].1)));
                assert(self@ =~= merge_maps(m0, partial2));
            }
            j = j + 1;
        }
        proof {
            assert(orows.take(n as int) =~= orows);
            lemma_merge_maps_wf(m0, rc0, other@, other.record_count());
        }
    }
}

/// The views of a sequence of tables, in order.
pub open spec fn views_of(ts: Seq<StationTable>) -> Seq<TableModel> {
    ts.map_values(|t: StationTable| t@)
}

/// The records folded into a sequence of tables, all counted together.
pub open spec fn sum_records(ts: Seq<StationTable>) -> int
    decreases ts.len(),
{
    if ts.len() == 0 {
        0
    } else {
        sum_records(ts.drop_last()) + ts.last().record_count()
    }
}

/// A prefix of a table sequence accounts for at least none and at most all
/// of the records, one table's worth at a time.
pub proof fn lemma_sum_records_prefix(ts: Seq<StationTable>, j: int)
    requires
        0 <= j <= ts.len(),
    ensures
        0 <= sum_records(ts.take(j)) <= sum_records(ts),
        j < ts.len() ==> sum_records(ts.take(j + 1)) == sum_records(ts.take(j))
            + ts[j].record_count(),
    decreases ts.len() - j,
{
    lemma_sum_nonneg(ts.take(j));
    if j < ts.len() {
        assert(ts.take(j + 1).drop_last() =~= ts.take(j));
        assert(ts.take(j + 1).last() == ts[j]);
        lemma_sum_records_prefix(ts, j + 1);
    } else {
        assert(ts.take(j) =~= ts);
    }
}

/// No table accounts for a negative number of records.
proof fn lemma_sum_nonneg(ts: Seq<StationTable>)
    ensures
        0 <= sum_records(ts),
    decreases ts.len(),
{
    if ts.len() > 0 {
        lemma_sum_nonneg(ts.drop_last());
    }
}

/// Merge a sequence of per-partition tables, left to right, into one table.
/// Every station of any input survives with the summed counts and sums and
/// the widest extremes; the result is what the model's fold of joins gives.
pub fn merge(tables: &Vec<StationTable>) -> (r: StationTable)
    requires
        forall|i: int| 0 <= i < tables@.len() ==> (#[trigger] tables@[i]).inv(),
        sum_records(tables@) <= usize::MAX,
    ensures
        r@ == merge_seq(views_of(tables@)),
        r.inv(),
        r.record_count() == sum_records(tables@),
{
    let mut acc = StationTable::new();
    let n = tables.len();
    let mut j: usize = 0;
    proof {
        assert(tables@.take(0int) =~= Seq::<StationTable>::empty());
    }
    while j < n
        invariant
            0 <= j <= n,
            n == tables@.len(),
            forall|i: int| 0 <= i < tables@.len() ==> (#[trigger] tables@[i]).inv(),
            sum_records(tables@) <= usize::MAX,
            acc@ == merge_seq(views_of(tables@.take(j as int))),
            acc.inv(),
            acc.record_count() == sum_records(tables@.take(j as int)),
        decreases n - j,
    {
        proof {
            lemma_sum_records_prefix(tables@, j as int);
            lemma_sum_records_prefix(tables@, j + 1int);
        }
        acc.merge_into(&tables[j]);
        proof {
            assert(views_of(tables@.take(j + 1int)).drop_last() =~= views_of(
                tables@.take(j as int),
            ));
            assert(views_of(tables@.take(j + 1int)).last() == tables@[j as int]@);
        }
        j = j + 1;
    }
    proof {
        assert(tables@.take(n as int) =~= tables@);
    }
    acc
}

} // verus!
