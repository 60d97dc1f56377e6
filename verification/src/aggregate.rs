//! Scanning one partition's bytes into a per-station table.

use vstd::prelude::*;
use vstd::slice::slice_subrange;

use crate::error::Error;
use crate::fold::{fold_one, fold_records};
use crate::model::{
    find_nl_from, lemma_find_nl_from, lemma_find_nl_from_exact, records_from, spec_records, NL,
};
use crate::record::parse;
use crate::table::StationTable;

verus! {

/// Position of the first line terminator at or after `from`, or `None` when
/// the rest of the slice holds none.
pub fn find_newline(s: &[u8], from: usize) -> (r: Option<usize>)
    requires
        from <= s@.len(),
    ensures
        match r {
            Some(p) => find_nl_from(s@, from as int) == Some(p as int) && from <= p < s@.len(),
            None => find_nl_from(s@, from as int) is None,
        },
{
    let n = s.len();
    let mut i = from;
    while i < n
        invariant
            from <= i <= n,
            n == s@.len(),
            forall|j: int| from <= j < i ==> s@[j] != NL,
        decreases n - i,
    {
        if s[i] == NL {
            proof {
                lemma_find_nl_from_exact(s@, from as int, i as int);
            }
            return Some(i);
        }
        i = i + 1;
    }
    proof {
        lemma_find_nl_from(s@, from as int);
        if let Some(p) = find_nl_from(s@, from as int) {
            assert(s@[p] != NL);
        }
    }
    None
}

/// Scan one chunk: split it at line terminators, parse every line, and fold
/// each record into a fresh table. The result is exactly the model's fold of
/// the chunk's records; a malformed line, or a nonempty tail without a
/// terminator, aborts with the offending line's byte offset within the
/// chunk.
pub fn aggregate_stations(chunk: &[u8]) -> (r: Result<StationTable, Error>)
    ensures
        match r {
            Ok(t) => {
                &&& spec_records(chunk@) is Ok
                &&& t@ == fold_records(spec_records(chunk@)->Ok_0)
                &&& t.inv()
                &&& t.record_count() == spec_records(chunk@)->Ok_0.len()
                &&& 5 * t.record_count() <= chunk@.len()
            },
            Err(e) => {
                &&& spec_records(chunk@) is Err
                &&& 0 <= spec_records(chunk@)->Err_0 < chunk@.len()
                &&& e == (Error::MalformedRecord {
                    offset: spec_records(chunk@)->Err_0 as usize,
                })
            },
        },
{
    let n = chunk.len();
    let mut t = StationTable::new();
    let ghost mut rs: Seq<(Seq<u8>, int)> = Seq::empty();
    let mut i: usize = 0;
    proof {
        if records_from(chunk@, 0int) is Ok {
            assert(rs + records_from(chunk@, 0int)->Ok_0 =~= records_from(chunk@, 0int)->Ok_0);
        }
    }
    while i < n
        invariant
            0 <= i <= n,
            n == chunk@.len(),
            t.inv(),
            t@ == fold_records(rs),
            t.record_count() == rs.len(),
            5 * rs.len() <= i,
            records_from(chunk@, i as int) is Ok ==> spec_records(chunk@) is Ok && spec_records(
                chunk@,
            )->Ok_0 == rs + records_from(chunk@, i as int)->Ok_0,
            records_from(chunk@, i as int) is Err ==> spec_records(chunk@) == records_from(
                chunk@,
                i as int,
            ),
        decreases n - i,
    {
        match find_newline(chunk, i) {
            None => {
                // A nonempty tail with no terminator: the scan fails here.
                assert(records_from(chunk@, i as int) == Err::<Seq<(Seq<u8>, int)>, int>(i as int));
                return Err(Error::MalformedRecord { offset: i });
            },
            Some(p) => {
                let line = slice_subrange(chunk, i, p);
                match parse(line) {
                    None => {
                        assert(records_from(chunk@, i as int) == Err::<Seq<(Seq<u8>, int)>, int>(
                            i as int,
                        ));
                        return Err(Error::MalformedRecord { offset: i });
                    },
                    Some((name_len, v)) => {
                        let ghost rec = (line@.subrange(0, name_len as int), v as int);
                        proof {
                            // The line has the grammar's minimum length, so each
                            // record accounts for at least five chunk bytes.
                            assert(line@.len() >= 4);
                            assert(records_from(chunk@, i as int) == (
                            match records_from(chunk@, p + 1int) {
                                Ok(rest) => Ok::<Seq<(Seq<u8>, int)>, int>(seq![rec] + rest),
                                Err(o) => Err::<Seq<(Seq<u8>, int)>, int>(o),
                            }));
                        }
                        let name = slice_subrange(line, 0, name_len);
                        t.add_record(name, v);
                        proof {
                            let rs0 = rs;
                            rs = rs0.push(rec);
                            assert(rs.drop_last() =~= rs0);
                            assert(rs.last() == rec);
                            assert(fold_records(rs) == fold_one(fold_records(rs0), rec.0, rec.1));
                            if records_from(chunk@, p + 1int) is Ok {
                                assert(rs0 + (seq![rec] + records_from(chunk@, p + 1int)->Ok_0)
                                    =~= rs + records_from(chunk@, p + 1int)->Ok_0);
                            }
                        }
                        i = p + 1;
                    },
                }
            },
        }
    }
    assert(records_from(chunk@, i as int) == Ok::<Seq<(Seq<u8>, int)>, int>(Seq::empty()));
    assert(rs + Seq::<(Seq<u8>, int)>::empty() =~= rs);
    Ok(t)
}

} // verus!
