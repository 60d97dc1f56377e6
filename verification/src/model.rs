//! Mathematical model of the record format and of chunk scanning.
//!
//! Everything here is specification-level: the grammar of one line, the
//! canonical rendering of a temperature, and the decomposition of a byte
//! chunk into parsed records. The executable code elsewhere is specified
//! against these functions.

use vstd::prelude::*;

verus! {

/// Line terminator byte (`\n`).
pub const NL: u8 = 10;
/// Field separator byte (`;`).
pub const SEMI: u8 = 59;
/// Sign byte (`-`).
pub const MINUS: u8 = 45;
/// Decimal point byte (`.`).
pub const DOT: u8 = 46;
/// Byte of the digit `0`.
pub const D0: u8 = 48;

/// Whether `b` is an ASCII decimal digit.
pub open spec fn is_digit(b: u8) -> bool {
    D0 <= b <= 57
}

/// Numeric value of the ASCII digit `b`.
pub open spec fn digit_val(b: u8) -> int {
    b - D0
}

/// Grammar of one record line (the terminator already stripped), read from
/// the end: a fractional digit, a decimal point, a units digit, then either
/// the separator, a sign and the separator, a tens digit and the separator,
/// or a tens digit, a sign and the separator. Everything before the
/// separator is the station name, taken verbatim. The value is the
/// temperature in tenths of a degree.
///
/// `None` means the line's suffix does not fit the grammar.
pub open spec fn spec_parse_line(line: Seq<u8>) -> Option<(Seq<u8>, int)> {
    let n = line.len() as int;
    if n >= 4 && is_digit(line[n - 1]) && line[n - 2] == DOT && is_digit(line[n - 3]) {
        let low = 10 * digit_val(line[n - 3]) + digit_val(line[n - 1]);
        if line[n - 4] == SEMI {
            Some((line.subrange(0, n - 4), low))
        } else if line[n - 4] == MINUS {
            if n >= 5 && line[n - 5] == SEMI {
                Some((line.subrange(0, n - 5), -low))
            } else {
                None
            }
        } else if is_digit(line[n - 4]) {
            let v = 100 * digit_val(line[n - 4]) + low;
            if n >= 5 && line[n - 5] == SEMI {
                Some((line.subrange(0, n - 5), v))
            } else if n >= 6 && line[n - 5] == MINUS && line[n - 6] == SEMI {
                Some((line.subrange(0, n - 6), -v))
            } else {
                None
            }
        } else {
            None
        }
    } else {
        None
    }
}

/// Canonical rendering of a temperature in tenths: an optional sign, one or
/// two integer digits (two exactly when the magnitude reaches ten degrees),
/// the decimal point, and the fractional digit.
pub open spec fn spec_render_tenths(v: int) -> Seq<u8>
    recommends
        -999 <= v <= 999,
{
    let m = if v < 0 { -v } else { v };
    let digits = if m >= 100 {
        seq![(D0 + m / 100) as u8, (D0 + (m / 10) % 10) as u8]
    } else {
        seq![(D0 + m / 10) as u8]
    };
    let tail = digits + seq![DOT, (D0 + m % 10) as u8];
    if v < 0 {
        seq![MINUS] + tail
    } else {
        tail
    }
}

/// Index of the first line terminator of `s` at or after position `i`,
/// `None` when the tail from `i` holds none.
pub open spec fn find_nl_from(s: Seq<u8>, i: int) -> Option<int>
    decreases s.len() - i,
{
    if i < 0 || i >= s.len() {
        None
    } else if s[i] == NL {
        Some(i)
    } else {
        find_nl_from(s, i + 1)
    }
}

/// What `find_nl_from` returns: the first terminator of the tail, or a
/// promise that the tail holds none.
pub proof fn lemma_find_nl_from(s: Seq<u8>, i: int)
    requires
        0 <= i,
    ensures
        match find_nl_from(s, i) {
            Some(p) => i <= p < s.len() && s[p] == NL && (forall|j: int| i <= j < p ==> s[j] != NL),
            None => forall|j: int| i <= j < s.len() ==> s[j] != NL,
        },
    decreases s.len() - i,
{
    if i < s.len() && s[i] != NL {
        lemma_find_nl_from(s, i + 1);
    }
}

/// A position that is a terminator with none before it (at or after `i`)
/// is exactly what `find_nl_from` returns.
pub proof fn lemma_find_nl_from_exact(s: Seq<u8>, i: int, p: int)
    requires
        0 <= i <= p < s.len(),
        s[p] == NL,
        forall|j: int| i <= j < p ==> s[j] != NL,
    ensures
        find_nl_from(s, i) == Some(p),
{
    lemma_find_nl_from(s, i);
    if let Some(q) = find_nl_from(s, i) {
        if q < p {
            assert(s[q] != NL);
        }
        if q > p {
            assert(s[p] != NL);
        }
    }
}

/// The records of `s` from position `i` on: each line up to its terminator
/// is parsed, in order. `Err(o)` gives the start of the first offending
/// line: one whose suffix breaks the grammar, or a nonempty tail with no
/// terminator at all.
pub open spec fn records_from(s: Seq<u8>, i: int) -> Result<Seq<(Seq<u8>, int)>, int>
    decreases s.len() - i,
{
    if i < 0 || i >= s.len() {
        Ok(Seq::empty())
    } else {
        match find_nl_from(s, i) {
            None => Err(i),
            Some(p) => if i <= p < s.len() {
                match spec_parse_line(s.subrange(i, p)) {
                    None => Err(i),
                    Some(rec) => match records_from(s, p + 1) {
                        Ok(rest) => Ok(seq![rec] + rest),
                        Err(o) => Err(o),
                    },
                }
            } else {
                Err(i)
            },
        }
    }
}

/// The records of a whole chunk, with the byte offset of the first
/// offending line on failure.
pub open spec fn spec_records(s: Seq<u8>) -> Result<Seq<(Seq<u8>, int)>, int> {
    records_from(s, 0)
}

/// Scanning the tail of `s` from `j` is scanning the subrange from `j` as a
/// chunk of its own, with error offsets shifted by `j`.
pub proof fn lemma_records_shift(s: Seq<u8>, j: int)
    requires
        0 <= j <= s.len(),
    ensures
        records_from(s, j) == match spec_records(s.subrange(j, s.len() as int)) {
            Ok(r) => Ok::<Seq<(Seq<u8>, int)>, int>(r),
            Err(o) => Err::<Seq<(Seq<u8>, int)>, int>(j + o),
        },
    decreases s.len() - j,
{
    let n = s.len() as int;
    let t = s.subrange(j, n);
    lemma_find_nl_from(s, j);
    lemma_find_nl_from(t, 0);
    if j == n {
        assert(records_from(s, j) == Ok::<Seq<(Seq<u8>, int)>, int>(Seq::empty()));
    } else {
        match find_nl_from(s, j) {
            None => {
                assert(find_nl_from(t, 0) is None) by {
                    if let Some(q) = find_nl_from(t, 0) {
                        assert(s[j + q] == NL);
                    }
                }
            },
            Some(p) => {
                let q = p - j;
                assert(t[q] == NL);
                assert(forall|k: int| 0 <= k < q ==> t[k] != NL) by {
                    assert(forall|k: int| 0 <= k < q ==> t[k] == s[j + k] && s[j + k] != NL);
                }
                lemma_find_nl_from_exact(t, 0, q);
                assert(s.subrange(j, p) =~= t.subrange(0, q));
                match spec_parse_line(s.subrange(j, p)) {
                    None => {},
                    Some(rec) => {
                        lemma_records_shift(s, p + 1);
                        lemma_records_shift(t, q + 1);
                        assert(s.subrange(p + 1, n) =~= t.subrange(q + 1, t.len() as int));
                    },
                }
            },
        }
    }
}

/// Cutting `s` at a record-aligned position `b` splits the scan: the records
/// from `a` are the records of the chunk `[a, b)` followed by the records
/// from `b`, and a failure inside the chunk is a failure of the whole scan
/// at the same absolute offset.
pub proof fn lemma_records_split(s: Seq<u8>, a: int, b: int)
    requires
        0 <= a <= b <= s.len(),
        a == b || b == s.len() || s[b - 1] == NL,
    ensures
        records_from(s, a) == match spec_records(s.subrange(a, b)) {
            Ok(r1) => match records_from(s, b) {
                Ok(r2) => Ok::<Seq<(Seq<u8>, int)>, int>(r1 + r2),
                Err(o) => Err::<Seq<(Seq<u8>, int)>, int>(o),
            },
            Err(o) => Err::<Seq<(Seq<u8>, int)>, int>(a + o),
        },
    decreases b - a,
{
    let n = s.len() as int;
    let c = s.subrange(a, b);
    if a == b {
        if let Ok(r2) = records_from(s, b) {
            assert(Seq::<(Seq<u8>, int)>::empty() + r2 =~= r2);
        }
    } else {
        lemma_find_nl_from(s, a);
        lemma_find_nl_from(c, 0);
        match find_nl_from(c, 0) {
            None => {
                // The chunk holds no terminator. An aligned internal cut would
                // put one at its very end, so the chunk must run to the end of
                // the buffer, and the whole scan fails where the chunk scan does.
                assert(b == n) by {
                    if b < n {
                        assert(c[b - 1 - a] == NL);
                    }
                }
                assert(find_nl_from(s, a) is None) by {
                    if let Some(p) = find_nl_from(s, a) {
                        assert(c[p - a] == NL);
                    }
                }
            },
            Some(q) => {
                let p = a + q;
                assert(s[p] == NL);
                assert(forall|j: int| a <= j < p ==> s[j] != NL) by {
                    assert(forall|j: int| a <= j < p ==> s[j] == c[j - a] && c[j - a] != NL);
                }
                lemma_find_nl_from_exact(s, a, p);
                assert(c.subrange(0, q) =~= s.subrange(a, p));
                match spec_parse_line(c.subrange(0, q)) {
                    None => {},
                    Some(rec) => {
                        lemma_records_shift(c, q + 1);
                        assert(c.subrange(q + 1, c.len() as int) =~= s.subrange(p + 1, b));
                        lemma_records_split(s, p + 1, b);
                        match spec_records(s.subrange(p + 1, b)) {
                            Ok(r1t) => {
                                if let Ok(r2) = records_from(s, b) {
                                    assert(seq![rec] + (r1t + r2) =~= (seq![rec] + r1t) + r2);
                                }
                            },
                            Err(_) => {},
                        }
                    },
                }
            },
        }
    }
}

/// Parsing is inverse to rendering: a line made of any name, the separator
/// and a canonical rendering parses back to exactly that name and value.
pub proof fn lemma_parse_render_roundtrip(name: Seq<u8>, v: int)
    requires
        -999 <= v <= 999,
    ensures
        spec_parse_line(name + seq![SEMI] + spec_render_tenths(v)) == Some((name, v)),
{
    let line = name + seq![SEMI] + spec_render_tenths(v);
    let m = if v < 0 { -v } else { v };
    assert(0 <= m <= 999);
    assert(line.subrange(0, name.len() as int) =~= name);
    if m >= 100 {
        assert(1 <= m / 100 <= 9);
        assert(0 <= (m / 10) % 10 <= 9);
        assert(0 <= m % 10 <= 9);
        assert(100 * (m / 100) + 10 * ((m / 10) % 10) + m % 10 == m) by {
            assert(m / 10 == 10 * (m / 100) + (m / 10) % 10);
            assert(m == 10 * (m / 10) + m % 10);
        }
    } else {
        assert(0 <= m / 10 <= 9);
        assert(0 <= m % 10 <= 9);
        assert(10 * (m / 10) + m % 10 == m);
    }
}

} // verus!
