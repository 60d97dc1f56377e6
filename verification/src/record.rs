//! Executable parsing and rendering of one record line.

use vstd::prelude::*;
use vstd::slice::slice_subrange;

use crate::model::{is_digit, spec_parse_line, spec_render_tenths, D0, DOT, MINUS, SEMI};

verus! {

/// Parse one line (without its terminator) into the length of the station
/// name and the temperature in tenths of a degree, scanning the numeric
/// suffix from the end as the grammar fixes it. `None` when the suffix does
/// not fit the grammar.
///
/// The name is whatever precedes the suffix; the parser reads at most six
/// trailing bytes and never allocates.
pub fn parse(line: &[u8]) -> (r: Option<(usize, isize)>)
    ensures
        match r {
            Some(p) => {
                &&& spec_parse_line(line@) == Some((line@.subrange(0, p.0 as int), p.1 as int))
                &&& p.0 <= line@.len()
                &&& -999 <= p.1 <= 999
            },
            None => spec_parse_line(line@) is None,
        },
{
    let n = line.len();
    if n < 4 {
        return None;
    }
    let frac = line[n - 1];
    let point = line[n - 2];
    let units = line[n - 3];
    if !(D0 <= frac && frac <= 57) || point != DOT || !(D0 <= units && units <= 57) {
        return None;
    }
    let low: isize = 10 * ((units - D0) as isize) + ((frac - D0) as isize);
    let mark = line[n - 4];
    if mark == SEMI {
        Some((n - 4, low))
    } else if mark == MINUS {
        if n >= 5 && line[n - 5] == SEMI {
            Some((n - 5, -low))
        } else {
            None
        }
    } else if D0 <= mark && mark <= 57 {
        let v: isize = 100 * ((mark - D0) as isize) + low;
        if n >= 5 && line[n - 5] == SEMI {
            Some((n - 5, v))
        } else if n >= 6 && line[n - 5] == MINUS && line[n - 6] == SEMI {
            Some((n - 6, -v))
        } else {
            None
        }
    } else {
        None
    }
}

/// Parse a line and hand back the station name as a borrowed slice along
/// with the temperature in tenths.
pub fn parse_record<'a>(line: &'a [u8]) -> (r: Option<(&'a [u8], isize)>)
    ensures
        match r {
            Some(p) => spec_parse_line(line@) == Some((p.0@, p.1 as int)) && -999 <= p.1 <= 999,
            None => spec_parse_line(line@) is None,
        },
{
    match parse(line) {
        Some((name_len, v)) => Some((slice_subrange(line, 0, name_len), v)),
        None => None,
    }
}

/// Render a temperature in tenths canonically: optional sign, one integer
/// digit below ten degrees and two from there on, the decimal point, and
/// the fractional digit.
pub fn render_tenths(v: isize) -> (r: Vec<u8>)
    requires
        -999 <= v <= 999,
    ensures
        r@ == spec_render_tenths(v as int),
{
    let mut out: Vec<u8> = Vec::new();
    if v < 0 {
        out.push(MINUS);
    }
    let m: usize = if v < 0 {
        (-v) as usize
    } else {
        v as usize
    };
    if m >= 100 {
        out.push(D0 + (m / 100) as u8);
        out.push(D0 + ((m / 10) % 10) as u8);
    } else {
        out.push(D0 + (m / 10) as u8);
    }
    out.push(DOT);
    out.push(D0 + (m % 10) as u8);
    proof {
        assert(out@ =~= spec_render_tenths(v as int));
    }
    out
}

} // verus!
