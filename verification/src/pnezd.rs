//! PNEZD comma-delimited point records — the text side.
//!
//! Format, one point per line: `point, northing, easting, elevation,
//! description`. Blank lines and lines beginning with `#` are ignored. The
//! description is optional and may itself contain commas (only the first four
//! fields are split). Reading the three coordinates as numbers is left to the
//! caller, which counts a record whose coordinates do not read as skipped.
use vstd::prelude::*;
use vstd::slice::slice_subrange;

use crate::text::{
    chars_of, line_spans, lines, span_ints, splitn_at_any, splitn_spans,
    string_of_range, trim, trim_bounds,
};

verus! {

/// The fields of a record line, trimmed; the description is empty when the
/// line has only four fields.
pub struct PnezdFields {
    pub number: String,
    pub northing: String,
    pub easting: String,
    pub elevation: String,
    pub description: String,
}

/// One non-blank, non-comment line.
pub enum PnezdRecord {
    /// Fewer than four comma-separated fields: cannot be a point.
    Short,
    /// The fields of a candidate point.
    Fields(PnezdFields),
}

/// Mathematical content of a `PnezdRecord`: `None` for a short line, else
/// the five fields.
pub open spec fn record_view(r: PnezdRecord) -> Option<Seq<Seq<char>>> {
    match r {
        PnezdRecord::Short => None,
        PnezdRecord::Fields(f) => Some(
            seq![f.number@, f.northing@, f.easting@, f.elevation@, f.description@],
        ),
    }
}

/// The trimmed pieces of `l` split at the first four commas.
pub open spec fn comma_fields(l: Seq<char>) -> Seq<Seq<char>> {
    splitn_spans(l, seq![','], 5, 0).map_values(|p: (int, int)| trim(l.subrange(p.0, p.1)))
}

/// The record of one line: nothing for a blank or `#` line; `Short` when it
/// has fewer than four fields; else the fields (a missing description is
/// empty).
pub open spec fn line_record(line: Seq<char>) -> Option<Option<Seq<Seq<char>>>> {
    let l = trim(line);
    if l.len() == 0 || l[0] == '#' {
        None
    } else {
        let f = comma_fields(l);
        if f.len() < 4 {
            Some(None)
        } else {
            Some(Some(seq![f[0], f[1], f[2], f[3], if f.len() > 4 { f[4] } else { seq![] }]))
        }
    }
}

/// Records of the first `n` lines of `text`.
pub open spec fn records_upto(text: Seq<char>, spans: Seq<(int, int)>, n: int) -> Seq<
    Option<Seq<Seq<char>>>,
>
    decreases n,
{
    if n <= 0 {
        seq![]
    } else {
        let prev = records_upto(text, spans, n - 1);
        match line_record(text.subrange(spans[n - 1].0, spans[n - 1].1)) {
            Some(r) => prev.push(r),
            None => prev,
        }
    }
}

/// The records of a PNEZD document, line by line (see [`line_record`]).
pub open spec fn pnezd_records(text: Seq<char>) -> Seq<Option<Seq<Seq<char>>>> {
    let spans = line_spans(text, 0);
    records_upto(text, spans, spans.len() as int)
}

/// The record of the line `s[from..to]`.
fn record_of_line(s: &[char], from: usize, to: usize) -> (r: Option<PnezdRecord>)
    requires
        from <= to <= s@.len(),
    ensures
        r matches Some(rec) ==> line_record(s@.subrange(from as int, to as int)) == Some(
            record_view(rec),
        ),
        r is None ==> line_record(s@.subrange(from as int, to as int)) is None,
{
    let (a, b) = trim_bounds(s, from, to);
    if a == b || s[a] == '#' {
        return None;
    }
    let l = slice_subrange(s, a, b);
    let comma: Vec<char> = vec![','];
    assert(comma@ =~= seq![',']);
    let parts = splitn_at_any(l, comma.as_slice(), 5, 0);
    let ghost f = comma_fields(l@);
    assert(f.len() == parts@.len());
    proof {
        crate::text::lemma_splitn_len(l@, seq![','], 5, 0);
    }
    if parts.len() < 4 {
        return Some(PnezdRecord::Short);
    }
    let mut fields: Vec<String> = Vec::new();
    let mut k: usize = 0;
    while k < parts.len()
        invariant
            k <= parts@.len(),
            f == comma_fields(l@),
            f.len() == parts@.len(),
            span_ints(parts@) == splitn_spans(l@, seq![','], 5, 0),
            forall|j: int| 0 <= j < parts@.len() ==> #[trigger] parts@[j].0 <= parts@[j].1 <= l@.len(),
            fields@.len() == k,
            forall|j: int| 0 <= j < k ==> (#[trigger] fields@[j])@ == f[j],
        decreases parts@.len() - k,
    {
        let (p, q) = parts[k];
        assert(span_ints(parts@)[k as int] == (p as int, q as int));
        let (x, y) = trim_bounds(l, p, q);
        fields.push(string_of_range(l, x, y));
        k = k + 1;
    }
    assert(fields@.len() <= 5);
    let description = if fields.len() > 4 {
        fields.pop().unwrap()
    } else {
        String::new()
    };
    let elevation = fields.pop().unwrap();
    let easting = fields.pop().unwrap();
    let northing = fields.pop().unwrap();
    let number = fields.pop().unwrap();
    let ghost want = seq![f[0], f[1], f[2], f[3], if f.len() > 4 { f[4] } else { seq![] }];
    let rec = PnezdRecord::Fields(PnezdFields { number, northing, easting, elevation, description });
    assert(record_view(rec)->0 =~= want);
    Some(rec)
}

/// The records of a PNEZD document (see [`pnezd_records`]).
pub fn records(text: &str) -> (r: Vec<PnezdRecord>)
    ensures
        r@.map_values(|x: PnezdRecord| record_view(x)) == pnezd_records(text@),
{
    let chars = chars_of(text);
    let s = chars.as_slice();
    let spans = lines(s);
    let ghost sp = span_ints(spans@);
    let mut out: Vec<PnezdRecord> = Vec::new();
    let mut i: usize = 0;
    while i < spans.len()
        invariant
            s@ == text@,
            sp == span_ints(spans@),
            sp == line_spans(s@, 0),
            i <= spans@.len(),
            forall|k: int| 0 <= k < spans@.len() ==> #[trigger] spans@[k].0 <= spans@[k].1 <= s@.len(),
            out@.map_values(|x: PnezdRecord| record_view(x)) == records_upto(s@, sp, i as int),
        decreases spans@.len() - i,
    {
        let (a, b) = spans[i];
        assert(sp[i as int] == (a as int, b as int));
        let ghost before = out@.map_values(|x: PnezdRecord| record_view(x));
        match record_of_line(s, a, b) {
            Some(rec) => {
                let ghost rv = record_view(rec);
                out.push(rec);
                assert(out@.map_values(|x: PnezdRecord| record_view(x)) =~= before.push(rv));
            },
            None => {},
        }
        i = i + 1;
    }
    out
}

} // verus!
