//! Control-pair files for the Helmert fit — the text side. Each non-blank,
//! non-`#` line holds `srcN srcE dstN dstE`, separated by commas, spaces or
//! tabs, with an optional point ID first or last. Reading the numbers is left
//! to the caller; which end holds the ID is decided here from whether each end
//! reads as a number.
use vstd::prelude::*;
use vstd::slice::slice_subrange;

use crate::resection::strings_view;
use crate::text::{
    chars_of, line_spans, lines, span_ints, split_at_any, split_spans, string_of_range, trim,
    trim_bounds,
};

verus! {

/// The separators of a control line: comma, space and tab.
pub open spec fn control_separators() -> Seq<char> {
    seq![',', ' ', '\t']
}

/// The non-blank trimmed pieces of `l` between the first `n` of `spans`.
pub open spec fn nonblank_pieces(l: Seq<char>, spans: Seq<(int, int)>, n: int) -> Seq<Seq<char>>
    decreases n,
{
    if n <= 0 {
        seq![]
    } else {
        let prev = nonblank_pieces(l, spans, n - 1);
        let t = trim(l.subrange(spans[n - 1].0, spans[n - 1].1));
        if t.len() > 0 {
            prev.push(t)
        } else {
            prev
        }
    }
}

/// The tokens of a control line: its pieces between separators, trimmed,
/// blank ones dropped.
pub open spec fn control_tokens(l: Seq<char>) -> Seq<Seq<char>> {
    let spans = split_spans(l, control_separators(), 0);
    nonblank_pieces(l, spans, spans.len() as int)
}

/// A line of a control file that holds data.
pub struct ControlLine {
    /// Its 1-based line number in the file.
    pub number: usize,
    /// The line, trimmed.
    pub text: String,
    /// Its tokens (see [`control_tokens`]).
    pub tokens: Vec<String>,
}

/// The mathematical content of a [`ControlLine`].
pub open spec fn control_line_view(c: ControlLine) -> (int, Seq<char>, Seq<Seq<char>>) {
    (c.number as int, c.text@, strings_view(c.tokens@))
}

/// The data lines among the first `n` lines: line number, trimmed text and
/// tokens of each line that is neither blank nor a `#` comment.
pub open spec fn control_upto(text: Seq<char>, spans: Seq<(int, int)>, n: int) -> Seq<
    (int, Seq<char>, Seq<Seq<char>>),
>
    decreases n,
{
    if n <= 0 {
        seq![]
    } else {
        let prev = control_upto(text, spans, n - 1);
        let l = trim(text.subrange(spans[n - 1].0, spans[n - 1].1));
        if l.len() == 0 || l[0] == '#' {
            prev
        } else {
            prev.push((n, l, control_tokens(l)))
        }
    }
}

/// The data lines of a control file (see [`control_upto`]).
pub open spec fn control_file_lines(text: Seq<char>) -> Seq<(int, Seq<char>, Seq<Seq<char>>)> {
    let spans = line_spans(text, 0);
    control_upto(text, spans, spans.len() as int)
}

fn tokens_of(l: &[char]) -> (r: Vec<String>)
    ensures
        strings_view(r@) == control_tokens(l@),
{
    let seps: Vec<char> = vec![',', ' ', '\t'];
    assert(seps@ =~= control_separators());
    let parts = split_at_any(l, seps.as_slice(), 0);
    let ghost sp = span_ints(parts@);
    let mut out: Vec<String> = Vec::new();
    let mut k: usize = 0;
    while k < parts.len()
        invariant
            k <= parts@.len(),
            sp == span_ints(parts@),
            sp == split_spans(l@, control_separators(), 0),
            forall|j: int| 0 <= j < parts@.len() ==> #[trigger] parts@[j].0 <= parts@[j].1 <= l@.len(),
            strings_view(out@) == nonblank_pieces(l@, sp, k as int),
        decreases parts@.len() - k,
    {
        let (p, q) = parts[k];
        assert(sp[k as int] == (p as int, q as int));
        let (x, y) = trim_bounds(l, p, q);
        if x < y {
            let ghost before = strings_view(out@);
            out.push(string_of_range(l, x, y));
            assert(strings_view(out@) =~= before.push(l@.subrange(x as int, y as int)));
        }
        k = k + 1;
    }
    out
}

/// The data lines of a control file (see [`control_file_lines`]).
pub fn control_lines(text: &str) -> (r: Vec<ControlLine>)
    ensures
        r@.map_values(|c: ControlLine| control_line_view(c)) == control_file_lines(text@),
{
    let chars = chars_of(text);
    let s = chars.as_slice();
    let spans = lines(s);
    let ghost sp = span_ints(spans@);
    let mut out: Vec<ControlLine> = Vec::new();
    let mut i: usize = 0;
    while i < spans.len()
        invariant
            s@ == text@,
            sp == span_ints(spans@),
            sp == line_spans(s@, 0),
            i <= spans@.len(),
            forall|k: int| 0 <= k < spans@.len() ==> #[trigger] spans@[k].0 <= spans@[k].1 <= s@.len(),
            out@.map_values(|c: ControlLine| control_line_view(c)) == control_upto(s@, sp, i as int),
        decreases spans@.len() - i,
    {
        let (a, b) = spans[i];
        assert(sp[i as int] == (a as int, b as int));
        let (x, y) = trim_bounds(s, a, b);
        if x < y && s[x] != '#' {
            let l = slice_subrange(s, x, y);
            let ghost before = out@.map_values(|c: ControlLine| control_line_view(c));
            let line = ControlLine {
                number: i + 1,
                text: string_of_range(s, x, y),
                tokens: tokens_of(l),
            };
            let ghost lv = control_line_view(line);
            out.push(line);
            assert(out@.map_values(|c: ControlLine| control_line_view(c)) =~= before.push(lv));
        }
        i = i + 1;
    }
    out
}

/// Why a control line cannot be read as a pair.
#[derive(Debug, Clone, Copy, PartialEq, Eq, Structural)]
pub enum ControlLineError {
    /// Five tokens with a number at both ends (or at neither): the ID could
    /// be first or last.
    AmbiguousId,
    /// Neither four tokens nor five with an ID at one end.
    FieldCount,
}

/// The four coordinate tokens of a line with `toks` tokens, given whether
/// its first and last tokens read as numbers: with five tokens the
/// non-numeric end is the point ID and is dropped; five all-numeric (or
/// all-non-numeric ends) is ambiguous; any count but four is an error.
pub open spec fn coordinate_tokens_of(
    toks: Seq<Seq<char>>,
    first_numeric: bool,
    last_numeric: bool,
) -> Result<Seq<Seq<char>>, ControlLineError> {
    if toks.len() == 5 {
        if !first_numeric && last_numeric {
            Ok(toks.drop_first())
        } else if first_numeric && !last_numeric {
            Ok(toks.drop_last())
        } else {
            Err(ControlLineError::AmbiguousId)
        }
    } else if toks.len() == 4 {
        Ok(toks)
    } else {
        Err(ControlLineError::FieldCount)
    }
}

/// The four coordinate tokens of a control line (see [`coordinate_tokens_of`]);
/// `first_numeric` and `last_numeric` say whether its first and last tokens
/// read as numbers.
pub fn coordinate_tokens(toks: &Vec<String>, first_numeric: bool, last_numeric: bool) -> (r: Result<
    Vec<String>,
    ControlLineError,
>)
    ensures
        r matches Ok(v) ==> coordinate_tokens_of(strings_view(toks@), first_numeric, last_numeric)
            == Ok::<Seq<Seq<char>>, ControlLineError>(strings_view(v@)),
        r matches Err(e) ==> coordinate_tokens_of(strings_view(toks@), first_numeric, last_numeric)
            == Err::<Seq<Seq<char>>, ControlLineError>(e),
{
    let mut v = toks.clone();
    assert(strings_view(v@) =~= strings_view(toks@));
    if v.len() == 5 {
        if !first_numeric && last_numeric {
            let ghost before = strings_view(v@);
            v.remove(0);
            assert(strings_view(v@) =~= before.drop_first());
            Ok(v)
        } else if first_numeric && !last_numeric {
            let ghost before = strings_view(v@);
            v.pop();
            assert(strings_view(v@) =~= before.drop_last());
            Ok(v)
        } else {
            Err(ControlLineError::AmbiguousId)
        }
    } else if v.len() == 4 {
        Ok(v)
    } else {
        Err(ControlLineError::FieldCount)
    }
}

} // verus!
