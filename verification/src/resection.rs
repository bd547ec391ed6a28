//! Resection shot files — the text side. Each non-blank, non-`#` line is
//! `knownN, knownE, direction_deg[, distance][, name]`, comma or whitespace
//! separated; a blank distance field makes the shot angle-only, and a shot
//! without a name is called `PT<n>` after its position among the accepted
//! shots. Reading the numbers is left to the caller.
use vstd::prelude::*;
use vstd::slice::slice_subrange;

use crate::dxf::{digits, push_digits};
use crate::text::{
    chars_of, line_spans, lines, span_ints, split_at_any, split_spans, split_words,
    string_of_chars, string_of_range, trim, trim_bounds, trim_chars, views, words,
};

verus! {

/// The trimmed pieces of `l` split at every comma (`str::split(',')`).
pub open spec fn comma_pieces(l: Seq<char>) -> Seq<Seq<char>> {
    split_spans(l, seq![','], 0).map_values(|p: (int, int)| trim(l.subrange(p.0, p.1)))
}

/// The fields of one line of a shot file: nothing for a blank or `#` line;
/// else its comma-separated fields when there are at least three, otherwise
/// its whitespace-separated words; nothing when that leaves fewer than three.
pub open spec fn shot_tokens(line: Seq<char>) -> Option<Seq<Seq<char>>> {
    let l = trim(line);
    if l.len() == 0 || l[0] == '#' {
        None
    } else {
        let f = comma_pieces(l);
        let toks = if f.len() >= 3 {
            f
        } else {
            words(l)
        };
        if toks.len() < 3 {
            None
        } else {
            Some(toks)
        }
    }
}

/// The field lists of the first `n` lines.
pub open spec fn shots_upto(text: Seq<char>, spans: Seq<(int, int)>, n: int) -> Seq<Seq<Seq<char>>>
    decreases n,
{
    if n <= 0 {
        seq![]
    } else {
        let prev = shots_upto(text, spans, n - 1);
        match shot_tokens(text.subrange(spans[n - 1].0, spans[n - 1].1)) {
            Some(t) => prev.push(t),
            None => prev,
        }
    }
}

/// The field lists of the candidate shots of a shot file, line by line.
pub open spec fn shot_lines(text: Seq<char>) -> Seq<Seq<Seq<char>>> {
    let spans = line_spans(text, 0);
    shots_upto(text, spans, spans.len() as int)
}

/// The character sequences held by a list of strings.
pub open spec fn strings_view(v: Seq<String>) -> Seq<Seq<char>> {
    v.map_values(|s: String| s@)
}

/// The field lists held by a list of string lists.
pub open spec fn lists_view(v: Seq<Vec<String>>) -> Seq<Seq<Seq<char>>> {
    v.map_values(|l: Vec<String>| strings_view(l@))
}

fn comma_fields_of(l: &[char]) -> (r: Vec<String>)
    ensures
        strings_view(r@) == comma_pieces(l@),
{
    let comma: Vec<char> = vec![','];
    assert(comma@ =~= seq![',']);
    let parts = split_at_any(l, comma.as_slice(), 0);
    let ghost f = comma_pieces(l@);
    let mut out: Vec<String> = Vec::new();
    let mut k: usize = 0;
    while k < parts.len()
        invariant
            k <= parts@.len(),
            f == comma_pieces(l@),
            span_ints(parts@) == split_spans(l@, seq![','], 0),
            forall|j: int| 0 <= j < parts@.len() ==> #[trigger] parts@[j].0 <= parts@[j].1 <= l@.len(),
            strings_view(out@) == f.take(k as int),
        decreases parts@.len() - k,
    {
        let (p, q) = parts[k];
        assert(span_ints(parts@)[k as int] == (p as int, q as int));
        let (x, y) = trim_bounds(l, p, q);
        let ghost before = strings_view(out@);
        out.push(string_of_range(l, x, y));
        assert(strings_view(out@) =~= before.push(f[k as int]));
        assert(f.take(k + 1) =~= f.take(k as int).push(f[k as int]));
        k = k + 1;
    }
    assert(f.take(parts@.len() as int) =~= f);
    out
}

fn strings_of_words(w: &Vec<Vec<char>>) -> (r: Vec<String>)
    ensures
        strings_view(r@) == views(w@),
{
    let mut out: Vec<String> = Vec::new();
    let mut k: usize = 0;
    while k < w.len()
        invariant
            k <= w@.len(),
            strings_view(out@) == views(w@).take(k as int),
        decreases w@.len() - k,
    {
        let ghost before = strings_view(out@);
        out.push(string_of_chars(w[k].as_slice()));
        assert(strings_view(out@) =~= before.push(views(w@)[k as int]));
        assert(views(w@).take(k + 1) =~= views(w@).take(k as int).push(views(w@)[k as int]));
        k = k + 1;
    }
    assert(views(w@).take(w@.len() as int) =~= views(w@));
    out
}

fn shot_tokens_of_line(s: &[char], from: usize, to: usize) -> (r: Option<Vec<String>>)
    requires
        from <= to <= s@.len(),
    ensures
        r matches Some(t) ==> shot_tokens(s@.subrange(from as int, to as int)) == Some(
            strings_view(t@),
        ),
        r is None ==> shot_tokens(s@.subrange(from as int, to as int)) is None,
{
    let (a, b) = trim_bounds(s, from, to);
    if a == b || s[a] == '#' {
        return None;
    }
    let l = slice_subrange(s, a, b);
    let fields = comma_fields_of(l);
    let toks = if fields.len() >= 3 {
        fields
    } else {
        let w = split_words(l);
        strings_of_words(&w)
    };
    if toks.len() < 3 {
        None
    } else {
        Some(toks)
    }
}

/// The field lists of the candidate shots of a shot file (see [`shot_lines`]).
pub fn shot_token_lines(text: &str) -> (r: Vec<Vec<String>>)
    ensures
        lists_view(r@) == shot_lines(text@),
{
    let chars = chars_of(text);
    let s = chars.as_slice();
    let spans = lines(s);
    let ghost sp = span_ints(spans@);
    let mut out: Vec<Vec<String>> = Vec::new();
    let mut i: usize = 0;
    while i < spans.len()
        invariant
            s@ == text@,
            sp == span_ints(spans@),
            sp == line_spans(s@, 0),
            i <= spans@.len(),
            forall|k: int| 0 <= k < spans@.len() ==> #[trigger] spans@[k].0 <= spans@[k].1 <= s@.len(),
            lists_view(out@) == shots_upto(s@, sp, i as int),
        decreases spans@.len() - i,
    {
        let (a, b) = spans[i];
        assert(sp[i as int] == (a as int, b as int));
        let ghost before = lists_view(out@);
        match shot_tokens_of_line(s, a, b) {
            Some(t) => {
                let ghost tv = strings_view(t@);
                out.push(t);
                assert(lists_view(out@) =~= before.push(tv));
            },
            None => {},
        }
        i = i + 1;
    }
    out
}

/// The distance field of a shot, trimmed: nothing when the shot has no
/// fourth field or it is blank (an angle-only shot).
pub open spec fn distance_field(toks: Seq<Seq<char>>) -> Option<Seq<char>> {
    if toks.len() > 3 && trim(toks[3]).len() > 0 {
        Some(trim(toks[3]))
    } else {
        None
    }
}

/// The text of the distance field of a shot (see [`distance_field`]).
pub fn distance_text(toks: &Vec<String>) -> (r: Option<String>)
    ensures
        r matches Some(d) ==> distance_field(strings_view(toks@)) == Some(d@),
        r is None ==> distance_field(strings_view(toks@)) is None,
{
    if toks.len() <= 3 {
        return None;
    }
    let c = chars_of(toks[3].as_str());
    let t = trim_chars(c.as_slice());
    if t.len() == 0 {
        None
    } else {
        Some(string_of_chars(t.as_slice()))
    }
}

/// The name of a shot: its fifth field, trimmed, when that is not blank;
/// else `PT<n>` where `n` is one more than the number of shots accepted
/// before it.
pub open spec fn shot_name_of(toks: Seq<Seq<char>>, accepted: nat) -> Seq<char> {
    if toks.len() > 4 && trim(toks[4]).len() > 0 {
        trim(toks[4])
    } else {
        seq!['P', 'T'] + digits(accepted + 1)
    }
}

/// The name of a shot (see [`shot_name_of`]).
pub fn shot_name(toks: &Vec<String>, accepted: usize) -> (r: String)
    requires
        accepted < usize::MAX,
    ensures
        r@ == shot_name_of(strings_view(toks@), accepted as nat),
{
    if toks.len() > 4 {
        let c = chars_of(toks[4].as_str());
        let t = trim_chars(c.as_slice());
        if t.len() > 0 {
            return string_of_chars(t.as_slice());
        }
    }
    let p = chars_of("PT");
    let mut r = string_of_chars(p.as_slice());
    proof {
        reveal_strlit("PT");
    }
    push_digits(&mut r, (accepted as u64) + 1);
    r
}


/// Which fields a shot line yields: a line with three or more comma-separated
/// fields yields all of them, trimmed; any other line yields all of its
/// whitespace-separated words, none dropped (so a fifth word, the name, is
/// kept), when there are at least three; blank and `#` lines and shorter
/// lines yield nothing.
pub proof fn law_shot_tokens(line: Seq<char>)
    ensures
        ({
            let l = trim(line);
            &&& (l.len() == 0 || l[0] == '#') ==> shot_tokens(line) is None
            &&& (l.len() > 0 && l[0] != '#' && comma_pieces(l).len() >= 3) ==> shot_tokens(line)
                == Some(comma_pieces(l))
            &&& (l.len() > 0 && l[0] != '#' && comma_pieces(l).len() < 3 && words(l).len() >= 3)
                ==> shot_tokens(line) == Some(words(l))
            &&& (l.len() > 0 && l[0] != '#' && comma_pieces(l).len() < 3 && words(l).len() < 3)
                ==> shot_tokens(line) is None
        }),
        shot_tokens(line) matches Some(t) ==> t.len() >= 3,
{
}

} // verus!
