//! Text pieces of the animated-SVG explainers: XML escaping, the document
//! head, the subtitle line and the keyframe timeline. (The geometry of the
//! animations is computed in real numbers by the application.)
use vstd::prelude::*;

use crate::text::{
    chars_of, lemma_replace_char_removes, lemma_replace_keeps_out, push_chars, replace_all,
    replace_chars, string_of_chars,
};

verus! {

/// Opening of every explainer: the 680 x 380 view box, namespace, font and
/// role, then the start of the title.
pub const SVG_OPEN: &'static str = "<svg viewBox=\"0 0 680 380\" xmlns=\"http://www.w3.org/2000/svg\" font-family=\"ui-sans-serif, system-ui, sans-serif\" role=\"img\">\n<title>";

/// Between the title and the description.
pub const SVG_TITLE_TO_DESC: &'static str = "</title><desc>";

/// After the description: the theme-aware colour variables.
pub const SVG_HEAD_CLOSE: &'static str = "</desc>\n<style>:root{--ink:var(--text-primary,#1f2328);--muted:var(--text-secondary,#57606a);}</style>\n";

/// Opening of the subtitle line, centred at the bottom of the view box.
pub const SUBTITLE_OPEN: &'static str = "<text x=\"340\" y=\"370\" text-anchor=\"middle\" font-size=\"11\" fill=\"var(--muted)\">";

/// Closing of the subtitle line.
pub const SUBTITLE_CLOSE: &'static str = "</text>\n";

/// The loop keyframe fractions: source, scaled, rotated, final, hold,
/// back-to-source.
pub const KEY_TIMES: &'static str = "0;0.16;0.4;0.66;0.85;1";

/// `&` → `&amp;`, then `<` → `&lt;`, then `>` → `&gt;`.
pub open spec fn escaped(s: Seq<char>) -> Seq<char> {
    replace_all(
        replace_all(
            replace_all(s, seq!['&'], seq!['&', 'a', 'm', 'p', ';']),
            seq!['<'],
            seq!['&', 'l', 't', ';'],
        ),
        seq!['>'],
        seq!['&', 'g', 't', ';'],
    )
}

fn escape_chars(s: &[char]) -> (r: Vec<char>)
    ensures
        r@ == escaped(s@),
{
    let amp: Vec<char> = vec!['&'];
    let lt: Vec<char> = vec!['<'];
    let gt: Vec<char> = vec!['>'];
    let amp_e: Vec<char> = vec!['&', 'a', 'm', 'p', ';'];
    let lt_e: Vec<char> = vec!['&', 'l', 't', ';'];
    let gt_e: Vec<char> = vec!['&', 'g', 't', ';'];
    assert(amp@ =~= seq!['&']);
    assert(lt@ =~= seq!['<']);
    assert(gt@ =~= seq!['>']);
    assert(amp_e@ =~= seq!['&', 'a', 'm', 'p', ';']);
    assert(lt_e@ =~= seq!['&', 'l', 't', ';']);
    assert(gt_e@ =~= seq!['&', 'g', 't', ';']);
    let a = replace_chars(s, amp.as_slice(), amp_e.as_slice());
    let b = replace_chars(a.as_slice(), lt.as_slice(), lt_e.as_slice());
    replace_chars(b.as_slice(), gt.as_slice(), gt_e.as_slice())
}

/// Escape the XML markup characters of `s` (see [`escaped`]).
pub fn xml_escape(s: &str) -> (r: String)
    ensures
        r@ == escaped(s@),
{
    let e = escape_chars(chars_of(s).as_slice());
    string_of_chars(e.as_slice())
}

/// Escaped text holds no `<` and no `>`, so it cannot open or close markup.
pub proof fn law_escaped_has_no_markup(s: Seq<char>)
    ensures
        !escaped(s).contains('<'),
        !escaped(s).contains('>'),
{
    let a = replace_all(s, seq!['&'], seq!['&', 'a', 'm', 'p', ';']);
    let b = replace_all(a, seq!['<'], seq!['&', 'l', 't', ';']);
    let gt_e = seq!['&', 'g', 't', ';'];
    let lt_e = seq!['&', 'l', 't', ';'];
    assert(!lt_e.contains('<')) by {
        if lt_e.contains('<') {
            let k = choose|k: int| 0 <= k < lt_e.len() && lt_e[k] == '<';
        }
    }
    assert(!gt_e.contains('<') && !gt_e.contains('>')) by {
        if gt_e.contains('<') {
            let k = choose|k: int| 0 <= k < gt_e.len() && gt_e[k] == '<';
        }
        if gt_e.contains('>') {
            let k = choose|k: int| 0 <= k < gt_e.len() && gt_e[k] == '>';
        }
    }
    lemma_replace_char_removes(a, '<', lt_e);
    lemma_replace_keeps_out(b, seq!['>'], gt_e, '<');
    lemma_replace_char_removes(b, '>', gt_e);
}

/// The head of an explainer: view box, escaped title and description, and
/// the colour variables.
pub open spec fn svg_head_text(title: Seq<char>, desc: Seq<char>) -> Seq<char> {
    SVG_OPEN@ + escaped(title) + SVG_TITLE_TO_DESC@ + escaped(desc) + SVG_HEAD_CLOSE@
}

/// The head of an explainer (see [`svg_head_text`]).
pub fn svg_head(title: &str, desc: &str) -> (r: String)
    ensures
        r@ == svg_head_text(title@, desc@),
{
    let mut out: Vec<char> = Vec::new();
    push_chars(&mut out, chars_of(SVG_OPEN).as_slice());
    push_chars(&mut out, escape_chars(chars_of(title).as_slice()).as_slice());
    push_chars(&mut out, chars_of(SVG_TITLE_TO_DESC).as_slice());
    push_chars(&mut out, escape_chars(chars_of(desc).as_slice()).as_slice());
    push_chars(&mut out, chars_of(SVG_HEAD_CLOSE).as_slice());
    assert(out@ =~= svg_head_text(title@, desc@));
    string_of_chars(out.as_slice())
}

/// The subtitle line, with its text escaped.
pub open spec fn subtitle_text(s: Seq<char>) -> Seq<char> {
    SUBTITLE_OPEN@ + escaped(s) + SUBTITLE_CLOSE@
}

/// The subtitle line (see [`subtitle_text`]).
pub fn subtitle(s: &str) -> (r: String)
    ensures
        r@ == subtitle_text(s@),
{
    let mut out: Vec<char> = Vec::new();
    push_chars(&mut out, chars_of(SUBTITLE_OPEN).as_slice());
    push_chars(&mut out, escape_chars(chars_of(s).as_slice()).as_slice());
    push_chars(&mut out, chars_of(SUBTITLE_CLOSE).as_slice());
    assert(out@ =~= subtitle_text(s@));
    string_of_chars(out.as_slice())
}

/// The keyframe timeline as an SVG `keyTimes` list.
pub fn key_times_str() -> (r: String)
    ensures
        r@ == KEY_TIMES@,
{
    string_of_chars(chars_of(KEY_TIMES).as_slice())
}

} // verus!
