//! Recognized survey plans: the inline control codes that plan labels carry,
//! and the direction-independent identity of plan segments. (The plan
//! geometry itself is JSON of real coordinates and is read by the
//! application; a segment is identified here by the exact bit patterns of its
//! endpoint coordinates.)
use vstd::prelude::*;

use crate::text::{
    chars_of, contains, lemma_find_from, lemma_replace_absent, occurs_at, replace_all,
    replace_chars, string_of_chars,
};

verus! {

/// `%%d` → `°`, then `%%p` → `±`, then `%%c` → `⌀` (each a left-to-right
/// replacement of the text so far).
pub open spec fn decoded_text(s: Seq<char>) -> Seq<char> {
    replace_all(
        replace_all(
            replace_all(s, seq!['%', '%', 'd'], seq!['\u{b0}']),
            seq!['%', '%', 'p'],
            seq!['\u{b1}'],
        ),
        seq!['%', '%', 'c'],
        seq!['\u{2300}'],
    )
}

/// Translate AutoCAD/MicroSurvey inline control codes to Unicode for display
/// (`%%d`→°, `%%p`→±, `%%c`→⌀).
pub fn decode_text(s: &str) -> (r: String)
    ensures
        r@ == decoded_text(s@),
{
    let chars = chars_of(s);
    let d: Vec<char> = vec!['%', '%', 'd'];
    let p: Vec<char> = vec!['%', '%', 'p'];
    let c: Vec<char> = vec!['%', '%', 'c'];
    let deg: Vec<char> = vec!['\u{b0}'];
    let pm: Vec<char> = vec!['\u{b1}'];
    let dia: Vec<char> = vec!['\u{2300}'];
    assert(d@ =~= seq!['%', '%', 'd']);
    assert(p@ =~= seq!['%', '%', 'p']);
    assert(c@ =~= seq!['%', '%', 'c']);
    assert(deg@ =~= seq!['\u{b0}']);
    assert(pm@ =~= seq!['\u{b1}']);
    assert(dia@ =~= seq!['\u{2300}']);
    let a = replace_chars(chars.as_slice(), d.as_slice(), deg.as_slice());
    let b = replace_chars(a.as_slice(), p.as_slice(), pm.as_slice());
    let e = replace_chars(b.as_slice(), c.as_slice(), dia.as_slice());
    string_of_chars(e.as_slice())
}

/// A pattern that begins with a character absent from `s` never occurs.
pub proof fn lemma_no_occurrence(s: Seq<char>, pat: Seq<char>)
    requires
        pat.len() > 0,
        !s.contains(pat[0]),
    ensures
        forall|i: int| 0 <= i ==> !#[trigger] occurs_at(s, pat, i),
{
    assert forall|i: int| 0 <= i implies !#[trigger] occurs_at(s, pat, i) by {
        if occurs_at(s, pat, i) {
            assert(s.subrange(i, i + pat.len())[0] == pat[0]);
            assert(s[i] == pat[0]);
        }
    }
}

/// Text without a `%` carries no control code: decoding leaves it unchanged.
pub proof fn law_decode_text_plain(s: Seq<char>)
    requires
        !s.contains('%'),
    ensures
        decoded_text(s) == s,
{
    lemma_no_occurrence(s, seq!['%', '%', 'd']);
    lemma_replace_absent(s, seq!['%', '%', 'd'], seq!['\u{b0}']);
    lemma_no_occurrence(s, seq!['%', '%', 'p']);
    lemma_replace_absent(s, seq!['%', '%', 'p'], seq!['\u{b1}']);
    lemma_no_occurrence(s, seq!['%', '%', 'c']);
    lemma_replace_absent(s, seq!['%', '%', 'c'], seq!['\u{2300}']);
}


/// The control code `%%x`.
pub open spec fn code(x: char) -> Seq<char> {
    seq!['%', '%', x]
}

/// `pat` occurs nowhere in `s`.
pub open spec fn lacks(s: Seq<char>, pat: Seq<char>) -> bool {
    forall|i: int| 0 <= i ==> !#[trigger] occurs_at(s, pat, i)
}

/// Replacing `%%x1` by a single character `r` that is neither `%` nor `x2`
/// leaves no `%%x2` behind: not the replaced code itself (`x1 == x2`), and
/// no other code that was absent before.
proof fn lemma_replace_leaves_no_code(s: Seq<char>, x1: char, x2: char, r: char)
    requires
        r != '%',
        r != x2,
        x1 == x2 || lacks(s, code(x2)),
    ensures
        lacks(replace_all(s, code(x1), seq![r]), code(x2)),
    decreases s.len(),
{
    let q1 = code(x1);
    let q2 = code(x2);
    let out = replace_all(s, q1, seq![r]);
    if s.len() == 0 {
        assert forall|i: int| 0 <= i implies !#[trigger] occurs_at(out, q2, i) by {}
    } else if q1.len() <= s.len() && s.take(q1.len() as int) =~= q1 {
        let u = s.skip(3);
        assert(x1 == x2 || lacks(u, q2)) by {
            if x1 != x2 {
                assert forall|i: int| 0 <= i implies !#[trigger] occurs_at(u, q2, i) by {
                    if occurs_at(u, q2, i) {
                        assert(s.subrange(i + 3, i + 6) =~= u.subrange(i, i + 3));
                        assert(occurs_at(s, q2, i + 3));
                    }
                }
            }
        }
        lemma_replace_leaves_no_code(u, x1, x2, r);
        let ru = replace_all(u, q1, seq![r]);
        assert(out == seq![r] + ru);
        assert forall|i: int| 0 <= i implies !#[trigger] occurs_at(out, q2, i) by {
            if occurs_at(out, q2, i) {
                if i == 0 {
                    assert(out.subrange(0, 3)[0] == q2[0]);
                } else {
                    assert(ru.subrange(i - 1, i + 2) =~= out.subrange(i, i + 3));
                    assert(occurs_at(ru, q2, i - 1));
                }
            }
        }
    } else {
        let t = s.drop_first();
        assert(x1 == x2 || lacks(t, q2)) by {
            if x1 != x2 {
                assert forall|i: int| 0 <= i implies !#[trigger] occurs_at(t, q2, i) by {
                    if occurs_at(t, q2, i) {
                        assert(s.subrange(i + 1, i + 4) =~= t.subrange(i, i + 3));
                        assert(occurs_at(s, q2, i + 1));
                    }
                }
            }
        }
        lemma_replace_leaves_no_code(t, x1, x2, r);
        let rt = replace_all(t, q1, seq![r]);
        assert(out == seq![s[0]] + rt);
        assert forall|i: int| 0 <= i implies !#[trigger] occurs_at(out, q2, i) by {
            if occurs_at(out, q2, i) {
                if i == 0 {
                    let w = out.subrange(0, 3);
                    assert(w[0] == '%' && w[1] == '%' && w[2] == x2);
                    assert(out[0] == '%' && out[1] == '%' && out[2] == x2);
                    assert(s[0] == '%');
                    assert(rt.len() >= 2);
                    assert(rt[0] == '%' && rt[1] == x2);
                    assert(t.len() > 0);
                    if q1.len() <= t.len() && t.take(3) =~= q1 {
                        assert(rt[0] == r);
                    } else {
                        let t2 = t.drop_first();
                        let rt2 = replace_all(t2, q1, seq![r]);
                        assert(rt == seq![t[0]] + rt2);
                        assert(t[0] == '%');
                        assert(rt2.len() >= 1);
                        assert(t2.len() > 0);
                        if q1.len() <= t2.len() && t2.take(3) =~= q1 {
                            assert(rt2[0] == r);
                        } else {
                            assert(rt2 == seq![t2[0]] + replace_all(t2.drop_first(), q1, seq![r]));
                            assert(t2[0] == x2);
                            assert(s[1] == t[0] && s[2] == t2[0]);
                            assert(s.subrange(0, 3) =~= q2);
                            assert(occurs_at(s, q2, 0));
                            if x1 == x2 {
                                assert(s.take(3) =~= q1);
                            }
                        }
                    }
                } else {
                    assert(rt.subrange(i - 1, i + 2) =~= out.subrange(i, i + 3));
                    assert(occurs_at(rt, q2, i - 1));
                }
            }
        }
    }
}

/// Decoding leaves no control code behind: the result holds none of `%%d`,
/// `%%p` or `%%c`.
pub proof fn lemma_decoded_lacks_codes(s: Seq<char>)
    ensures
        lacks(decoded_text(s), code('d')),
        lacks(decoded_text(s), code('p')),
        lacks(decoded_text(s), code('c')),
{
    let a = replace_all(s, code('d'), seq!['\u{b0}']);
    let b = replace_all(a, code('p'), seq!['\u{b1}']);
    assert(code('d') =~= seq!['%', '%', 'd']);
    assert(code('p') =~= seq!['%', '%', 'p']);
    assert(code('c') =~= seq!['%', '%', 'c']);
    lemma_replace_leaves_no_code(s, 'd', 'd', '\u{b0}');
    lemma_replace_leaves_no_code(a, 'p', 'd', '\u{b1}');
    lemma_replace_leaves_no_code(b, 'c', 'd', '\u{2300}');
    lemma_replace_leaves_no_code(a, 'p', 'p', '\u{b1}');
    lemma_replace_leaves_no_code(b, 'c', 'p', '\u{2300}');
    lemma_replace_leaves_no_code(b, 'c', 'c', '\u{2300}');
}

proof fn lemma_lacks_not_contains(s: Seq<char>, pat: Seq<char>)
    ensures
        lacks(s, pat) <==> !contains(s, pat),
{
    lemma_find_from(s, pat, 0);
}

/// Decoding replaces the control codes `%%d`, `%%p`, `%%c` and nothing
/// else: text without `%%` comes back unchanged, decoded text holds none of
/// the codes, and decoding it again changes nothing.
pub proof fn law_decode_text(s: Seq<char>)
    ensures
        !contains(s, seq!['%', '%']) ==> decoded_text(s) == s,
        !contains(decoded_text(s), code('d')),
        !contains(decoded_text(s), code('p')),
        !contains(decoded_text(s), code('c')),
        decoded_text(decoded_text(s)) == decoded_text(s),
{
    let dt = decoded_text(s);
    lemma_decoded_lacks_codes(s);
    lemma_lacks_not_contains(dt, code('d'));
    lemma_lacks_not_contains(dt, code('p'));
    lemma_lacks_not_contains(dt, code('c'));
    assert(code('d') =~= seq!['%', '%', 'd']);
    assert(code('p') =~= seq!['%', '%', 'p']);
    assert(code('c') =~= seq!['%', '%', 'c']);
    lemma_replace_absent(dt, code('d'), seq!['\u{b0}']);
    lemma_replace_absent(dt, code('p'), seq!['\u{b1}']);
    lemma_replace_absent(dt, code('c'), seq!['\u{2300}']);
    if !contains(s, seq!['%', '%']) {
        lemma_lacks_not_contains(s, seq!['%', '%']);
        assert forall|x: char| #[trigger] code(x).len() == 3 implies lacks(s, code(x)) by {
            assert forall|i: int| 0 <= i implies !#[trigger] occurs_at(s, code(x), i) by {
                if occurs_at(s, code(x), i) {
                    assert(s.subrange(i, i + 3)[0] == '%' && s.subrange(i, i + 3)[1] == '%');
                    assert(s.subrange(i, i + 2) =~= seq!['%', '%']);
                    assert(occurs_at(s, seq!['%', '%'], i));
                }
            }
        }
        assert(code('d').len() == 3 && code('p').len() == 3 && code('c').len() == 3);
        lemma_replace_absent(s, code('d'), seq!['\u{b0}']);
        lemma_replace_absent(s, code('p'), seq!['\u{b1}']);
        lemma_replace_absent(s, code('c'), seq!['\u{2300}']);
    }
}


/// Lexicographic order of two `(x, y)` bit-pattern pairs (the order of
/// `[u64; 2]`).
pub open spec fn pair_le(a: (u64, u64), b: (u64, u64)) -> bool {
    a.0 < b.0 || (a.0 == b.0 && a.1 <= b.1)
}

/// The key of the segment between endpoints `a` and `b` (each the bit
/// patterns of its x and y): the smaller endpoint first.
pub open spec fn seg_key_of(a: (u64, u64), b: (u64, u64)) -> Seq<u64> {
    if pair_le(a, b) {
        seq![a.0, a.1, b.0, b.1]
    } else {
        seq![b.0, b.1, a.0, a.1]
    }
}

/// Key for the segment `a`–`b`, the same in either direction (see
/// [`seg_key_of`]).
pub fn seg_key(a: (u64, u64), b: (u64, u64)) -> (r: [u64; 4])
    ensures
        r@ == seg_key_of(a, b),
{
    let r = if a.0 < b.0 || (a.0 == b.0 && a.1 <= b.1) {
        [a.0, a.1, b.0, b.1]
    } else {
        [b.0, b.1, a.0, a.1]
    };
    assert(r@ =~= seg_key_of(a, b));
    r
}

/// A segment's key does not depend on its direction, and two segments have
/// the same key exactly when they join the same two endpoints.
pub proof fn law_seg_key_identifies_segment(
    a: (u64, u64),
    b: (u64, u64),
    c: (u64, u64),
    d: (u64, u64),
)
    ensures
        seg_key_of(a, b) == seg_key_of(b, a),
        seg_key_of(a, b) == seg_key_of(c, d) <==> ((a == c && b == d) || (a == d && b == c)),
{
    let k1 = seg_key_of(a, b);
    let k2 = seg_key_of(c, d);
    if k1 == k2 {
        assert(k1[0] == k2[0] && k1[1] == k2[1] && k1[2] == k2[2] && k1[3] == k2[3]);
    }
    if (a == c && b == d) || (a == d && b == c) {
        assert(k1 =~= k2);
    }
    assert(seg_key_of(a, b) =~= seg_key_of(b, a));
}

/// The keys of the edges of a chain of points, one per consecutive pair
/// (a closed ring's closing edge included, since the chain repeats its first
/// point).
pub fn edge_keys(points: &[(u64, u64)]) -> (r: Vec<[u64; 4]>)
    ensures
        r@.len() == if points@.len() == 0 {
            0
        } else {
            points@.len() - 1
        },
        forall|i: int| 0 <= i < r@.len() ==> (#[trigger] r@[i])@ == seg_key_of(points@[i], points@[i + 1]),
{
    let mut r: Vec<[u64; 4]> = Vec::new();
    if points.len() == 0 {
        return r;
    }
    let n = points.len() - 1;
    let mut i: usize = 0;
    while i < n
        invariant
            n + 1 == points@.len(),
            i <= n,
            r@.len() == i,
            forall|k: int| 0 <= k < i ==> (#[trigger] r@[k])@ == seg_key_of(points@[k], points@[k + 1]),
        decreases points@.len() - i,
    {
        r.push(seg_key(points[i], points[i + 1]));
        i = i + 1;
    }
    r
}

} // verus!
