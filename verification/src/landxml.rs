//! LandXML TIN-surface scanner — the text side of reading a `<Surface>`.
//!
//! A targeted scanner, not a general XML parser: it finds each `<Surface ...>`,
//! its `name` attribute, the `<P id="k">` point elements inside `<Pnts>` and
//! the `<F>` face elements inside `<Faces>`, and links face point ids to node
//! positions (a later `<P>` with a repeated id takes over that id; faces with
//! the invisible flag `i="1"` are dropped). Reading the point coordinates out
//! of each `<P>` body is left to the caller, which reports back which points
//! gave a coordinate.
use vstd::prelude::*;
use vstd::slice::slice_subrange;
use vstd::string::StringSliceAdditionalSpecFns;

use crate::text::{
    bytes_contain, chars_equal, chars_of, contains, find_chars, find_from, lemma_find_from, split_words,
    string_of_chars, string_of_range, views, words,
};

verus! {

// ---------------------------------------------------------------------------
// model
// ---------------------------------------------------------------------------

/// `"` as a one-character sequence.
pub open spec fn quote() -> Seq<char> {
    seq!['"']
}

/// `>` as a one-character sequence.
pub open spec fn gt() -> Seq<char> {
    seq!['>']
}

/// Value span `(start, end)` of attribute `name` (`name="value"`) in an
/// opening-tag text: the first `name="` and the next `"` after it.
pub open spec fn attr_span(tag: Seq<char>, name: Seq<char>) -> Option<(int, int)> {
    let needle = name + seq!['=', '"'];
    match find_from(tag, needle, 0) {
        None => None,
        Some(p) => match find_from(tag, quote(), p + needle.len()) {
            None => None,
            Some(j) => Some((p + needle.len(), j)),
        },
    }
}

/// Value of attribute `name` in an opening-tag text, if present.
pub open spec fn attr_value(tag: Seq<char>, name: Seq<char>) -> Option<Seq<char>> {
    match attr_span(tag, name) {
        None => None,
        Some((a, b)) => Some(tag.subrange(a, b)),
    }
}

/// Span strictly between the end of the first `open` (its first `>` at or
/// after the match) and the next `close` after that.
pub open spec fn between_span(s: Seq<char>, open: Seq<char>, close: Seq<char>) -> Option<(int, int)> {
    match find_from(s, open, 0) {
        None => None,
        Some(o) => match find_from(s, gt(), o) {
            None => None,
            Some(g) => match find_from(s, close, g + 1) {
                None => None,
                Some(c) => Some((g + 1, c)),
            },
        },
    }
}

/// Start positions of the non-overlapping occurrences of `needle` in `s` at
/// or after `cur`, left to right.
pub open spec fn occurrences(s: Seq<char>, needle: Seq<char>, cur: int) -> Seq<int>
    decreases s.len() - cur,
{
    if cur < 0 || needle.len() == 0 {
        seq![]
    } else {
        match find_from(s, needle, cur) {
            None => seq![],
            Some(at) => {
                proof {
                    lemma_find_from(s, needle, cur);
                }
                seq![at] + occurrences(s, needle, at + needle.len())
            },
        }
    }
}

/// The elements `open ... > text close` found scanning `s` from `cur`, as
/// `(start, gt, text_end)`: `s[start..gt]` is the opening tag and
/// `s[gt + 1..text_end]` the text. A match of `open` not followed by a space
/// or `>` is some other tag and is stepped over; a missing `>` or `close`
/// ends the scan.
pub open spec fn elements(s: Seq<char>, open: Seq<char>, close: Seq<char>, cur: int) -> Seq<
    (int, int, int),
>
    decreases s.len() - cur,
{
    if cur < 0 || open.len() == 0 {
        seq![]
    } else {
        match find_from(s, open, cur) {
            None => seq![],
            Some(start) => {
                proof {
                    lemma_find_from(s, open, cur);
                }
                let k = start + open.len();
                if k < s.len() && (s[k] == ' ' || s[k] == '>') {
                    match find_from(s, gt(), start) {
                        None => seq![],
                        Some(g) => match find_from(s, close, g + 1) {
                            None => seq![],
                            Some(te) => {
                                proof {
                                    lemma_find_from(s, gt(), start);
                                    lemma_find_from(s, close, g + 1);
                                }
                                seq![(start, g, te)] + elements(s, open, close, te + close.len())
                            },
                        },
                    }
                } else {
                    elements(s, open, close, k)
                }
            },
        }
    }
}

/// A `<P>` element: its `id` attribute and its coordinate text.
pub struct PointTag {
    pub id: Option<String>,
    pub text: String,
}

/// A `<F>` element: whether it carries the invisible flag `i="1"`, and the
/// whitespace-separated point ids of its text.
pub struct FaceTag {
    pub invisible: bool,
    pub ids: Vec<Vec<char>>,
}

/// One `<Surface>`: its name and its point and face elements, in order.
pub struct SurfaceScan {
    pub name: String,
    pub points: Vec<PointTag>,
    pub faces: Vec<FaceTag>,
}

/// Mathematical content of a `PointTag`.
pub struct PointTagModel {
    pub id: Option<Seq<char>>,
    pub text: Seq<char>,
}

/// Mathematical content of a `FaceTag`.
pub struct FaceTagModel {
    pub invisible: bool,
    pub ids: Seq<Seq<char>>,
}

/// Mathematical content of a `SurfaceScan`.
pub struct SurfaceScanModel {
    pub name: Seq<char>,
    pub points: Seq<PointTagModel>,
    pub faces: Seq<FaceTagModel>,
}

impl View for PointTag {
    type V = PointTagModel;

    open spec fn view(&self) -> PointTagModel {
        PointTagModel {
            id: match self.id {
                Some(s) => Some(s@),
                None => None,
            },
            text: self.text@,
        }
    }
}

impl View for FaceTag {
    type V = FaceTagModel;

    open spec fn view(&self) -> FaceTagModel {
        FaceTagModel { invisible: self.invisible, ids: views(self.ids@) }
    }
}

impl View for SurfaceScan {
    type V = SurfaceScanModel;

    open spec fn view(&self) -> SurfaceScanModel {
        SurfaceScanModel {
            name: self.name@,
            points: self.points@.map_values(|p: PointTag| p@),
            faces: self.faces@.map_values(|f: FaceTag| f@),
        }
    }
}

} // verus!

verus! {

/// Value span of attribute `name` in the opening-tag text `tag`.
pub fn attr(tag: &[char], name: &[char]) -> (r: Option<(usize, usize)>)
    ensures
        r matches Some((a, b)) ==> attr_span(tag@, name@) == Some((a as int, b as int)),
        r is None ==> attr_span(tag@, name@) is None,
{
    let mut needle: Vec<char> = crate::text::slice_to_vec_range(name, 0, name.len());
    assert(name@.subrange(0, name@.len() as int) =~= name@);
    needle.push('=');
    needle.push('"');
    assert(needle@ =~= name@ + seq!['=', '"']);
    let p = match find_chars(tag, needle.as_slice(), 0) {
        Some(p) => p,
        None => return None,
    };
    proof {
        lemma_find_from(tag@, needle@, 0);
    }
    assert(p + needle@.len() <= tag@.len());
    assert(tag@.len() == tag.len());
    let i = p + needle.len();
    let q: Vec<char> = vec!['"'];
    assert(q@ =~= quote());
    match find_chars(tag, q.as_slice(), i) {
        Some(j) => Some((i, j)),
        None => None,
    }
}

/// Span between the end of the first `open` tag and the next `close`.
pub fn between(s: &[char], open: &[char], close: &[char]) -> (r: Option<(usize, usize)>)
    ensures
        r matches Some((a, b)) ==> between_span(s@, open@, close@) == Some((a as int, b as int)),
        r is None ==> between_span(s@, open@, close@) is None,
{
    let o = match find_chars(s, open, 0) {
        Some(o) => o,
        None => return None,
    };
    let g: Vec<char> = vec!['>'];
    assert(g@ =~= gt());
    let gp = match find_chars(s, g.as_slice(), o) {
        Some(x) => x,
        None => return None,
    };
    proof {
        lemma_find_from(s@, gt(), o as int);
    }
    assert(gp + 1 <= s@.len());
    assert(s@.len() == s.len());
    match find_chars(s, close, gp + 1) {
        Some(c) => Some((gp + 1, c)),
        None => None,
    }
}

} // verus!

verus! {

/// Positions as integers.
pub open spec fn ints(v: Seq<usize>) -> Seq<int> {
    v.map_values(|i: usize| i as int)
}

/// Start positions of the non-overlapping occurrences of `needle` in `s`.
pub fn find_all(s: &[char], needle: &[char]) -> (r: Vec<usize>)
    requires
        needle@.len() > 0,
    ensures
        ints(r@) == occurrences(s@, needle@, 0),
{
    let mut r: Vec<usize> = Vec::new();
    let mut cur: usize = 0;
    assert(ints(r@) + occurrences(s@, needle@, 0) =~= occurrences(s@, needle@, 0));
    loop
        invariant
            cur <= s@.len(),
            s@.len() == s.len(),
            needle@.len() > 0,
            occurrences(s@, needle@, 0) == ints(r@) + occurrences(s@, needle@, cur as int),
        decreases s@.len() - cur,
    {
        match find_chars(s, needle, cur) {
            None => {
                assert(ints(r@) + occurrences(s@, needle@, cur as int) =~= ints(r@));
                return r;
            },
            Some(at) => {
                proof {
                    lemma_find_from(s@, needle@, cur as int);
                }
                let ghost before = ints(r@);
                r.push(at);
                assert(ints(r@) =~= before.push(at as int));
                assert(ints(r@) + occurrences(s@, needle@, at + needle@.len()) =~= before + (seq![
                    at as int,
                ] + occurrences(s@, needle@, at + needle@.len())));
                cur = at + needle.len();
            },
        }
    }
}

/// Element positions as integer triples.
pub open spec fn triples(v: Seq<(usize, usize, usize)>) -> Seq<(int, int, int)> {
    v.map_values(|t: (usize, usize, usize)| (t.0 as int, t.1 as int, t.2 as int))
}

/// The `open ... > text close` elements of `s` (see [`elements`]).
pub fn find_elements(s: &[char], open: &[char], close: &[char]) -> (r: Vec<(usize, usize, usize)>)
    requires
        open@.len() > 0,
    ensures
        triples(r@) == elements(s@, open@, close@, 0),
{
    let mut r: Vec<(usize, usize, usize)> = Vec::new();
    let mut cur: usize = 0;
    let g: Vec<char> = vec!['>'];
    assert(g@ =~= gt());
    assert(triples(r@) + elements(s@, open@, close@, 0) =~= elements(s@, open@, close@, 0));
    loop
        invariant
            cur <= s@.len(),
            s@.len() == s.len(),
            open@.len() > 0,
            g@ == gt(),
            elements(s@, open@, close@, 0) == triples(r@) + elements(s@, open@, close@, cur as int),
        decreases s@.len() - cur,
    {
        let start = match find_chars(s, open, cur) {
            None => {
                assert(triples(r@) + elements(s@, open@, close@, cur as int) =~= triples(r@));
                return r;
            },
            Some(x) => x,
        };
        proof {
            lemma_find_from(s@, open@, cur as int);
        }
        let k = start + open.len();
        if k < s.len() && (s[k] == ' ' || s[k] == '>') {
            let gp = match find_chars(s, g.as_slice(), start) {
                None => {
                    assert(triples(r@) + elements(s@, open@, close@, cur as int) =~= triples(r@));
                    return r;
                },
                Some(x) => x,
            };
            proof {
                lemma_find_from(s@, gt(), start as int);
            }
            let te = match find_chars(s, close, gp + 1) {
                None => {
                    assert(triples(r@) + elements(s@, open@, close@, cur as int) =~= triples(r@));
                    return r;
                },
                Some(x) => x,
            };
            proof {
                lemma_find_from(s@, close@, gp + 1);
            }
            let ghost before = triples(r@);
            r.push((start, gp, te));
            assert(triples(r@) =~= before.push((start as int, gp as int, te as int)));
            assert(triples(r@) + elements(s@, open@, close@, te + close@.len()) =~= before + (seq![
                (start as int, gp as int, te as int),
            ] + elements(s@, open@, close@, te + close@.len())));
            cur = te + close.len();
        } else {
            cur = k;
        }
    }
}

} // verus!

verus! {

/// Every element span lies inside `s` and is ordered.
pub proof fn lemma_elements_bounds(s: Seq<char>, open: Seq<char>, close: Seq<char>, cur: int)
    ensures
        forall|k: int|
            0 <= k < elements(s, open, close, cur).len() ==> {
                let e = #[trigger] elements(s, open, close, cur)[k];
                0 <= cur <= e.0 <= e.1 && e.1 + 1 <= e.2 && e.2 + close.len() <= s.len()
            },
    decreases s.len() - cur,
{
    if cur < 0 || open.len() == 0 {
    } else {
        match find_from(s, open, cur) {
            None => {},
            Some(start) => {
                lemma_find_from(s, open, cur);
                let k = start + open.len();
                if k < s.len() && (s[k] == ' ' || s[k] == '>') {
                    match find_from(s, gt(), start) {
                        None => {},
                        Some(g) => match find_from(s, close, g + 1) {
                            None => {},
                            Some(te) => {
                                lemma_find_from(s, gt(), start);
                                lemma_find_from(s, close, g + 1);
                                lemma_elements_bounds(s, open, close, te + close.len());
                                let rest = elements(s, open, close, te + close.len());
                                assert(elements(s, open, close, cur) == seq![(start, g, te)] + rest);
                                assert forall|j: int|
                                    0 <= j < elements(s, open, close, cur).len() implies {
                                    let e = #[trigger] elements(s, open, close, cur)[j];
                                    0 <= cur <= e.0 <= e.1 && e.1 + 1 <= e.2 && e.2 + close.len()
                                        <= s.len()
                                } by {
                                    if j > 0 {
                                        assert(elements(s, open, close, cur)[j] == rest[j - 1]);
                                    }
                                }
                            },
                        },
                    }
                } else {
                    lemma_elements_bounds(s, open, close, k);
                    assert(elements(s, open, close, cur) == elements(s, open, close, k));
                }
            },
        }
    }
}

/// An attribute value span lies inside the tag.
pub proof fn lemma_attr_bounds(tag: Seq<char>, name: Seq<char>)
    ensures
        attr_span(tag, name) matches Some((a, b)) ==> 0 <= a <= b <= tag.len(),
{
    let needle = name + seq!['=', '"'];
    lemma_find_from(tag, needle, 0);
    if let Some(p) = find_from(tag, needle, 0) {
        lemma_find_from(tag, quote(), p + needle.len());
    }
}

/// A span found by `between_span` lies inside `s`.
pub proof fn lemma_between_bounds(s: Seq<char>, open: Seq<char>, close: Seq<char>)
    ensures
        between_span(s, open, close) matches Some((a, b)) ==> 0 <= a <= b <= s.len(),
{
    lemma_find_from(s, open, 0);
    if let Some(o) = find_from(s, open, 0) {
        lemma_find_from(s, gt(), o);
        if let Some(g) = find_from(s, gt(), o) {
            lemma_find_from(s, close, g + 1);
        }
    }
}

/// Occurrences are in bounds and strictly increasing.
pub proof fn lemma_occurrences_bounds(s: Seq<char>, needle: Seq<char>, cur: int)
    ensures
        forall|k: int|
            0 <= k < occurrences(s, needle, cur).len() ==> cur <= #[trigger] occurrences(
                s,
                needle,
                cur,
            )[k] && occurrences(s, needle, cur)[k] + needle.len() <= s.len(),
        forall|k: int|
            0 <= k < occurrences(s, needle, cur).len() - 1 ==> #[trigger] occurrences(
                s,
                needle,
                cur,
            )[k] + needle.len() <= occurrences(s, needle, cur)[k + 1],
    decreases s.len() - cur,
{
    if cur < 0 || needle.len() == 0 {
    } else {
        match find_from(s, needle, cur) {
            None => {},
            Some(at) => {
                lemma_find_from(s, needle, cur);
                lemma_occurrences_bounds(s, needle, at + needle.len());
                let rest = occurrences(s, needle, at + needle.len());
                let all = occurrences(s, needle, cur);
                assert(all == seq![at] + rest);
                assert forall|k: int| 0 <= k < all.len() implies cur <= #[trigger] all[k] && all[k]
                    + needle.len() <= s.len() by {
                    if k > 0 {
                        assert(all[k] == rest[k - 1]);
                    }
                }
                assert forall|k: int| 0 <= k < all.len() - 1 implies #[trigger] all[k]
                    + needle.len() <= all[k + 1] by {
                    assert(all[k + 1] == rest[k]);
                    if k > 0 {
                        assert(all[k] == rest[k - 1]);
                    }
                }
            },
        }
    }
}

} // verus!

verus! {

/// The part of `s` between the tags `open` and `close`, or nothing.
pub open spec fn section(s: Seq<char>, open: Seq<char>, close: Seq<char>) -> Seq<char> {
    match between_span(s, open, close) {
        Some((a, b)) => s.subrange(a, b),
        None => seq![],
    }
}

/// The `<P>` element `e` of the points section `s`.
pub open spec fn point_model(s: Seq<char>, e: (int, int, int)) -> PointTagModel {
    PointTagModel {
        id: attr_value(s.subrange(e.0, e.1), seq!['i', 'd']),
        text: s.subrange(e.1 + 1, e.2),
    }
}

/// The `<F>` element `e` of the faces section `s`.
pub open spec fn face_model(s: Seq<char>, e: (int, int, int)) -> FaceTagModel {
    FaceTagModel {
        invisible: attr_value(s.subrange(e.0, e.1), seq!['i']) == Some(seq!['1']),
        ids: words(s.subrange(e.1 + 1, e.2)),
    }
}

/// What a `<Surface>` text holds: `None` when its opening tag never closes
/// (no `>`); otherwise the `name` attribute of the opening tag (default
/// `Surface`), the `<P>` elements of its `<Pnts>` section and the `<F>`
/// elements of its `<Faces>` section (a missing section has none).
pub open spec fn scan_model(slice: Seq<char>) -> Option<SurfaceScanModel> {
    match find_from(slice, gt(), 0) {
        None => None,
        Some(open_end) => {
            let head = slice.subrange(0, open_end);
            let pnts = section(
                slice,
                seq!['<', 'P', 'n', 't', 's'],
                seq!['<', '/', 'P', 'n', 't', 's', '>'],
            );
            let faces = section(
                slice,
                seq!['<', 'F', 'a', 'c', 'e', 's'],
                seq!['<', '/', 'F', 'a', 'c', 'e', 's', '>'],
            );
            Some(
                SurfaceScanModel {
                    name: match attr_value(head, seq!['n', 'a', 'm', 'e']) {
                        Some(v) => v,
                        None => seq!['S', 'u', 'r', 'f', 'a', 'c', 'e'],
                    },
                    points: elements(pnts, seq!['<', 'P'], seq!['<', '/', 'P', '>'], 0).map_values(
                        |e: (int, int, int)| point_model(pnts, e),
                    ),
                    faces: elements(faces, seq!['<', 'F'], seq!['<', '/', 'F', '>'], 0).map_values(
                        |e: (int, int, int)| face_model(faces, e),
                    ),
                },
            )
        },
    }
}

/// Attribute value as a new `String`.
fn attr_string(tag: &[char], name: &[char]) -> (r: Option<String>)
    ensures
        r matches Some(v) ==> attr_value(tag@, name@) == Some(v@),
        r is None ==> attr_value(tag@, name@) is None,
{
    proof {
        lemma_attr_bounds(tag@, name@);
    }
    match attr(tag, name) {
        Some((a, b)) => Some(string_of_range(tag, a, b)),
        None => None,
    }
}

/// The `<P>` elements of a points section.
fn scan_points(p: &[char]) -> (r: Vec<PointTag>)
    ensures
        r@.map_values(|t: PointTag| t@) == elements(p@, seq!['<', 'P'], seq!['<', '/', 'P', '>'], 0).map_values(
            |e: (int, int, int)| point_model(p@, e),
        ),
{
    let open: Vec<char> = vec!['<', 'P'];
    let close: Vec<char> = vec!['<', '/', 'P', '>'];
    let id: Vec<char> = vec!['i', 'd'];
    assert(open@ =~= seq!['<', 'P']);
    assert(close@ =~= seq!['<', '/', 'P', '>']);
    assert(id@ =~= seq!['i', 'd']);
    let els = find_elements(p, open.as_slice(), close.as_slice());
    let ghost spec_els = elements(p@, open@, close@, 0);
    proof {
        lemma_elements_bounds(p@, open@, close@, 0);
    }
    let mut r: Vec<PointTag> = Vec::new();
    let mut i: usize = 0;
    while i < els.len()
        invariant
            i <= els@.len(),
            triples(els@) == spec_els,
            spec_els == elements(p@, open@, close@, 0),
            id@ == seq!['i', 'd'],
            close@.len() == 4,
            forall|k: int|
                0 <= k < spec_els.len() ==> {
                    let e = #[trigger] spec_els[k];
                    0 <= e.0 <= e.1 && e.1 + 1 <= e.2 && e.2 + 4 <= p@.len()
                },
            r@.len() == i,
            forall|k: int|
                0 <= k < i ==> (#[trigger] r@[k])@ == point_model(p@, spec_els[k]),
        decreases els@.len() - i,
    {
        let e = els[i];
        assert(spec_els[i as int] == (e.0 as int, e.1 as int, e.2 as int));
        let tag = slice_subrange(p, e.0, e.1);
        let id_value = attr_string(tag, id.as_slice());
        let text = string_of_range(p, e.1 + 1, e.2);
        r.push(PointTag { id: id_value, text });
        i = i + 1;
    }
    assert(r@.map_values(|t: PointTag| t@) =~= spec_els.map_values(
        |e: (int, int, int)| point_model(p@, e),
    ));
    r
}

/// The `<F>` elements of a faces section.
fn scan_faces(f: &[char]) -> (r: Vec<FaceTag>)
    ensures
        r@.map_values(|t: FaceTag| t@) == elements(f@, seq!['<', 'F'], seq!['<', '/', 'F', '>'], 0).map_values(
            |e: (int, int, int)| face_model(f@, e),
        ),
{
    let open: Vec<char> = vec!['<', 'F'];
    let close: Vec<char> = vec!['<', '/', 'F', '>'];
    let flag: Vec<char> = vec!['i'];
    assert(open@ =~= seq!['<', 'F']);
    assert(close@ =~= seq!['<', '/', 'F', '>']);
    assert(flag@ =~= seq!['i']);
    let els = find_elements(f, open.as_slice(), close.as_slice());
    let ghost spec_els = elements(f@, open@, close@, 0);
    proof {
        lemma_elements_bounds(f@, open@, close@, 0);
    }
    let mut r: Vec<FaceTag> = Vec::new();
    let mut i: usize = 0;
    while i < els.len()
        invariant
            i <= els@.len(),
            triples(els@) == spec_els,
            spec_els == elements(f@, open@, close@, 0),
            flag@ == seq!['i'],
            close@.len() == 4,
            forall|k: int|
                0 <= k < spec_els.len() ==> {
                    let e = #[trigger] spec_els[k];
                    0 <= e.0 <= e.1 && e.1 + 1 <= e.2 && e.2 + 4 <= f@.len()
                },
            r@.len() == i,
            forall|k: int|
                0 <= k < i ==> (#[trigger] r@[k])@ == face_model(f@, spec_els[k]),
        decreases els@.len() - i,
    {
        let e = els[i];
        assert(spec_els[i as int] == (e.0 as int, e.1 as int, e.2 as int));
        let tag = slice_subrange(f, e.0, e.1);
        proof {
            lemma_attr_bounds(tag@, flag@);
        }
        let invisible = match attr(tag, flag.as_slice()) {
            Some((a, b)) => b - a == 1 && tag[a] == '1',
            None => false,
        };
        proof {
            if let Some((a, b)) = attr_span(tag@, flag@) {
                if b - a == 1 && tag@[a] == '1' {
                    assert(tag@.subrange(a, b) =~= seq!['1']);
                }
                if tag@.subrange(a, b) =~= seq!['1'] {
                    assert(tag@.subrange(a, b)[0] == tag@[a]);
                }
            }
        }
        let text = slice_subrange(f, e.1 + 1, e.2);
        let ids = split_words(text);
        r.push(FaceTag { invisible, ids });
        i = i + 1;
    }
    assert(r@.map_values(|t: FaceTag| t@) =~= spec_els.map_values(
        |e: (int, int, int)| face_model(f@, e),
    ));
    r
}

} // verus!

verus! {

/// The section of `s` between the tags `open` and `close`, or an empty one.
fn section_of<'a>(s: &'a [char], open: &[char], close: &[char]) -> (r: &'a [char])
    ensures
        r@ == section(s@, open@, close@),
{
    proof {
        lemma_between_bounds(s@, open@, close@);
    }
    match between(s, open, close) {
        Some((a, b)) => slice_subrange(s, a, b),
        None => {
            let e: &[char] = &[];
            assert(e@ =~= Seq::<char>::empty());
            e
        },
    }
}

/// Scan one `<Surface>` text (see [`scan_model`]).
pub fn scan_surface(slice: &[char]) -> (r: Option<SurfaceScan>)
    ensures
        r matches Some(v) ==> scan_model(slice@) == Some(v@),
        r is None ==> scan_model(slice@) is None,
{
    let g: Vec<char> = vec!['>'];
    assert(g@ =~= gt());
    let open_end = match find_chars(slice, g.as_slice(), 0) {
        Some(x) => x,
        None => return None,
    };
    proof {
        lemma_find_from(slice@, gt(), 0);
    }
    let head = slice_subrange(slice, 0, open_end);
    let name_key: Vec<char> = vec!['n', 'a', 'm', 'e'];
    assert(name_key@ =~= seq!['n', 'a', 'm', 'e']);
    let name = match attr_string(head, name_key.as_slice()) {
        Some(v) => v,
        None => {
            let d: Vec<char> = vec!['S', 'u', 'r', 'f', 'a', 'c', 'e'];
            assert(d@ =~= seq!['S', 'u', 'r', 'f', 'a', 'c', 'e']);
            string_of_chars(d.as_slice())
        },
    };
    let pnts_open: Vec<char> = vec!['<', 'P', 'n', 't', 's'];
    let pnts_close: Vec<char> = vec!['<', '/', 'P', 'n', 't', 's', '>'];
    let faces_open: Vec<char> = vec!['<', 'F', 'a', 'c', 'e', 's'];
    let faces_close: Vec<char> = vec!['<', '/', 'F', 'a', 'c', 'e', 's', '>'];
    assert(pnts_open@ =~= seq!['<', 'P', 'n', 't', 's']);
    assert(pnts_close@ =~= seq!['<', '/', 'P', 'n', 't', 's', '>']);
    assert(faces_open@ =~= seq!['<', 'F', 'a', 'c', 'e', 's']);
    assert(faces_close@ =~= seq!['<', '/', 'F', 'a', 'c', 'e', 's', '>']);
    let pnts = section_of(slice, pnts_open.as_slice(), pnts_close.as_slice());
    let faces = section_of(slice, faces_open.as_slice(), faces_close.as_slice());
    let points = scan_points(pnts);
    let face_tags = scan_faces(faces);
    Some(SurfaceScan { name, points, faces: face_tags })
}

} // verus!

verus! {

/// `<Surface ` as a character sequence.
pub open spec fn surface_open() -> Seq<char> {
    seq!['<', 'S', 'u', 'r', 'f', 'a', 'c', 'e', ' ']
}

/// The text of the `i`-th surface: from its `<Surface ` to the next one (or
/// the end of the document).
pub open spec fn surface_slice(xml: Seq<char>, st: Seq<int>, i: int) -> Seq<char> {
    xml.subrange(st[i], if i + 1 < st.len() { st[i + 1] } else { xml.len() as int })
}

/// Scans of the first `n` surface texts, skipping those without a `>`.
pub open spec fn scans_upto(xml: Seq<char>, st: Seq<int>, n: int) -> Seq<SurfaceScanModel>
    decreases n,
{
    if n <= 0 {
        seq![]
    } else {
        let rest = scans_upto(xml, st, n - 1);
        match scan_model(surface_slice(xml, st, n - 1)) {
            Some(m) => rest.push(m),
            None => rest,
        }
    }
}

/// Every `<Surface>` of a LandXML document, in document order.
pub open spec fn surface_scans(xml: Seq<char>) -> Seq<SurfaceScanModel> {
    let st = occurrences(xml, surface_open(), 0);
    scans_upto(xml, st, st.len() as int)
}

/// Scan every `<Surface>` of a LandXML document (see [`surface_scans`]).
#[verifier::rlimit(60)]
#[verifier::spinoff_prover]
pub fn scan_surfaces(xml: &str) -> (r: Vec<SurfaceScan>)
    ensures
        r@.map_values(|s: SurfaceScan| s@) == surface_scans(xml@),
{
    let chars = chars_of(xml);
    let s = chars.as_slice();
    let open: Vec<char> = vec!['<', 'S', 'u', 'r', 'f', 'a', 'c', 'e', ' '];
    assert(open@ =~= surface_open());
    let starts = find_all(s, open.as_slice());
    let ghost st = ints(starts@);
    proof {
        lemma_occurrences_bounds(s@, open@, 0);
    }
    let mut r: Vec<SurfaceScan> = Vec::new();
    let mut i: usize = 0;
    while i < starts.len()
        invariant
            s@ == xml@,
            s@.len() == s.len(),
            st == ints(starts@),
            st == occurrences(s@, surface_open(), 0),
            i <= starts@.len(),
            forall|k: int|
                0 <= k < st.len() ==> 0 <= #[trigger] st[k] && st[k] + 9 <= s@.len(),
            forall|k: int| 0 <= k < st.len() - 1 ==> #[trigger] st[k] + 9 <= st[k + 1],
            r@.map_values(|x: SurfaceScan| x@) == scans_upto(s@, st, i as int),
        decreases starts@.len() - i,
    {
        let from = starts[i];
        let to = if i + 1 < starts.len() {
            starts[i + 1]
        } else {
            s.len()
        };
        assert(st[i as int] == from);
        assert(i + 1 < starts@.len() ==> st[i + 1] == to);
        assert(from <= to <= s@.len());
        let slice = slice_subrange(s, from, to);
        assert(slice@ == surface_slice(s@, st, i as int));
        assert(scans_upto(s@, st, i + 1) == match scan_model(slice@) {
            Some(m) => scans_upto(s@, st, i as int).push(m),
            None => scans_upto(s@, st, i as int),
        });
        let ghost before = r@.map_values(|x: SurfaceScan| x@);
        match scan_surface(slice) {
            Some(scan) => {
                r.push(scan);
                assert(r@.map_values(|x: SurfaceScan| x@) =~= before.push(scan@));
            },
            None => {},
        }
        i = i + 1;
    }
    r
}

/// Whether the bytes of `text` look like a LandXML document: its first 512
/// bytes name a `<LandXML` element, or hold an XML declaration while the
/// whole text has a `<Surface` element.
pub open spec fn looks_like_landxml_bytes(b: Seq<u8>) -> bool {
    let head = b.take(if b.len() < 512 { b.len() as int } else { 512 });
    contains(head, seq![0x3cu8, 0x4c, 0x61, 0x6e, 0x64, 0x58, 0x4d, 0x4c])
        || (contains(head, seq![0x3cu8, 0x3f, 0x78, 0x6d, 0x6c])
            && contains(b, seq![0x3cu8, 0x53, 0x75, 0x72, 0x66, 0x61, 0x63, 0x65]))
}

/// True if `text` looks like a LandXML document (see
/// [`looks_like_landxml_bytes`]). The first 512 bytes are a string slice, so
/// a longer text must not have a character straddling byte 512.
pub fn looks_like_landxml(text: &str) -> (r: bool)
    requires
        text.spec_bytes().len() <= 512 || vstd::utf8::is_char_boundary(text.spec_bytes(), 512),
    ensures
        r == looks_like_landxml_bytes(text.spec_bytes()),
{
    let b = text.as_bytes();
    let n = if b.len() < 512 {
        b.len()
    } else {
        512
    };
    let head = slice_subrange(b, 0, n);
    let landxml: Vec<u8> = vec![0x3cu8, 0x4c, 0x61, 0x6e, 0x64, 0x58, 0x4d, 0x4c];
    let decl: Vec<u8> = vec![0x3cu8, 0x3f, 0x78, 0x6d, 0x6c];
    let surface: Vec<u8> = vec![0x3cu8, 0x53, 0x75, 0x72, 0x66, 0x61, 0x63, 0x65];
    assert(landxml@ =~= seq![0x3cu8, 0x4c, 0x61, 0x6e, 0x64, 0x58, 0x4d, 0x4c]);
    assert(decl@ =~= seq![0x3cu8, 0x3f, 0x78, 0x6d, 0x6c]);
    assert(surface@ =~= seq![0x3cu8, 0x53, 0x75, 0x72, 0x66, 0x61, 0x63, 0x65]);
    assert(head@ =~= b@.take(n as int));
    bytes_contain(head, landxml.as_slice()) || (bytes_contain(head, decl.as_slice())
        && bytes_contain(b, surface.as_slice()))
}

} // verus!

verus! {

/// The id table after the first `n` points: one `(id, node)` entry for each
/// point that has an id and whose coordinates were read (`parsed`), the node
/// number counting such points from 0.
pub open spec fn id_entries(points: Seq<PointTagModel>, parsed: Seq<bool>, n: int) -> Seq<
    (Seq<char>, int),
>
    decreases n,
{
    if n <= 0 {
        seq![]
    } else {
        let prev = id_entries(points, parsed, n - 1);
        if points[n - 1].id is Some && parsed[n - 1] {
            prev.push((points[n - 1].id->0, prev.len() as int))
        } else {
            prev
        }
    }
}

/// Indices of the points that become nodes, in order.
pub open spec fn node_points(points: Seq<PointTagModel>, parsed: Seq<bool>, n: int) -> Seq<int>
    decreases n,
{
    if n <= 0 {
        seq![]
    } else {
        let prev = node_points(points, parsed, n - 1);
        if points[n - 1].id is Some && parsed[n - 1] {
            prev.push(n - 1)
        } else {
            prev
        }
    }
}

/// Node of the most recent entry for `key` (a repeated id maps to its last
/// point).
pub open spec fn lookup(entries: Seq<(Seq<char>, int)>, key: Seq<char>) -> Option<int>
    decreases entries.len(),
{
    if entries.len() == 0 {
        None
    } else if entries.last().0 =~= key {
        Some(entries.last().1)
    } else {
        lookup(entries.drop_last(), key)
    }
}

/// Triangles of the first `n` faces: a visible face with at least three ids
/// whose first three ids are all known becomes the triangle of their nodes;
/// other faces are dropped.
pub open spec fn face_triangles(
    faces: Seq<FaceTagModel>,
    entries: Seq<(Seq<char>, int)>,
    n: int,
) -> Seq<(int, int, int)>
    decreases n,
{
    if n <= 0 {
        seq![]
    } else {
        let prev = face_triangles(faces, entries, n - 1);
        let f = faces[n - 1];
        if !f.invisible && f.ids.len() >= 3 && lookup(entries, f.ids[0]) is Some && lookup(
            entries,
            f.ids[1],
        ) is Some && lookup(entries, f.ids[2]) is Some {
            prev.push(
                (
                    lookup(entries, f.ids[0])->0,
                    lookup(entries, f.ids[1])->0,
                    lookup(entries, f.ids[2])->0,
                ),
            )
        } else {
            prev
        }
    }
}

/// Which points become nodes and the triangles over those nodes.
pub struct Topology {
    pub nodes: Vec<usize>,
    pub triangles: Vec<(usize, usize, usize)>,
}

/// The topology of a scanned surface once the caller has read each point's
/// coordinates (`parsed[k]` tells whether point `k` gave coordinates):
/// `None` when no node or no triangle results.
pub open spec fn topology_model(scan: SurfaceScanModel, parsed: Seq<bool>) -> Option<
    (Seq<int>, Seq<(int, int, int)>),
> {
    let n = scan.points.len() as int;
    let nodes = node_points(scan.points, parsed, n);
    let tris = face_triangles(
        scan.faces,
        id_entries(scan.points, parsed, n),
        scan.faces.len() as int,
    );
    if nodes.len() == 0 || tris.len() == 0 {
        None
    } else {
        Some((nodes, tris))
    }
}

/// The entries and node list grow together.
pub proof fn lemma_entries_nodes(points: Seq<PointTagModel>, parsed: Seq<bool>, n: int)
    requires
        0 <= n,
    ensures
        id_entries(points, parsed, n).len() == node_points(points, parsed, n).len(),
        forall|k: int|
            0 <= k < node_points(points, parsed, n).len() ==> 0 <= #[trigger] node_points(
                points,
                parsed,
                n,
            )[k] < n,
        forall|k: int|
            0 <= k < id_entries(points, parsed, n).len() ==> #[trigger] id_entries(
                points,
                parsed,
                n,
            )[k].1 == k,
    decreases n,
{
    if n > 0 {
        lemma_entries_nodes(points, parsed, n - 1);
    }
}

/// Entry keys as character sequences.
pub open spec fn entry_views(v: Seq<(Vec<char>, usize)>) -> Seq<(Seq<char>, int)> {
    v.map_values(|e: (Vec<char>, usize)| (e.0@, e.1 as int))
}

/// The node of the most recent entry for `key`.
fn lookup_exec(entries: &Vec<(Vec<char>, usize)>, key: &[char]) -> (r: Option<usize>)
    ensures
        r matches Some(v) ==> lookup(entry_views(entries@), key@) == Some(v as int),
        r is None ==> lookup(entry_views(entries@), key@) is None,
{
    let mut i = entries.len();
    assert(entry_views(entries@).take(i as int) =~= entry_views(entries@));
    while i > 0
        invariant
            i <= entries@.len(),
            lookup(entry_views(entries@), key@) == lookup(
                entry_views(entries@).take(i as int),
                key@,
            ),
        decreases i,
    {
        let ghost t = entry_views(entries@).take(i as int);
        assert(t.drop_last() =~= entry_views(entries@).take(i - 1));
        if chars_equal(entries[i - 1].0.as_slice(), key) {
            return Some(entries[i - 1].1);
        }
        i = i - 1;
    }
    assert(entry_views(entries@).take(0) =~= Seq::<(Seq<char>, int)>::empty());
    None
}

} // verus!

verus! {

/// Triangles as integer triples.
pub open spec fn tri_ints(v: Seq<(usize, usize, usize)>) -> Seq<(int, int, int)> {
    v.map_values(|t: (usize, usize, usize)| (t.0 as int, t.1 as int, t.2 as int))
}

/// Link a scanned surface's faces to its nodes (see [`topology_model`]).
/// `parsed[k]` tells whether the coordinates of point `k` were read.
#[verifier::rlimit(40)]
pub fn surface_topology(scan: &SurfaceScan, parsed: &Vec<bool>) -> (r: Option<Topology>)
    requires
        parsed@.len() == scan.points@.len(),
    ensures
        r matches Some(t) ==> topology_model(scan@, parsed@) == Some(
            (ints(t.nodes@), tri_ints(t.triangles@)),
        ),
        r is None ==> topology_model(scan@, parsed@) is None,
{
    let ghost pts = scan@.points;
    let mut entries: Vec<(Vec<char>, usize)> = Vec::new();
    let mut nodes: Vec<usize> = Vec::new();
    let mut k: usize = 0;
    while k < scan.points.len()
        invariant
            pts == scan@.points,
            pts.len() == scan.points@.len(),
            parsed@.len() == pts.len(),
            k <= pts.len(),
            entry_views(entries@) == id_entries(pts, parsed@, k as int),
            ints(nodes@) == node_points(pts, parsed@, k as int),
            entries@.len() == nodes@.len(),
        decreases pts.len() - k,
    {
        assert(pts[k as int] == scan.points@[k as int]@);
        match &scan.points[k].id {
            Some(id) => {
                if parsed[k] {
                    let key = chars_of(id.as_str());
                    let ghost ev = entry_views(entries@);
                    let ghost nv = ints(nodes@);
                    let node = entries.len();
                    entries.push((key, node));
                    nodes.push(k);
                    assert(entry_views(entries@) =~= ev.push((id@, ev.len() as int)));
                    assert(ints(nodes@) =~= nv.push(k as int));
                }
            },
            None => {},
        }
        k = k + 1;
    }
    let ghost fcs = scan@.faces;
    let ghost ents = entry_views(entries@);
    let mut tris: Vec<(usize, usize, usize)> = Vec::new();
    let mut j: usize = 0;
    while j < scan.faces.len()
        invariant
            fcs == scan@.faces,
            fcs.len() == scan.faces@.len(),
            ents == entry_views(entries@),
            j <= fcs.len(),
            tri_ints(tris@) == face_triangles(fcs, ents, j as int),
        decreases fcs.len() - j,
    {
        let f = &scan.faces[j];
        assert(fcs[j as int] == f@);
        if !f.invisible && f.ids.len() >= 3 {
            assert(f@.ids[0] == f.ids@[0]@);
            assert(f@.ids[1] == f.ids@[1]@);
            assert(f@.ids[2] == f.ids@[2]@);
            let a = lookup_exec(&entries, f.ids[0].as_slice());
            let b = lookup_exec(&entries, f.ids[1].as_slice());
            let c = lookup_exec(&entries, f.ids[2].as_slice());
            match (a, b, c) {
                (Some(a), Some(b), Some(c)) => {
                    let ghost tv = tri_ints(tris@);
                    tris.push((a, b, c));
                    assert(tri_ints(tris@) =~= tv.push((a as int, b as int, c as int)));
                },
                _ => {},
            }
        }
        j = j + 1;
    }
    if nodes.len() == 0 || tris.len() == 0 {
        None
    } else {
        Some(Topology { nodes, triangles: tris })
    }
}


/// The most recent entry for a key is one of the entries.
proof fn lemma_lookup_in_range(entries: Seq<(Seq<char>, int)>, key: Seq<char>)
    requires
        forall|k: int| 0 <= k < entries.len() ==> #[trigger] entries[k].1 == k,
    ensures
        lookup(entries, key) matches Some(i) ==> 0 <= i < entries.len(),
    decreases entries.len(),
{
    if entries.len() > 0 && !(entries.last().0 =~= key) {
        let rest = entries.drop_last();
        assert forall|k: int| 0 <= k < rest.len() implies #[trigger] rest[k].1 == k by {
            assert(rest[k] == entries[k]);
        }
        lemma_lookup_in_range(rest, key);
    }
}

proof fn lemma_faces_in_range(faces: Seq<FaceTagModel>, entries: Seq<(Seq<char>, int)>, n: int)
    requires
        forall|k: int| 0 <= k < entries.len() ==> #[trigger] entries[k].1 == k,
    ensures
        forall|t: int|
            0 <= t < face_triangles(faces, entries, n).len() ==> {
                let tri = #[trigger] face_triangles(faces, entries, n)[t];
                &&& 0 <= tri.0 < entries.len()
                &&& 0 <= tri.1 < entries.len()
                &&& 0 <= tri.2 < entries.len()
            },
    decreases n,
{
    if n > 0 {
        lemma_faces_in_range(faces, entries, n - 1);
        let f = faces[n - 1];
        if f.ids.len() >= 3 {
            lemma_lookup_in_range(entries, f.ids[0]);
            lemma_lookup_in_range(entries, f.ids[1]);
            lemma_lookup_in_range(entries, f.ids[2]);
        }
        let prev = face_triangles(faces, entries, n - 1);
        let cur = face_triangles(faces, entries, n);
        assert forall|t: int| 0 <= t < cur.len() implies {
            let tri = #[trigger] cur[t];
            &&& 0 <= tri.0 < entries.len()
            &&& 0 <= tri.1 < entries.len()
            &&& 0 <= tri.2 < entries.len()
        } by {
            if t < prev.len() {
                assert(cur[t] == prev[t]);
            }
        }
    }
}

/// Every triangle of a surface's topology indexes its nodes: each face id
/// resolves to a node that was read.
pub proof fn law_triangles_index_nodes(scan: SurfaceScanModel, parsed: Seq<bool>)
    ensures
        topology_model(scan, parsed) matches Some((nodes, tris)) ==> forall|t: int|
            0 <= t < tris.len() ==> {
                let tri = #[trigger] tris[t];
                &&& 0 <= tri.0 < nodes.len()
                &&& 0 <= tri.1 < nodes.len()
                &&& 0 <= tri.2 < nodes.len()
            },
{
    let n = scan.points.len() as int;
    lemma_entries_nodes(scan.points, parsed, n);
    lemma_faces_in_range(scan.faces, id_entries(scan.points, parsed, n), scan.faces.len() as int);
}

} // verus!
