//! Plugin state kept for the session: the point count, the label toggle and
//! the surfaces built or imported so far, retrievable by name regardless of
//! ASCII case.
use vstd::prelude::*;

use crate::text::chars_of;

verus! {

/// ASCII lower case of one character (other characters unchanged).
pub open spec fn ascii_lower(c: char) -> char {
    if 'A' <= c <= 'Z' {
        ((c as u8) + 32) as char
    } else {
        c
    }
}

/// `str::eq_ignore_ascii_case`: equal up to ASCII case.
pub open spec fn eq_ignore_ascii_case(a: Seq<char>, b: Seq<char>) -> bool {
    a.len() == b.len() && forall|i: int| 0 <= i < a.len() ==> ascii_lower(#[trigger] a[i]) == ascii_lower(b[i])
}

/// Executable `ascii_lower`.
pub(crate) fn lower(c: char) -> (r: char)
    ensures
        r == ascii_lower(c),
{
    if 'A' <= c && c <= 'Z' {
        ((c as u8) + 32) as char
    } else {
        c
    }
}

} // verus!

verus! {

/// Whether two character slices are equal up to ASCII case.
pub(crate) fn chars_eq_ignore_ascii_case(a: &[char], b: &[char]) -> (r: bool)
    ensures
        r == eq_ignore_ascii_case(a@, b@),
{
    if a.len() != b.len() {
        return false;
    }
    let mut i: usize = 0;
    while i < a.len()
        invariant
            a@.len() == b@.len(),
            i <= a@.len(),
            forall|k: int| 0 <= k < i ==> ascii_lower(#[trigger] a@[k]) == ascii_lower(b@[k]),
        decreases a@.len() - i,
    {
        if lower(a[i]) != lower(b[i]) {
            return false;
        }
        i = i + 1;
    }
    true
}

/// Whether `a` and `b` are equal up to ASCII case.
pub fn same_ignoring_ascii_case(a: &str, b: &str) -> (r: bool)
    ensures
        r == eq_ignore_ascii_case(a@, b@),
{
    let x = chars_of(a);
    let y = chars_of(b);
    chars_eq_ignore_ascii_case(x.as_slice(), y.as_slice())
}

/// A surface built or imported this session, under its name.
pub struct StoredSurface<S> {
    pub name: String,
    pub surface: S,
}

/// Session state of the Land Survey commands.
pub struct LandSurveyState<S> {
    /// Points imported during the session.
    pub imported: usize,
    /// Surfaces built or imported this session, oldest first.
    pub surfaces: Vec<StoredSurface<S>>,
    /// When true, point import draws no number labels.
    pub suppress_labels: bool,
}

/// The stored surfaces as `(name, surface)` entries.
pub open spec fn entries<S>(v: Seq<StoredSurface<S>>) -> Seq<(Seq<char>, S)> {
    v.map_values(|e: StoredSurface<S>| (e.name@, e.surface))
}

/// First entry at or after `from` whose name equals `name` up to ASCII case.
pub open spec fn first_match<S>(es: Seq<(Seq<char>, S)>, name: Seq<char>, from: int) -> Option<int>
    decreases es.len() - from,
{
    if from < 0 || from >= es.len() {
        None
    } else if eq_ignore_ascii_case(es[from].0, name) {
        Some(from)
    } else {
        first_match(es, name, from + 1)
    }
}

/// The surface stored under `name` (ASCII case ignored), if any.
pub open spec fn stored<S>(es: Seq<(Seq<char>, S)>, name: Seq<char>) -> Option<S> {
    match first_match(es, name, 0) {
        Some(k) => Some(es[k].1),
        None => None,
    }
}

/// The entries after storing `s` under `name`: an entry already named so
/// (ASCII case ignored) keeps its name and takes the new surface; otherwise
/// a new entry is appended.
pub open spec fn with_surface<S>(es: Seq<(Seq<char>, S)>, name: Seq<char>, s: S) -> Seq<(Seq<char>, S)> {
    match first_match(es, name, 0) {
        Some(k) => es.update(k, (es[k].0, s)),
        None => es.push((name, s)),
    }
}

pub proof fn lemma_first_match<S>(es: Seq<(Seq<char>, S)>, name: Seq<char>, from: int)
    requires
        0 <= from,
    ensures
        match first_match(es, name, from) {
            Some(k) => from <= k < es.len() && eq_ignore_ascii_case(es[k].0, name) && forall|j: int|
                from <= j < k ==> !eq_ignore_ascii_case(#[trigger] es[j].0, name),
            None => forall|j: int| from <= j < es.len() ==> !eq_ignore_ascii_case(#[trigger] es[j].0, name),
        },
    decreases es.len() - from,
{
    if from < es.len() && !eq_ignore_ascii_case(es[from].0, name) {
        lemma_first_match(es, name, from + 1);
    }
}

impl<S> Default for LandSurveyState<S> {
    /// An empty state: no points, no surfaces, labels on.
    fn default() -> (r: Self)
        ensures
            r.imported == 0,
            r.surfaces@.len() == 0,
            !r.suppress_labels,
    {
        LandSurveyState { imported: 0, surfaces: Vec::new(), suppress_labels: false }
    }
}

impl<S> LandSurveyState<S> {
    /// An empty state: no points, no surfaces, labels on.
    pub fn new() -> (r: Self)
        ensures
            r.imported == 0,
            r.surfaces@.len() == 0,
            !r.suppress_labels,
    {
        LandSurveyState { imported: 0, surfaces: Vec::new(), suppress_labels: false }
    }

    fn find_index(&self, name: &str) -> (r: Option<usize>)
        ensures
            r matches Some(k) ==> first_match(entries(self.surfaces@), name@, 0) == Some(k as int),
            r is None ==> first_match(entries(self.surfaces@), name@, 0) is None,
    {
        let ghost es = entries(self.surfaces@);
        let mut i: usize = 0;
        while i < self.surfaces.len()
            invariant
                es == entries(self.surfaces@),
                i <= es.len(),
                first_match(es, name@, 0) == first_match(es, name@, i as int),
            decreases es.len() - i,
        {
            if same_ignoring_ascii_case(self.surfaces[i].name.as_str(), name) {
                return Some(i);
            }
            i = i + 1;
        }
        None
    }

    /// Store `surface` under `name`, replacing the surface of an entry with
    /// the same name up to ASCII case (see [`with_surface`]).
    pub fn put_surface(&mut self, name: &str, surface: S)
        ensures
            entries(final(self).surfaces@) == with_surface(entries(old(self).surfaces@), name@, surface),
            final(self).imported == old(self).imported,
            final(self).suppress_labels == old(self).suppress_labels,
    {
        let found = self.find_index(name);
        proof {
            lemma_first_match(entries(self.surfaces@), name@, 0);
        }
        match found {
            Some(k) => {
                let kept = self.surfaces[k].name.clone();
                let ghost before = entries(self.surfaces@);
                self.surfaces.set(k, StoredSurface { name: kept, surface });
                assert(entries(self.surfaces@) =~= before.update(k as int, (before[k as int].0, surface)));
            },
            None => {
                let ghost before = entries(self.surfaces@);
                self.surfaces.push(StoredSurface { name: name.to_owned(), surface });
                assert(entries(self.surfaces@) =~= before.push((name@, surface)));
            },
        }
    }

    /// The surface stored under `name`, ASCII case ignored (see [`stored`]).
    pub fn get_surface(&self, name: &str) -> (r: Option<&S>)
        ensures
            r matches Some(s) ==> stored(entries(self.surfaces@), name@) == Some(*s),
            r is None ==> stored(entries(self.surfaces@), name@) is None,
    {
        let found = self.find_index(name);
        proof {
            lemma_first_match(entries(self.surfaces@), name@, 0);
        }
        match found {
            Some(k) => Some(&self.surfaces[k].surface),
            None => None,
        }
    }

    /// Names of the stored surfaces, in storing order.
    pub fn surface_names(&self) -> (r: Vec<&str>)
        ensures
            r@.len() == self.surfaces@.len(),
            forall|k: int| 0 <= k < r@.len() ==> (#[trigger] r@[k])@ == self.surfaces@[k].name@,
    {
        let mut r: Vec<&str> = Vec::new();
        let mut i: usize = 0;
        while i < self.surfaces.len()
            invariant
                i <= self.surfaces@.len(),
                r@.len() == i,
                forall|k: int| 0 <= k < i ==> (#[trigger] r@[k])@ == self.surfaces@[k].name@,
            decreases self.surfaces@.len() - i,
        {
            r.push(self.surfaces[i].name.as_str());
            i = i + 1;
        }
        r
    }
}

} // verus!

verus! {

pub proof fn lemma_eq_ci_props(a: Seq<char>, b: Seq<char>, c: Seq<char>)
    ensures
        eq_ignore_ascii_case(a, b) == eq_ignore_ascii_case(b, a),
        eq_ignore_ascii_case(a, b) && eq_ignore_ascii_case(b, c) ==> eq_ignore_ascii_case(a, c),
{
    if eq_ignore_ascii_case(a, b) && eq_ignore_ascii_case(b, c) {
        assert forall|i: int| 0 <= i < a.len() implies ascii_lower(#[trigger] a[i]) == ascii_lower(
            c[i],
        ) by {
            assert(ascii_lower(a[i]) == ascii_lower(b[i]));
            assert(ascii_lower(b[i]) == ascii_lower(c[i]));
        }
    }
    if eq_ignore_ascii_case(a, b) {
        assert forall|i: int| 0 <= i < b.len() implies ascii_lower(#[trigger] b[i]) == ascii_lower(
            a[i],
        ) by {
            assert(ascii_lower(a[i]) == ascii_lower(b[i]));
        }
    }
    if eq_ignore_ascii_case(b, a) {
        assert forall|i: int| 0 <= i < a.len() implies ascii_lower(#[trigger] a[i]) == ascii_lower(
            b[i],
        ) by {
            assert(ascii_lower(b[i]) == ascii_lower(a[i]));
        }
    }
}

/// Read after write: looking up a name just stored, in any ASCII case,
/// gives the surface just stored.
pub proof fn law_get_after_put<S>(es: Seq<(Seq<char>, S)>, name: Seq<char>, s: S, key: Seq<char>)
    requires
        eq_ignore_ascii_case(name, key),
    ensures
        stored(with_surface(es, name, s), key) == Some(s),
{
    let es2 = with_surface(es, name, s);
    lemma_first_match(es, name, 0);
    lemma_first_match(es2, key, 0);
    match first_match(es, name, 0) {
        Some(k) => {
            lemma_eq_ci_props(es[k].0, name, key);
            assert(eq_ignore_ascii_case(es2[k].0, key));
            if let Some(j) = first_match(es2, key, 0) {
                if j < k {
                    lemma_eq_ci_props(es[j].0, key, name);
                    lemma_eq_ci_props(key, name, name);
                    lemma_eq_ci_props(name, key, key);
                    assert(es2[j] == es[j]);
                    assert(!eq_ignore_ascii_case(es[j].0, name));
                    assert(false);
                }
                assert(j == k);
                assert(es2[k].1 == s);
            }
        },
        None => {
            let n = es.len() as int;
            assert(es2[n] == (name, s));
            assert(eq_ignore_ascii_case(es2[n].0, key));
            if let Some(j) = first_match(es2, key, 0) {
                if j < n {
                    assert(es2[j] == es[j]);
                    lemma_eq_ci_props(es[j].0, key, name);
                    lemma_eq_ci_props(name, key, key);
                    assert(!eq_ignore_ascii_case(es[j].0, name));
                    assert(false);
                }
                assert(j == n);
            }
        },
    }
}

/// Storing under one name leaves every name that differs from it (up to
/// ASCII case) reading what it read before.
pub proof fn law_put_keeps_others<S>(es: Seq<(Seq<char>, S)>, name: Seq<char>, s: S, key: Seq<char>)
    requires
        !eq_ignore_ascii_case(name, key),
    ensures
        stored(with_surface(es, name, s), key) == stored(es, key),
{
    let es2 = with_surface(es, name, s);
    lemma_first_match(es, name, 0);
    lemma_first_match(es, key, 0);
    lemma_first_match(es2, key, 0);
    match first_match(es, name, 0) {
        Some(k) => {
            if eq_ignore_ascii_case(es[k].0, key) {
                lemma_eq_ci_props(es[k].0, name, key);
                lemma_eq_ci_props(name, es[k].0, key);
            }
            assert(forall|j: int| 0 <= j < es.len() ==> #[trigger] es2[j].0 == es[j].0);
            assert(forall|j: int| 0 <= j < es.len() && j != k ==> #[trigger] es2[j] == es[j]);
            match first_match(es, key, 0) {
                Some(j) => {
                    assert(es2[j] == es[j]);
                    if let Some(j2) = first_match(es2, key, 0) {
                        assert(es2[j2].0 == es[j2].0);
                    }
                },
                None => {
                    if let Some(j2) = first_match(es2, key, 0) {
                        assert(es2[j2].0 == es[j2].0);
                    }
                },
            }
        },
        None => {
            let n = es.len() as int;
            assert(es2[n] == (name, s));
            lemma_eq_ci_props(name, key, key);
            match first_match(es, key, 0) {
                Some(j) => {
                    assert(es2[j] == es[j]);
                    if let Some(j2) = first_match(es2, key, 0) {
                        if j2 < n {
                            assert(es2[j2] == es[j2]);
                        }
                    }
                },
                None => {
                    if let Some(j2) = first_match(es2, key, 0) {
                        if j2 < n {
                            assert(es2[j2] == es[j2]);
                        }
                    }
                },
            }
        },
    }
}

/// No two stored names are equal up to ASCII case.
pub open spec fn distinct_names<S>(es: Seq<(Seq<char>, S)>) -> bool {
    forall|i: int, j: int|
        0 <= i < j < es.len() ==> !eq_ignore_ascii_case(#[trigger] es[i].0, #[trigger] es[j].0)
}

/// Storing keeps the names distinct up to ASCII case: a name is never held
/// twice.
pub proof fn law_put_keeps_names_distinct<S>(es: Seq<(Seq<char>, S)>, name: Seq<char>, s: S)
    requires
        distinct_names(es),
    ensures
        distinct_names(with_surface(es, name, s)),
{
    let es2 = with_surface(es, name, s);
    lemma_first_match(es, name, 0);
    match first_match(es, name, 0) {
        Some(k) => {
            assert forall|i: int, j: int| 0 <= i < j < es2.len() implies !eq_ignore_ascii_case(
                #[trigger] es2[i].0,
                #[trigger] es2[j].0,
            ) by {
                assert(es2[i].0 == es[i].0 && es2[j].0 == es[j].0);
            }
        },
        None => {
            let n = es.len() as int;
            assert forall|i: int, j: int| 0 <= i < j < es2.len() implies !eq_ignore_ascii_case(
                #[trigger] es2[i].0,
                #[trigger] es2[j].0,
            ) by {
                if j == n {
                    assert(es2[i] == es[i]);
                    lemma_eq_ci_props(es[i].0, name, name);
                } else {
                    assert(es2[i] == es[i] && es2[j] == es[j]);
                }
            }
        },
    }
}


/// ASCII case folding changes only `A`..`Z`, each to its lower-case letter
/// (32 code points on); every other character, digits and non-ASCII letters
/// included, is left as it is.
pub proof fn law_ascii_lower(c: char)
    ensures
        'A' <= c <= 'Z' ==> ascii_lower(c) as u32 == c as u32 + 32,
        !('A' <= c <= 'Z') ==> ascii_lower(c) == c,
{
}

/// Two surface names are the same name exactly when they have the same
/// length and each pair of characters is equal or is one ASCII letter in
/// upper and lower case.
pub proof fn law_same_name(a: Seq<char>, b: Seq<char>)
    ensures
        eq_ignore_ascii_case(a, b) <==> (a.len() == b.len() && forall|i: int|
            0 <= i < a.len() ==> #[trigger] same_letter(a[i], b[i])),
{
    if a.len() == b.len() {
        assert forall|i: int| 0 <= i < a.len() implies (ascii_lower(#[trigger] a[i]) == ascii_lower(
            b[i],
        ) <==> same_letter(a[i], b[i])) by {
            lemma_same_letter(a[i], b[i]);
        }
    }
}

/// Two characters equal, or one ASCII letter in its two cases.
pub open spec fn same_letter(x: char, y: char) -> bool {
    ||| x == y
    ||| ('A' <= x <= 'Z' && y as u32 == x as u32 + 32)
    ||| ('A' <= y <= 'Z' && x as u32 == y as u32 + 32)
}

proof fn lemma_same_letter(x: char, y: char)
    ensures
        ascii_lower(x) == ascii_lower(y) <==> same_letter(x, y),
{
    law_ascii_lower(x);
    law_ascii_lower(y);
}

} // verus!
