//! Character-sequence helpers shared by the parsers: substring search,
//! Unicode whitespace, trimming and splitting, all with the same meaning as
//! the corresponding `str` methods.
use vstd::prelude::*;

verus! {

/// True when `needle` occurs in `s` starting at position `i`.
pub open spec fn occurs_at<A>(s: Seq<A>, needle: Seq<A>, i: int) -> bool {
    0 <= i && i + needle.len() <= s.len() && s.subrange(i, i + needle.len()) =~= needle
}

/// Position of the first occurrence of `needle` in `s` at or after `from`
/// (the leftmost match, as `str::find` on the suffix reports it).
pub open spec fn find_from<A>(s: Seq<A>, needle: Seq<A>, from: int) -> Option<int>
    decreases s.len() - from,
{
    if from < 0 || from + needle.len() > s.len() {
        None
    } else if occurs_at(s, needle, from) {
        Some(from)
    } else {
        find_from(s, needle, from + 1)
    }
}

/// `needle` occurs somewhere in `s` (`str::contains`).
pub open spec fn contains<A>(s: Seq<A>, needle: Seq<A>) -> bool {
    find_from(s, needle, 0) is Some
}

/// What `find_from` reports: the index is a match at or after `from`, and no
/// position between `from` and it matches; `None` means no match at all.
pub proof fn lemma_find_from<A>(s: Seq<A>, needle: Seq<A>, from: int)
    requires
        0 <= from,
    ensures
        match find_from(s, needle, from) {
            Some(i) => from <= i && occurs_at(s, needle, i) && forall|k: int|
                from <= k < i ==> !#[trigger] occurs_at(s, needle, k),
            None => forall|k: int| from <= k ==> !#[trigger] occurs_at(s, needle, k),
        },
    decreases s.len() - from,
{
    if from + needle.len() > s.len() {
    } else if occurs_at(s, needle, from) {
    } else {
        lemma_find_from(s, needle, from + 1);
    }
}

/// Whether `needle` occurs in `s` at position `i`.
pub fn chars_occur_at(s: &[char], needle: &[char], i: usize) -> (r: bool)
    ensures
        r == occurs_at(s@, needle@, i as int),
{
    if i > s.len() || needle.len() > s.len() - i {
        return false;
    }
    let mut k: usize = 0;
    while k < needle.len()
        invariant
            i + needle@.len() <= s@.len(),
            i + needle.len() <= s.len(),
            k <= needle@.len(),
            forall|j: int| 0 <= j < k ==> s@[i + j] == needle@[j],
        decreases needle@.len() - k,
    {
        if s[i + k] != needle[k] {
            assert(s@.subrange(i as int, i + needle@.len())[k as int] != needle@[k as int]);
            return false;
        }
        k = k + 1;
    }
    assert(s@.subrange(i as int, i + needle@.len()) =~= needle@);
    true
}

/// First occurrence of `needle` in `s` at or after `from`.
pub fn find_chars(s: &[char], needle: &[char], from: usize) -> (r: Option<usize>)
    ensures
        r matches Some(i) ==> find_from(s@, needle@, from as int) == Some(i as int),
        r is None ==> find_from(s@, needle@, from as int) is None,
{
    let mut i = from;
    while i <= s.len() && needle.len() <= s.len() - i
        invariant
            from <= i,
            find_from(s@, needle@, from as int) == find_from(s@, needle@, i as int),
        decreases s@.len() - i,
    {
        if chars_occur_at(s, needle, i) {
            return Some(i);
        }
        i = i + 1;
    }
    None
}

/// Whether `needle` occurs in `s` at position `i`.
pub fn bytes_occur_at(s: &[u8], needle: &[u8], i: usize) -> (r: bool)
    ensures
        r == occurs_at(s@, needle@, i as int),
{
    if i > s.len() || needle.len() > s.len() - i {
        return false;
    }
    let mut k: usize = 0;
    while k < needle.len()
        invariant
            i + needle@.len() <= s@.len(),
            i + needle.len() <= s.len(),
            k <= needle@.len(),
            forall|j: int| 0 <= j < k ==> s@[i + j] == needle@[j],
        decreases needle@.len() - k,
    {
        if s[i + k] != needle[k] {
            assert(s@.subrange(i as int, i + needle@.len())[k as int] != needle@[k as int]);
            return false;
        }
        k = k + 1;
    }
    assert(s@.subrange(i as int, i + needle@.len()) =~= needle@);
    true
}

/// Whether `needle` occurs anywhere in `s`.
pub fn bytes_contain(s: &[u8], needle: &[u8]) -> (r: bool)
    ensures
        r == contains(s@, needle@),
{
    let mut i: usize = 0;
    while i <= s.len() && needle.len() <= s.len() - i
        invariant
            find_from(s@, needle@, 0) == find_from(s@, needle@, i as int),
        decreases s@.len() - i,
    {
        if bytes_occur_at(s, needle, i) {
            return true;
        }
        i = i + 1;
    }
    false
}

} // verus!

verus! {

/// Appends one character to a `String` (`String::push`).
#[verifier::external_body]
pub(crate) fn string_push(s: &mut String, c: char)
    ensures
        final(s)@ == old(s)@.push(c),
{
    s.push(c);
}

/// The characters of a string slice, in order.
pub fn chars_of(s: &str) -> (v: Vec<char>)
    ensures
        v@ == s@,
{
    let mut v: Vec<char> = Vec::new();
    for c in it: s.chars()
        invariant
            v@ == it.seq().take(it.index() as int),
    {
        v.push(c);
    }
    v
}

/// A `String` holding exactly the characters `s[from..to]`.
pub fn string_of_range(s: &[char], from: usize, to: usize) -> (r: String)
    requires
        from <= to <= s@.len(),
    ensures
        r@ == s@.subrange(from as int, to as int),
{
    let mut r = String::new();
    let mut i = from;
    while i < to
        invariant
            from <= i <= to <= s@.len(),
            r@ == s@.subrange(from as int, i as int),
        decreases to - i,
    {
        string_push(&mut r, s[i]);
        assert(s@.subrange(from as int, i + 1) =~= s@.subrange(from as int, i as int).push(s@[i as int]));
        i = i + 1;
    }
    r
}

/// A `String` holding exactly the characters of `s`.
pub fn string_of_chars(s: &[char]) -> (r: String)
    ensures
        r@ == s@,
{
    let r = string_of_range(s, 0, s.len());
    assert(s@.subrange(0, s@.len() as int) =~= s@);
    r
}

/// Whether two character slices hold the same characters.
pub fn chars_equal(a: &[char], b: &[char]) -> (r: bool)
    ensures
        r == (a@ == b@),
{
    if a.len() != b.len() {
        return false;
    }
    let mut i: usize = 0;
    while i < a.len()
        invariant
            a@.len() == b@.len(),
            i <= a@.len(),
            forall|k: int| 0 <= k < i ==> a@[k] == b@[k],
        decreases a@.len() - i,
    {
        if a[i] != b[i] {
            return false;
        }
        i = i + 1;
    }
    assert(a@ =~= b@);
    true
}

/// Rust's `char::is_whitespace`: the Unicode `White_Space` property.
pub open spec fn is_ws(c: char) -> bool {
    ||| ('\u{9}' <= c <= '\u{d}')
    ||| c == ' '
    ||| c == '\u{85}'
    ||| c == '\u{a0}'
    ||| c == '\u{1680}'
    ||| ('\u{2000}' <= c <= '\u{200a}')
    ||| c == '\u{2028}'
    ||| c == '\u{2029}'
    ||| c == '\u{202f}'
    ||| c == '\u{205f}'
    ||| c == '\u{3000}'
}

/// Executable `is_ws`.
pub fn is_whitespace(c: char) -> (r: bool)
    ensures
        r == is_ws(c),
{
    ('\u{9}' <= c && c <= '\u{d}') || c == ' ' || c == '\u{85}' || c == '\u{a0}' || c == '\u{1680}'
        || ('\u{2000}' <= c && c <= '\u{200a}') || c == '\u{2028}' || c == '\u{2029}' || c
        == '\u{202f}' || c == '\u{205f}' || c == '\u{3000}'
}

/// Length of the leading run of non-whitespace characters of `s`.
pub open spec fn word_len(s: Seq<char>) -> nat
    decreases s.len(),
{
    if s.len() == 0 || is_ws(s[0]) {
        0
    } else {
        1 + word_len(s.drop_first())
    }
}

/// The whitespace-separated words of `s` (`str::split_whitespace`).
pub open spec fn words(s: Seq<char>) -> Seq<Seq<char>>
    decreases s.len(),
{
    if s.len() == 0 {
        seq![]
    } else if is_ws(s[0]) {
        words(s.drop_first())
    } else {
        proof {
            lemma_word_len(s);
        }
        seq![s.take(word_len(s) as int)] + words(s.skip(word_len(s) as int))
    }
}

/// The leading word fits in `s`, is whitespace-free, and is followed by
/// whitespace or the end.
pub proof fn lemma_word_len(s: Seq<char>)
    ensures
        word_len(s) <= s.len(),
        s.len() > 0 && !is_ws(s[0]) ==> word_len(s) >= 1,
        forall|k: int| 0 <= k < word_len(s) ==> !is_ws(#[trigger] s[k]),
        word_len(s) < s.len() ==> is_ws(s[word_len(s) as int]),
    decreases s.len(),
{
    if s.len() == 0 || is_ws(s[0]) {
    } else {
        lemma_word_len(s.drop_first());
        assert forall|k: int| 0 <= k < word_len(s) implies !is_ws(#[trigger] s[k]) by {
            if k > 0 {
                assert(s[k] == s.drop_first()[k - 1]);
            }
        }
    }
}

} // verus!

verus! {

/// A run of non-whitespace characters ended by whitespace or the end of `s`
/// is exactly the leading word.
pub proof fn lemma_word_len_exact(s: Seq<char>, n: int)
    requires
        0 <= n <= s.len(),
        forall|k: int| 0 <= k < n ==> !is_ws(#[trigger] s[k]),
        n == s.len() || is_ws(s[n]),
    ensures
        word_len(s) == n,
    decreases n,
{
    if n > 0 {
        let t = s.drop_first();
        assert forall|k: int| 0 <= k < n - 1 implies !is_ws(#[trigger] t[k]) by {
            assert(t[k] == s[k + 1]);
        }
        if n - 1 < t.len() {
            assert(t[n - 1] == s[n]);
        }
        lemma_word_len_exact(t, n - 1);
    }
}

/// The character sequences held by a vector of character vectors.
pub open spec fn views(v: Seq<Vec<char>>) -> Seq<Seq<char>> {
    v.map_values(|w: Vec<char>| w@)
}

/// The whitespace-separated words of `s`, each as its own vector.
pub fn split_words(s: &[char]) -> (r: Vec<Vec<char>>)
    ensures
        views(r@) == words(s@),
{
    let mut r: Vec<Vec<char>> = Vec::new();
    let mut i: usize = 0;
    assert(s@.skip(0) =~= s@);
    assert(views(r@) + words(s@) =~= words(s@));
    while i < s.len()
        invariant
            i <= s@.len(),
            words(s@) == views(r@) + words(s@.skip(i as int)),
        decreases s@.len() - i,
    {
        let ghost rest = s@.skip(i as int);
        if is_whitespace(s[i]) {
            assert(rest.drop_first() =~= s@.skip(i + 1));
            i = i + 1;
        } else {
            let mut j = i + 1;
            while j < s.len() && !is_whitespace(s[j])
                invariant
                    i < j <= s@.len(),
                    forall|k: int| i <= k < j ==> !is_ws(#[trigger] s@[k]),
                decreases s@.len() - j,
            {
                j = j + 1;
            }
            assert forall|k: int| 0 <= k < j - i implies !is_ws(#[trigger] rest[k]) by {
                assert(rest[k] == s@[i + k]);
            }
            proof { lemma_word_len_exact(rest, (j - i) as int); }
            let w = slice_to_vec_range(s, i, j);
            let ghost before = views(r@);
            r.push(w);
            assert(views(r@) =~= before.push(s@.subrange(i as int, j as int)));
            assert(rest.take(j - i) =~= s@.subrange(i as int, j as int));
            assert(rest.skip(j - i) =~= s@.skip(j as int));
            assert(words(s@) =~= views(r@) + words(s@.skip(j as int)));
            i = j;
        }
    }
    assert(s@.skip(i as int) =~= Seq::<char>::empty());
    assert(views(r@) + words(s@.skip(i as int)) =~= views(r@));
    r
}

/// The characters `s[from..to]` as a new vector.
pub fn slice_to_vec_range(s: &[char], from: usize, to: usize) -> (r: Vec<char>)
    requires
        from <= to <= s@.len(),
    ensures
        r@ == s@.subrange(from as int, to as int),
{
    let mut r: Vec<char> = Vec::new();
    let mut i = from;
    while i < to
        invariant
            from <= i <= to <= s@.len(),
            r@ == s@.subrange(from as int, i as int),
        decreases to - i,
    {
        r.push(s[i]);
        assert(s@.subrange(from as int, i + 1) =~= s@.subrange(from as int, i as int).push(s@[i as int]));
        i = i + 1;
    }
    r
}

} // verus!

verus! {

/// `s` with every leftmost, non-overlapping occurrence of `pat` replaced by
/// `rep`, scanning left to right (`str::replace`).
pub open spec fn replace_all(s: Seq<char>, pat: Seq<char>, rep: Seq<char>) -> Seq<char>
    decreases s.len(),
{
    if s.len() == 0 {
        seq![]
    } else if pat.len() > 0 && pat.len() <= s.len() && s.take(pat.len() as int) =~= pat {
        rep + replace_all(s.skip(pat.len() as int), pat, rep)
    } else {
        seq![s[0]] + replace_all(s.drop_first(), pat, rep)
    }
}

/// Appends the characters of `s` to `out`.
pub fn push_chars(out: &mut Vec<char>, s: &[char])
    ensures
        final(out)@ == old(out)@ + s@,
{
    let ghost start = out@;
    let mut i: usize = 0;
    while i < s.len()
        invariant
            i <= s@.len(),
            out@ == start + s@.take(i as int),
        decreases s@.len() - i,
    {
        out.push(s[i]);
        assert(s@.take(i + 1) =~= s@.take(i as int).push(s@[i as int]));
        assert(out@ =~= start + s@.take(i + 1));
        i = i + 1;
    }
    assert(s@.take(s@.len() as int) =~= s@);
}

/// `s` with `pat` replaced by `rep` (see [`replace_all`]).
pub fn replace_chars(s: &[char], pat: &[char], rep: &[char]) -> (r: Vec<char>)
    requires
        pat@.len() > 0,
    ensures
        r@ == replace_all(s@, pat@, rep@),
{
    let mut out: Vec<char> = Vec::new();
    let mut i: usize = 0;
    assert(s@.skip(0) =~= s@);
    assert(out@ + replace_all(s@, pat@, rep@) =~= replace_all(s@, pat@, rep@));
    while i < s.len()
        invariant
            i <= s@.len(),
            s@.len() == s.len(),
            pat@.len() > 0,
            out@ + replace_all(s@.skip(i as int), pat@, rep@) == replace_all(s@, pat@, rep@),
        decreases s@.len() - i,
    {
        let ghost rest = s@.skip(i as int);
        let ghost before = out@;
        if chars_occur_at(s, pat, i) {
            assert(rest.take(pat@.len() as int) =~= s@.subrange(i as int, i + pat@.len()));
            assert(rest.skip(pat@.len() as int) =~= s@.skip(i + pat@.len()));
            push_chars(&mut out, rep);
            assert(out@ + replace_all(s@.skip(i + pat@.len()), pat@, rep@) =~= before + (rep@
                + replace_all(rest.skip(pat@.len() as int), pat@, rep@)));
            i = i + pat.len();
        } else {
            assert(!(pat@.len() <= rest.len() && rest.take(pat@.len() as int) =~= pat@)) by {
                if pat@.len() <= rest.len() && rest.take(pat@.len() as int) =~= pat@ {
                    assert(s@.subrange(i as int, i + pat@.len()) =~= rest.take(pat@.len() as int));
                }
            }
            out.push(s[i]);
            assert(rest.drop_first() =~= s@.skip(i + 1));
            assert(out@ + replace_all(s@.skip(i + 1), pat@, rep@) =~= before + (seq![s@[i as int]]
                + replace_all(rest.drop_first(), pat@, rep@)));
            i = i + 1;
        }
    }
    assert(s@.skip(i as int) =~= Seq::<char>::empty());
    assert(out@ + replace_all(s@.skip(i as int), pat@, rep@) =~= out@);
    out
}

/// A text without `pat` is left unchanged.
pub proof fn lemma_replace_absent(s: Seq<char>, pat: Seq<char>, rep: Seq<char>)
    requires
        pat.len() > 0,
        forall|i: int| 0 <= i ==> !#[trigger] occurs_at(s, pat, i),
    ensures
        replace_all(s, pat, rep) == s,
    decreases s.len(),
{
    if s.len() > 0 {
        if pat.len() <= s.len() && s.take(pat.len() as int) =~= pat {
            assert(s.subrange(0, pat.len() as int) =~= s.take(pat.len() as int));
            assert(occurs_at(s, pat, 0));
        }
        let t = s.drop_first();
        assert forall|i: int| 0 <= i implies !#[trigger] occurs_at(t, pat, i) by {
            if occurs_at(t, pat, i) {
                assert(s.subrange(i + 1, i + 1 + pat.len()) =~= t.subrange(i, i + pat.len()));
                assert(occurs_at(s, pat, i + 1));
            }
        }
        lemma_replace_absent(t, pat, rep);
        assert(seq![s[0]] + t =~= s);
    }
}

/// Replacing the single character `c` removes every `c`, when the
/// replacement has none.
pub proof fn lemma_replace_char_removes(s: Seq<char>, c: char, rep: Seq<char>)
    requires
        !rep.contains(c),
    ensures
        !replace_all(s, seq![c], rep).contains(c),
    decreases s.len(),
{
    if s.len() > 0 {
        lemma_replace_char_removes(s.drop_first(), c, rep);
        if s.take(1) =~= seq![c] {
            assert(s.skip(1) =~= s.drop_first());
            lemma_concat_lacks(rep, replace_all(s.drop_first(), seq![c], rep), c);
        } else {
            assert(s[0] != c) by {
                if s[0] == c {
                    assert(s.take(1) =~= seq![c]);
                }
            }
            lemma_concat_lacks(seq![s[0]], replace_all(s.drop_first(), seq![c], rep), c);
        }
    }
}

/// Replacing keeps out a character that neither the text nor the
/// replacement holds.
pub proof fn lemma_replace_keeps_out(s: Seq<char>, pat: Seq<char>, rep: Seq<char>, d: char)
    requires
        !s.contains(d),
        !rep.contains(d),
    ensures
        !replace_all(s, pat, rep).contains(d),
    decreases s.len(),
{
    if s.len() > 0 {
        if pat.len() > 0 && pat.len() <= s.len() && s.take(pat.len() as int) =~= pat {
            let t = s.skip(pat.len() as int);
            assert(!t.contains(d)) by {
                if t.contains(d) {
                    let k = choose|k: int| 0 <= k < t.len() && t[k] == d;
                    assert(s[k + pat.len()] == d);
                }
            }
            lemma_replace_keeps_out(t, pat, rep, d);
            lemma_concat_lacks(rep, replace_all(t, pat, rep), d);
        } else {
            let t = s.drop_first();
            assert(!t.contains(d)) by {
                if t.contains(d) {
                    let k = choose|k: int| 0 <= k < t.len() && t[k] == d;
                    assert(s[k + 1] == d);
                }
            }
            assert(s[0] != d);
            lemma_replace_keeps_out(t, pat, rep, d);
            lemma_concat_lacks(seq![s[0]], replace_all(t, pat, rep), d);
        }
    }
}

pub proof fn lemma_concat_lacks(a: Seq<char>, b: Seq<char>, c: char)
    requires
        !a.contains(c),
        !b.contains(c),
    ensures
        !(a + b).contains(c),
{
    if (a + b).contains(c) {
        let k = choose|k: int| 0 <= k < (a + b).len() && (a + b)[k] == c;
        if k < a.len() {
            assert(a[k] == c);
        } else {
            assert(b[k - a.len()] == c);
        }
    }
}

} // verus!

verus! {

/// Number of leading whitespace characters.
pub open spec fn lead_ws(s: Seq<char>) -> nat
    decreases s.len(),
{
    if s.len() > 0 && is_ws(s[0]) {
        1 + lead_ws(s.drop_first())
    } else {
        0
    }
}

/// Number of trailing whitespace characters.
pub open spec fn trail_ws(s: Seq<char>) -> nat
    decreases s.len(),
{
    if s.len() > 0 && is_ws(s.last()) {
        1 + trail_ws(s.drop_last())
    } else {
        0
    }
}

/// `s` without leading and trailing whitespace (`str::trim`).
pub open spec fn trim(s: Seq<char>) -> Seq<char> {
    let a = s.skip(lead_ws(s) as int);
    a.take(a.len() - trail_ws(a))
}

pub proof fn lemma_lead_ws(s: Seq<char>)
    ensures
        lead_ws(s) <= s.len(),
        forall|k: int| 0 <= k < lead_ws(s) ==> is_ws(#[trigger] s[k]),
        lead_ws(s) < s.len() ==> !is_ws(s[lead_ws(s) as int]),
    decreases s.len(),
{
    if s.len() > 0 && is_ws(s[0]) {
        lemma_lead_ws(s.drop_first());
        assert forall|k: int| 0 <= k < lead_ws(s) implies is_ws(#[trigger] s[k]) by {
            if k > 0 {
                assert(s[k] == s.drop_first()[k - 1]);
            }
        }
    }
}

pub proof fn lemma_trail_ws(s: Seq<char>)
    ensures
        trail_ws(s) <= s.len(),
        forall|k: int| s.len() - trail_ws(s) <= k < s.len() ==> is_ws(#[trigger] s[k]),
        trail_ws(s) < s.len() ==> !is_ws(s[s.len() - trail_ws(s) - 1]),
    decreases s.len(),
{
    if s.len() > 0 && is_ws(s.last()) {
        lemma_trail_ws(s.drop_last());
        assert forall|k: int| s.len() - trail_ws(s) <= k < s.len() implies is_ws(#[trigger] s[k]) by {
            if k < s.len() - 1 {
                assert(s[k] == s.drop_last()[k]);
            }
        }
    }
}

pub proof fn lemma_lead_ws_exact(s: Seq<char>, n: int)
    requires
        0 <= n <= s.len(),
        forall|k: int| 0 <= k < n ==> is_ws(#[trigger] s[k]),
        n == s.len() || !is_ws(s[n]),
    ensures
        lead_ws(s) == n,
    decreases n,
{
    if n > 0 {
        let t = s.drop_first();
        assert forall|k: int| 0 <= k < n - 1 implies is_ws(#[trigger] t[k]) by {
            assert(t[k] == s[k + 1]);
        }
        if n - 1 < t.len() {
            assert(t[n - 1] == s[n]);
        }
        lemma_lead_ws_exact(t, n - 1);
    }
}

pub proof fn lemma_trail_ws_exact(s: Seq<char>, n: int)
    requires
        0 <= n <= s.len(),
        forall|k: int| s.len() - n <= k < s.len() ==> is_ws(#[trigger] s[k]),
        n == s.len() || !is_ws(s[s.len() - n - 1]),
    ensures
        trail_ws(s) == n,
    decreases n,
{
    if n > 0 {
        let t = s.drop_last();
        assert forall|k: int| t.len() - (n - 1) <= k < t.len() implies is_ws(#[trigger] t[k]) by {
            assert(t[k] == s[k]);
        }
        if n - 1 < t.len() {
            assert(t[t.len() - (n - 1) - 1] == s[s.len() - n - 1]);
        }
        lemma_trail_ws_exact(t, n - 1);
    }
}

/// Bounds `(a, b)` such that `s[a..b]` is `s[from..to]` trimmed.
pub fn trim_bounds(s: &[char], from: usize, to: usize) -> (r: (usize, usize))
    requires
        from <= to <= s@.len(),
    ensures
        from <= r.0 <= r.1 <= to,
        s@.subrange(r.0 as int, r.1 as int) == trim(s@.subrange(from as int, to as int)),
{
    let ghost w = s@.subrange(from as int, to as int);
    let mut a = from;
    while a < to && is_whitespace(s[a])
        invariant
            from <= a <= to <= s@.len(),
            w == s@.subrange(from as int, to as int),
            forall|k: int| from <= k < a ==> is_ws(#[trigger] s@[k]),
        decreases to - a,
    {
        a = a + 1;
    }
    proof {
        assert forall|k: int| 0 <= k < a - from implies is_ws(#[trigger] w[k]) by {
            assert(w[k] == s@[from + k]);
        }
        if a < to {
            assert(w[a - from] == s@[a as int]);
        }
        lemma_lead_ws_exact(w, a - from);
    }
    let ghost v = w.skip(a - from);
    assert(v =~= s@.subrange(a as int, to as int));
    let mut b = to;
    while b > a && is_whitespace(s[b - 1])
        invariant
            a <= b <= to <= s@.len(),
            forall|k: int| b <= k < to ==> is_ws(#[trigger] s@[k]),
        decreases b - a,
    {
        b = b - 1;
    }
    proof {
        assert forall|k: int| v.len() - (to - b) <= k < v.len() implies is_ws(#[trigger] v[k]) by {
            assert(v[k] == s@[a + k]);
        }
        if b > a {
            assert(v[v.len() - (to - b) - 1] == s@[b - 1]);
        }
        lemma_trail_ws_exact(v, to - b);
        assert(v.take(v.len() - (to - b)) =~= s@.subrange(a as int, b as int));
    }
    (a, b)
}

/// `s` trimmed (`str::trim`).
pub fn trim_chars(s: &[char]) -> (r: Vec<char>)
    ensures
        r@ == trim(s@),
{
    let (a, b) = trim_bounds(s, 0, s.len());
    assert(s@.subrange(0, s@.len() as int) =~= s@);
    slice_to_vec_range(s, a, b)
}

} // verus!

verus! {

/// Position of the first character at or after `cur` that belongs to `set`.
pub open spec fn next_sep(s: Seq<char>, set: Seq<char>, cur: int) -> Option<int>
    decreases s.len() - cur,
{
    if cur < 0 || cur >= s.len() {
        None
    } else if set.contains(s[cur]) {
        Some(cur)
    } else {
        next_sep(s, set, cur + 1)
    }
}

pub proof fn lemma_next_sep(s: Seq<char>, set: Seq<char>, cur: int)
    requires
        0 <= cur,
    ensures
        next_sep(s, set, cur) matches Some(k) ==> cur <= k < s.len() && set.contains(s[k])
            && forall|j: int| cur <= j < k ==> !set.contains(#[trigger] s[j]),
        next_sep(s, set, cur) is None ==> forall|j: int| cur <= j < s.len() ==> !set.contains(#[trigger] s[j]),
    decreases s.len() - cur,
{
    if cur < s.len() && !set.contains(s[cur]) {
        lemma_next_sep(s, set, cur + 1);
    }
}

/// Whether `c` is one of `set`.
pub fn in_set(set: &[char], c: char) -> (r: bool)
    ensures
        r == set@.contains(c),
{
    let mut i: usize = 0;
    while i < set.len()
        invariant
            i <= set@.len(),
            forall|k: int| 0 <= k < i ==> set@[k] != c,
        decreases set@.len() - i,
    {
        if set[i] == c {
            return true;
        }
        i = i + 1;
    }
    false
}

/// First position at or after `cur` holding a character of `set`.
pub fn find_sep(s: &[char], set: &[char], cur: usize) -> (r: Option<usize>)
    ensures
        r matches Some(k) ==> next_sep(s@, set@, cur as int) == Some(k as int),
        r is None ==> next_sep(s@, set@, cur as int) is None,
{
    let mut i = cur;
    while i < s.len()
        invariant
            cur <= i,
            next_sep(s@, set@, cur as int) == next_sep(s@, set@, i as int),
        decreases s@.len() - i,
    {
        if in_set(set, s[i]) {
            return Some(i);
        }
        i = i + 1;
    }
    None
}

/// The pieces of `s[cur..]` between characters of `set` (`str::split`), as
/// spans.
pub open spec fn split_spans(s: Seq<char>, set: Seq<char>, cur: int) -> Seq<(int, int)>
    decreases s.len() - cur,
{
    if cur < 0 || cur > s.len() {
        seq![]
    } else {
        match next_sep(s, set, cur) {
            None => seq![(cur, s.len() as int)],
            Some(k) => {
                proof {
                    lemma_next_sep(s, set, cur);
                }
                seq![(cur, k)] + split_spans(s, set, k + 1)
            },
        }
    }
}

/// The pieces of `s[cur..]` split at the first `n - 1` characters of `set`
/// (`str::splitn`), as spans.
pub open spec fn splitn_spans(s: Seq<char>, set: Seq<char>, n: nat, cur: int) -> Seq<(int, int)>
    decreases n,
{
    if cur < 0 || cur > s.len() || n == 0 {
        seq![]
    } else if n == 1 {
        seq![(cur, s.len() as int)]
    } else {
        match next_sep(s, set, cur) {
            None => seq![(cur, s.len() as int)],
            Some(k) => seq![(cur, k)] + splitn_spans(s, set, (n - 1) as nat, k + 1),
        }
    }
}

/// Spans as integer pairs.
pub open spec fn span_ints(v: Seq<(usize, usize)>) -> Seq<(int, int)> {
    v.map_values(|p: (usize, usize)| (p.0 as int, p.1 as int))
}

/// `s[cur..]` split at every character of `set`.
pub fn split_at_any(s: &[char], set: &[char], cur: usize) -> (r: Vec<(usize, usize)>)
    requires
        cur <= s@.len(),
    ensures
        span_ints(r@) == split_spans(s@, set@, cur as int),
        forall|k: int| 0 <= k < r@.len() ==> #[trigger] r@[k].0 <= r@[k].1 <= s@.len(),
{
    let mut r: Vec<(usize, usize)> = Vec::new();
    let mut c = cur;
    assert(span_ints(r@) + split_spans(s@, set@, cur as int) =~= split_spans(s@, set@, cur as int));
    loop
        invariant
            c <= s@.len(),
            s@.len() == s.len(),
            split_spans(s@, set@, cur as int) == span_ints(r@) + split_spans(s@, set@, c as int),
            forall|k: int| 0 <= k < r@.len() ==> #[trigger] r@[k].0 <= r@[k].1 <= s@.len(),
        decreases s@.len() - c,
    {
        let ghost before = span_ints(r@);
        let ghost rv = r@;
        match find_sep(s, set, c) {
            None => {
                r.push((c, s.len()));
                assert forall|j: int| 0 <= j < r@.len() implies #[trigger] r@[j].0 <= r@[j].1
                    <= s@.len() by {
                    if j < rv.len() {
                        assert(r@[j] == rv[j]);
                    }
                }
                assert(span_ints(r@) =~= before.push((c as int, s@.len() as int)));
                assert(span_ints(r@) =~= before + split_spans(s@, set@, c as int));
                return r;
            },
            Some(k) => {
                proof {
                    lemma_next_sep(s@, set@, c as int);
                }
                r.push((c, k));
                assert forall|j: int| 0 <= j < r@.len() implies #[trigger] r@[j].0 <= r@[j].1
                    <= s@.len() by {
                    if j < rv.len() {
                        assert(r@[j] == rv[j]);
                    }
                }
                assert(span_ints(r@) =~= before.push((c as int, k as int)));
                assert(span_ints(r@) + split_spans(s@, set@, k + 1) =~= before + split_spans(
                    s@,
                    set@,
                    c as int,
                ));
                c = k + 1;
            },
        }
    }
}

/// `s[cur..]` split at the first `n - 1` characters of `set`.
pub fn splitn_at_any(s: &[char], set: &[char], n: usize, cur: usize) -> (r: Vec<(usize, usize)>)
    requires
        cur <= s@.len(),
        n >= 1,
    ensures
        span_ints(r@) == splitn_spans(s@, set@, n as nat, cur as int),
        forall|k: int| 0 <= k < r@.len() ==> #[trigger] r@[k].0 <= r@[k].1 <= s@.len(),
{
    let mut r: Vec<(usize, usize)> = Vec::new();
    let mut c = cur;
    let mut left = n;
    assert(span_ints(r@) + splitn_spans(s@, set@, n as nat, cur as int) =~= splitn_spans(
        s@,
        set@,
        n as nat,
        cur as int,
    ));
    loop
        invariant
            c <= s@.len(),
            s@.len() == s.len(),
            left >= 1,
            splitn_spans(s@, set@, n as nat, cur as int) == span_ints(r@) + splitn_spans(
                s@,
                set@,
                left as nat,
                c as int,
            ),
            forall|k: int| 0 <= k < r@.len() ==> #[trigger] r@[k].0 <= r@[k].1 <= s@.len(),
        decreases left,
    {
        let ghost before = span_ints(r@);
        let ghost rv = r@;
        if left == 1 {
            r.push((c, s.len()));
            assert forall|j: int| 0 <= j < r@.len() implies #[trigger] r@[j].0 <= r@[j].1
                <= s@.len() by {
                if j < rv.len() {
                    assert(r@[j] == rv[j]);
                }
            }
            assert(span_ints(r@) =~= before + splitn_spans(s@, set@, left as nat, c as int));
            return r;
        }
        match find_sep(s, set, c) {
            None => {
                r.push((c, s.len()));
                assert forall|j: int| 0 <= j < r@.len() implies #[trigger] r@[j].0 <= r@[j].1
                    <= s@.len() by {
                    if j < rv.len() {
                        assert(r@[j] == rv[j]);
                    }
                }
                assert(span_ints(r@) =~= before + splitn_spans(s@, set@, left as nat, c as int));
                return r;
            },
            Some(k) => {
                proof {
                    lemma_next_sep(s@, set@, c as int);
                }
                r.push((c, k));
                assert forall|j: int| 0 <= j < r@.len() implies #[trigger] r@[j].0 <= r@[j].1
                    <= s@.len() by {
                    if j < rv.len() {
                        assert(r@[j] == rv[j]);
                    }
                }
                assert(span_ints(r@) =~= before.push((c as int, k as int)));
                assert(span_ints(r@) + splitn_spans(s@, set@, (left - 1) as nat, k + 1) =~= before
                    + splitn_spans(s@, set@, left as nat, c as int));
                c = k + 1;
                left = left - 1;
            },
        }
    }
}

} // verus!

verus! {

/// Spans of the lines of `s[cur..]` (`str::lines`): split at `\n`, a `\r`
/// just before the `\n` dropped, and no empty line after a final `\n`.
pub open spec fn line_spans(s: Seq<char>, cur: int) -> Seq<(int, int)>
    decreases s.len() - cur,
{
    if cur < 0 || cur >= s.len() {
        seq![]
    } else {
        match next_sep(s, seq!['\n'], cur) {
            None => seq![(cur, s.len() as int)],
            Some(k) => {
                proof {
                    lemma_next_sep(s, seq!['\n'], cur);
                }
                let e = if k > cur && s[k - 1] == '\r' {
                    k - 1
                } else {
                    k
                };
                seq![(cur, e)] + line_spans(s, k + 1)
            },
        }
    }
}

/// The line spans of `s` (see [`line_spans`]).
pub fn lines(s: &[char]) -> (r: Vec<(usize, usize)>)
    ensures
        span_ints(r@) == line_spans(s@, 0),
        forall|k: int| 0 <= k < r@.len() ==> #[trigger] r@[k].0 <= r@[k].1 <= s@.len(),
{
    let nl: Vec<char> = vec!['\n'];
    assert(nl@ =~= seq!['\n']);
    let mut r: Vec<(usize, usize)> = Vec::new();
    let mut c: usize = 0;
    assert(span_ints(r@) + line_spans(s@, 0) =~= line_spans(s@, 0));
    while c < s.len()
        invariant
            c <= s@.len(),
            s@.len() == s.len(),
            nl@ == seq!['\n'],
            line_spans(s@, 0) == span_ints(r@) + line_spans(s@, c as int),
            forall|k: int| 0 <= k < r@.len() ==> #[trigger] r@[k].0 <= r@[k].1 <= s@.len(),
        decreases s@.len() - c,
    {
        let ghost before = span_ints(r@);
        let ghost rv = r@;
        match find_sep(s, nl.as_slice(), c) {
            None => {
                r.push((c, s.len()));
                assert forall|j: int| 0 <= j < r@.len() implies #[trigger] r@[j].0 <= r@[j].1
                    <= s@.len() by {
                    if j < rv.len() {
                        assert(r@[j] == rv[j]);
                    }
                }
                assert(span_ints(r@) =~= before + line_spans(s@, c as int));
                assert(line_spans(s@, s@.len() as int) =~= Seq::<(int, int)>::empty());
                assert(span_ints(r@) + line_spans(s@, s@.len() as int) =~= span_ints(r@));
                c = s.len();
            },
            Some(k) => {
                proof {
                    lemma_next_sep(s@, seq!['\n'], c as int);
                }
                let e = if k > c && s[k - 1] == '\r' {
                    k - 1
                } else {
                    k
                };
                r.push((c, e));
                assert forall|j: int| 0 <= j < r@.len() implies #[trigger] r@[j].0 <= r@[j].1
                    <= s@.len() by {
                    if j < rv.len() {
                        assert(r@[j] == rv[j]);
                    }
                }
                assert(span_ints(r@) =~= before.push((c as int, e as int)));
                assert(span_ints(r@) + line_spans(s@, k + 1) =~= before + line_spans(s@, c as int));
                c = k + 1;
            },
        }
    }
    assert(line_spans(s@, c as int) =~= Seq::<(int, int)>::empty());
    assert(span_ints(r@) + line_spans(s@, c as int) =~= span_ints(r@));
    r
}

} // verus!

verus! {

/// `splitn` yields at most `n` pieces.
pub proof fn lemma_splitn_len(s: Seq<char>, set: Seq<char>, n: nat, cur: int)
    ensures
        splitn_spans(s, set, n, cur).len() <= n,
    decreases n,
{
    if n > 1 && 0 <= cur <= s.len() {
        if let Some(k) = next_sep(s, set, cur) {
            lemma_splitn_len(s, set, (n - 1) as nat, k + 1);
        }
    }
}

} // verus!
