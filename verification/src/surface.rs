//! TIN topology: the unique edges of a triangulation, and the combinatorial
//! step of incremental Delaunay triangulation (refilling the cavity left by
//! the triangles a new point invalidates). Node coordinates, the in-circle
//! and orientation tests, areas and volumes are real-number geometry
//! computed by the application.
use vstd::prelude::*;

verus! {

/// An edge with its smaller node index first.
pub open spec fn edge_key(a: usize, b: usize) -> (usize, usize) {
    if a < b {
        (a, b)
    } else {
        (b, a)
    }
}

/// The three sides of a triangle, in order `t0-t1`, `t1-t2`, `t2-t0`.
pub open spec fn sides(t: [usize; 3]) -> Seq<(usize, usize)> {
    seq![edge_key(t[0], t[1]), edge_key(t[1], t[2]), edge_key(t[2], t[0])]
}

/// The sides of all triangles, triangle by triangle.
pub open spec fn all_sides(tris: Seq<[usize; 3]>) -> Seq<(usize, usize)>
    decreases tris.len(),
{
    if tris.len() == 0 {
        seq![]
    } else {
        all_sides(tris.drop_last()) + sides(tris.last())
    }
}

/// `s` without repeats, each element kept at its first occurrence.
pub open spec fn first_occurrences<A>(s: Seq<A>) -> Seq<A>
    decreases s.len(),
{
    if s.len() == 0 {
        seq![]
    } else {
        let prev = first_occurrences(s.drop_last());
        if prev.contains(s.last()) {
            prev
        } else {
            prev.push(s.last())
        }
    }
}

/// The unique edges of a triangulation: every triangle side, smaller index
/// first, listed once, in order of first appearance.
pub open spec fn unique_edges(tris: Seq<[usize; 3]>) -> Seq<(usize, usize)> {
    first_occurrences(all_sides(tris))
}

fn key(a: usize, b: usize) -> (r: (usize, usize))
    ensures
        r == edge_key(a, b),
{
    if a < b {
        (a, b)
    } else {
        (b, a)
    }
}

/// Unique TIN edges as node-index pairs (see [`unique_edges`]); used to draw
/// a triangulation without doubling shared edges.
pub fn edges(triangles: &[[usize; 3]]) -> (r: Vec<[usize; 2]>)
    ensures
        r@.map_values(|e: [usize; 2]| (e[0], e[1])) == unique_edges(triangles@),
{
    let mut seen: Vec<(usize, usize)> = Vec::new();
    let mut out: Vec<[usize; 2]> = Vec::new();
    let mut i: usize = 0;
    let ghost tris = triangles@;
    assert(tris.take(0) =~= Seq::<[usize; 3]>::empty());
    while i < triangles.len()
        invariant
            tris == triangles@,
            i <= tris.len(),
            seen@ == first_occurrences(all_sides(tris.take(i as int))),
            out@.map_values(|e: [usize; 2]| (e[0], e[1])) == seen@,
        decreases tris.len() - i,
    {
        let t = triangles[i];
        let ghost before = all_sides(tris.take(i as int));
        assert(tris.take(i + 1).drop_last() =~= tris.take(i as int));
        assert(tris.take(i + 1).last() == t);
        let ks = [key(t[0], t[1]), key(t[1], t[2]), key(t[2], t[0])];
        let mut j: usize = 0;
        while j < 3
            invariant
                j <= 3,
                ks@ == sides(t),
                seen@ == first_occurrences(before + ks@.take(j as int)),
                out@.map_values(|e: [usize; 2]| (e[0], e[1])) == seen@,
            decreases 3 - j,
        {
            let k = ks[j];
            let ghost cur = before + ks@.take(j as int);
            assert((before + ks@.take(j + 1)).drop_last() =~= cur);
            assert((before + ks@.take(j + 1)).last() == k);
            let mut found = false;
            let mut m: usize = 0;
            while m < seen.len()
                invariant
                    m <= seen@.len(),
                    found == (exists|q: int| 0 <= q < m && seen@[q] == k),
                decreases seen@.len() - m,
            {
                if seen[m].0 == k.0 && seen[m].1 == k.1 {
                    found = true;
                }
                m = m + 1;
            }
            if !found {
                let ghost ov = out@.map_values(|e: [usize; 2]| (e[0], e[1]));
                seen.push(k);
                out.push([k.0, k.1]);
                assert(out@.map_values(|e: [usize; 2]| (e[0], e[1])) =~= ov.push(k));
            } else {
                proof {
                    let q = choose|q: int| 0 <= q < seen@.len() && seen@[q] == k;
                    assert(seen@.contains(k));
                }
            }
            j = j + 1;
        }
        assert(ks@.take(3) =~= sides(t));
        assert(all_sides(tris.take(i + 1)) == before + sides(t));
        i = i + 1;
    }
    assert(tris.take(tris.len() as int) =~= tris);
    out
}

} // verus!

verus! {

pub proof fn lemma_first_occurrences<A>(s: Seq<A>)
    ensures
        forall|x: A| #[trigger] first_occurrences(s).contains(x) <==> s.contains(x),
        forall|i: int, j: int|
            0 <= i < j < first_occurrences(s).len() ==> #[trigger] first_occurrences(s)[i]
                != #[trigger] first_occurrences(s)[j],
    decreases s.len(),
{
    if s.len() > 0 {
        let d = s.drop_last();
        lemma_first_occurrences(d);
        let p = first_occurrences(d);
        assert forall|x: A| #[trigger] first_occurrences(s).contains(x) <==> s.contains(x) by {
            if s.contains(x) {
                let k = choose|k: int| 0 <= k < s.len() && s[k] == x;
                if k < d.len() {
                    assert(d[k] == x);
                    assert(d.contains(x));
                    assert(p.contains(x));
                    if !p.contains(s.last()) {
                        let q = choose|q: int| 0 <= q < p.len() && p[q] == x;
                        assert(p.push(s.last())[q] == x);
                    }
                } else {
                    if !p.contains(s.last()) {
                        assert(p.push(s.last())[p.len() as int] == x);
                    }
                }
            }
            if first_occurrences(s).contains(x) {
                let q = choose|q: int|
                    0 <= q < first_occurrences(s).len() && first_occurrences(s)[q] == x;
                if p.contains(s.last()) || q < p.len() {
                    if q < p.len() {
                        assert(p[q] == x);
                    }
                    assert(p.contains(x));
                    assert(d.contains(x));
                    let k = choose|k: int| 0 <= k < d.len() && d[k] == x;
                    assert(s[k] == x);
                } else {
                    assert(s[s.len() - 1] == x);
                }
            }
        }
    }
}

pub proof fn lemma_all_sides(tris: Seq<[usize; 3]>)
    ensures
        forall|e: (usize, usize)|
            #[trigger] all_sides(tris).contains(e) <==> exists|k: int|
                0 <= k < tris.len() && #[trigger] sides(tris[k]).contains(e),
    decreases tris.len(),
{
    if tris.len() > 0 {
        let d = tris.drop_last();
        lemma_all_sides(d);
        let a = all_sides(d);
        let b = sides(tris.last());
        assert forall|e: (usize, usize)| #[trigger] all_sides(tris).contains(e) <==> exists|k: int|
            0 <= k < tris.len() && #[trigger] sides(tris[k]).contains(e) by {
            if all_sides(tris).contains(e) {
                let q = choose|q: int| 0 <= q < (a + b).len() && (a + b)[q] == e;
                if q < a.len() {
                    assert(a[q] == e);
                    assert(a.contains(e));
                    let k = choose|k: int| 0 <= k < d.len() && #[trigger] sides(d[k]).contains(e);
                    assert(tris[k] == d[k]);
                } else {
                    assert(b[q - a.len()] == e);
                    assert(sides(tris[tris.len() - 1]).contains(e));
                }
            }
            if exists|k: int| 0 <= k < tris.len() && #[trigger] sides(tris[k]).contains(e) {
                let k = choose|k: int| 0 <= k < tris.len() && #[trigger] sides(tris[k]).contains(e);
                if k < d.len() {
                    assert(tris[k] == d[k]);
                    assert(a.contains(e));
                    let q = choose|q: int| 0 <= q < a.len() && a[q] == e;
                    assert((a + b)[q] == e);
                } else {
                    let q = choose|q: int| 0 <= q < b.len() && b[q] == e;
                    assert((a + b)[a.len() + q] == e);
                }
            }
        }
    }
}

/// The edge list of a triangulation names each triangle side exactly once:
/// no edge twice, every side of every triangle present, and nothing else.
pub proof fn law_edges_unique_and_complete(tris: Seq<[usize; 3]>)
    ensures
        forall|i: int, j: int|
            0 <= i < j < unique_edges(tris).len() ==> #[trigger] unique_edges(tris)[i]
                != #[trigger] unique_edges(tris)[j],
        forall|e: (usize, usize)|
            #[trigger] unique_edges(tris).contains(e) <==> exists|k: int|
                0 <= k < tris.len() && #[trigger] sides(tris[k]).contains(e),
{
    lemma_first_occurrences(all_sides(tris));
    lemma_all_sides(tris);
}

} // verus!

verus! {

/// A triangle as a triple of node indices.
pub open spec fn tri(t: [usize; 3]) -> (usize, usize, usize) {
    (t[0], t[1], t[2])
}

/// The triangles of a list as triples.
pub open spec fn tris_view(v: Seq<[usize; 3]>) -> Seq<(usize, usize, usize)> {
    v.map_values(|t: [usize; 3]| tri(t))
}

/// How many times `x` occurs in `s`.
pub open spec fn count_in<A>(s: Seq<A>, x: A) -> nat
    decreases s.len(),
{
    if s.len() == 0 {
        0
    } else {
        count_in(s.drop_last(), x) + if s.last() == x {
            1nat
        } else {
            0nat
        }
    }
}

/// The elements of `firsts` that occur exactly once in `all`, in order.
pub open spec fn occurring_once<A>(firsts: Seq<A>, all: Seq<A>) -> Seq<A>
    decreases firsts.len(),
{
    if firsts.len() == 0 {
        seq![]
    } else {
        let prev = occurring_once(firsts.drop_last(), all);
        if count_in(all, firsts.last()) == 1 {
            prev.push(firsts.last())
        } else {
            prev
        }
    }
}

/// The first `n` triangles whose flag in `bad` is set, in order.
pub open spec fn flagged(tris: Seq<[usize; 3]>, bad: Seq<bool>, n: int) -> Seq<[usize; 3]>
    decreases n,
{
    if n <= 0 {
        seq![]
    } else {
        let prev = flagged(tris, bad, n - 1);
        if bad[n - 1] {
            prev.push(tris[n - 1])
        } else {
            prev
        }
    }
}

/// Whether `t` is one of the triangles flagged bad.
pub open spec fn is_bad(tris: Seq<[usize; 3]>, bad: Seq<bool>, t: [usize; 3]) -> bool {
    exists|j: int| 0 <= j < tris.len() && bad[j] && #[trigger] tri(tris[j]) == tri(t)
}

/// The first `n` triangles that are not bad (equal to no bad triangle), in
/// order.
pub open spec fn kept(tris: Seq<[usize; 3]>, bad: Seq<bool>, n: int) -> Seq<[usize; 3]>
    decreases n,
{
    if n <= 0 {
        seq![]
    } else {
        let prev = kept(tris, bad, n - 1);
        if is_bad(tris, bad, tris[n - 1]) {
            prev
        } else {
            prev.push(tris[n - 1])
        }
    }
}

/// The boundary of the cavity the triangles `bt` leave: the sides that
/// belong to exactly one of them, smaller index first, in order of first
/// appearance.
pub open spec fn cavity_boundary(bt: Seq<[usize; 3]>) -> Seq<(usize, usize)> {
    occurring_once(first_occurrences(all_sides(bt)), all_sides(bt))
}

/// The triangles joining each edge to `apex`.
pub open spec fn fan(edges: Seq<(usize, usize)>, apex: usize) -> Seq<(usize, usize, usize)> {
    edges.map_values(|e: (usize, usize)| (e.0, e.1, apex))
}

/// The triangulation after inserting node `apex`: the triangles that stay,
/// in order, then the cavity boundary joined to `apex`.
pub open spec fn refilled(tris: Seq<[usize; 3]>, bad: Seq<bool>, apex: usize) -> Seq<
    (usize, usize, usize),
> {
    tris_view(kept(tris, bad, tris.len() as int)) + fan(
        cavity_boundary(flagged(tris, bad, tris.len() as int)),
        apex,
    )
}

proof fn lemma_count_push<A>(s: Seq<A>, x: A, y: A)
    ensures
        count_in(s.push(x), y) == count_in(s, y) + if x == y {
            1nat
        } else {
            0nat
        },
{
    assert(s.push(x).drop_last() =~= s);
}

proof fn lemma_count_absent<A>(s: Seq<A>, x: A)
    requires
        !s.contains(x),
    ensures
        count_in(s, x) == 0,
    decreases s.len(),
{
    if s.len() > 0 {
        assert(s.last() == s[s.len() - 1]);
        let d = s.drop_last();
        assert forall|k: int| 0 <= k < d.len() implies d[k] != x by {
            assert(d[k] == s[k]);
        }
        lemma_count_absent(d, x);
    }
}

proof fn lemma_count_le<A>(s: Seq<A>, x: A)
    ensures
        count_in(s, x) <= s.len(),
    decreases s.len(),
{
    if s.len() > 0 {
        lemma_count_le(s.drop_last(), x);
    }
}

fn same_tri(a: [usize; 3], b: [usize; 3]) -> (r: bool)
    ensures
        r == (tri(a) == tri(b)),
{
    a[0] == b[0] && a[1] == b[1] && a[2] == b[2]
}

/// The bad triangles, in order.
fn bad_triangles(tris: &Vec<[usize; 3]>, bad: &Vec<bool>) -> (r: Vec<[usize; 3]>)
    requires
        bad@.len() == tris@.len(),
    ensures
        r@ == flagged(tris@, bad@, tris@.len() as int),
{
    let mut r: Vec<[usize; 3]> = Vec::new();
    let mut k: usize = 0;
    while k < tris.len()
        invariant
            bad@.len() == tris@.len(),
            k <= tris@.len(),
            r@ == flagged(tris@, bad@, k as int),
        decreases tris@.len() - k,
    {
        if bad[k] {
            r.push(tris[k]);
        }
        k = k + 1;
    }
    r
}

/// The sides of `bt`, triangle by triangle (see [`all_sides`]).
fn sides_of(bt: &Vec<[usize; 3]>) -> (r: Vec<(usize, usize)>)
    ensures
        r@ == all_sides(bt@),
{
    let mut r: Vec<(usize, usize)> = Vec::new();
    let mut i: usize = 0;
    while i < bt.len()
        invariant
            i <= bt@.len(),
            r@ == all_sides(bt@.take(i as int)),
        decreases bt@.len() - i,
    {
        let t = bt[i];
        assert(bt@.take(i + 1).drop_last() =~= bt@.take(i as int));
        assert(bt@.take(i + 1).last() == t);
        let ghost before = r@;
        r.push(key(t[0], t[1]));
        r.push(key(t[1], t[2]));
        r.push(key(t[2], t[0]));
        assert(r@ =~= before + sides(t));
        i = i + 1;
    }
    assert(bt@.take(bt@.len() as int) =~= bt@);
    r
}

/// The distinct entries of `all` in order of first appearance, each with
/// the number of times it occurs.
fn tally(all: &Vec<(usize, usize)>) -> (r: (Vec<(usize, usize)>, Vec<usize>))
    ensures
        r.0@ == first_occurrences(all@),
        r.1@.len() == r.0@.len(),
        forall|j: int| 0 <= j < r.1@.len() ==> #[trigger] r.1@[j] == count_in(all@, r.0@[j]),
{
    let mut keys: Vec<(usize, usize)> = Vec::new();
    let mut counts: Vec<usize> = Vec::new();
    let mut i: usize = 0;
    while i < all.len()
        invariant
            i <= all@.len(),
            keys@ == first_occurrences(all@.take(i as int)),
            counts@.len() == keys@.len(),
            forall|j: int|
                0 <= j < counts@.len() ==> #[trigger] counts@[j] == count_in(
                    all@.take(i as int),
                    keys@[j],
                ),
        decreases all@.len() - i,
    {
        let x = all[i];
        let ghost pre = all@.take(i as int);
        assert(all@.take(i + 1) =~= pre.push(x));
        assert(pre.push(x).drop_last() =~= pre);
        proof {
            lemma_first_occurrences(pre);
        }
        let mut m: usize = 0;
        let mut found: Option<usize> = None;
        while m < keys.len()
            invariant
                m <= keys@.len(),
                found matches Some(f) ==> f < keys@.len() && keys@[f as int] == x,
                found is None ==> forall|q: int| 0 <= q < m ==> keys@[q] != x,
            decreases keys@.len() - m,
        {
            if found.is_none() && keys[m].0 == x.0 && keys[m].1 == x.1 {
                found = Some(m);
            }
            m = m + 1;
        }
        match found {
            Some(f) => {
                proof {
                    lemma_count_le(pre, keys@[f as int]);
                }
                let c = counts[f] + 1;
                let ghost old_counts = counts@;
                counts.set(f, c);
                assert(keys@.contains(x));
                assert(first_occurrences(pre.push(x)) == first_occurrences(pre));
                assert forall|j: int| 0 <= j < counts@.len() implies #[trigger] counts@[j]
                    == count_in(all@.take(i + 1), keys@[j]) by {
                    lemma_count_push(pre, x, keys@[j]);
                    if j != f {
                        assert(keys@[j] != keys@[f as int]);
                        assert(counts@[j] == old_counts[j]);
                    }
                }
            },
            None => {
                proof {
                    assert(!keys@.contains(x));
                    lemma_count_absent(pre, x);
                }
                let ghost old_keys = keys@;
                let ghost old_counts = counts@;
                keys.push(x);
                counts.push(1);
                assert(first_occurrences(pre.push(x)) == old_keys.push(x));
                assert forall|j: int| 0 <= j < counts@.len() implies #[trigger] counts@[j]
                    == count_in(all@.take(i + 1), keys@[j]) by {
                    lemma_count_push(pre, x, keys@[j]);
                    if j < old_keys.len() {
                        assert(keys@[j] == old_keys[j]);
                        assert(counts@[j] == old_counts[j]);
                    }
                }
            },
        }
        i = i + 1;
    }
    assert(all@.take(all@.len() as int) =~= all@);
    (keys, counts)
}

/// The incremental Delaunay step for node `apex`: drop the triangles flagged
/// `bad` (those whose circumcircle holds the new node) and fill the cavity
/// they leave by joining each of its boundary edges to `apex` (see
/// [`refilled`]).
pub fn refill_cavity(tris: &Vec<[usize; 3]>, bad: &Vec<bool>, apex: usize) -> (r: Vec<[usize; 3]>)
    requires
        bad@.len() == tris@.len(),
    ensures
        tris_view(r@) == refilled(tris@, bad@, apex),
{
    let bt = bad_triangles(tris, bad);
    let all = sides_of(&bt);
    let (keys, counts) = tally(&all);
    let mut out: Vec<[usize; 3]> = Vec::new();
    let mut k: usize = 0;
    while k < tris.len()
        invariant
            bad@.len() == tris@.len(),
            k <= tris@.len(),
            out@ == kept(tris@, bad@, k as int),
        decreases tris@.len() - k,
    {
        let t = tris[k];
        let mut j: usize = 0;
        let mut hit = false;
        while j < tris.len()
            invariant
                bad@.len() == tris@.len(),
                j <= tris@.len(),
                hit == exists|q: int| 0 <= q < j && bad@[q] && #[trigger] tri(tris@[q]) == tri(t),
            decreases tris@.len() - j,
        {
            if bad[j] && same_tri(tris[j], t) {
                hit = true;
            }
            j = j + 1;
        }
        assert(hit == is_bad(tris@, bad@, tris@[k as int]));
        if !hit {
            out.push(t);
        }
        k = k + 1;
    }
    let ghost kept_all = tris_view(out@);
    let ghost firsts = keys@;
    let mut j: usize = 0;
    while j < keys.len()
        invariant
            j <= keys@.len(),
            firsts == keys@,
            keys@ == first_occurrences(all@),
            counts@.len() == keys@.len(),
            forall|q: int| 0 <= q < counts@.len() ==> #[trigger] counts@[q] == count_in(all@, keys@[q]),
            tris_view(out@) == kept_all + fan(occurring_once(firsts.take(j as int), all@), apex),
        decreases keys@.len() - j,
    {
        let e = keys[j];
        assert(firsts.take(j + 1).drop_last() =~= firsts.take(j as int));
        assert(firsts.take(j + 1).last() == e);
        if counts[j] == 1 {
            let ghost before = tris_view(out@);
            out.push([e.0, e.1, apex]);
            assert(tris_view(out@) =~= before.push((e.0, e.1, apex)));
            assert(fan(occurring_once(firsts.take(j + 1), all@), apex) =~= fan(
                occurring_once(firsts.take(j as int), all@),
                apex,
            ).push((e.0, e.1, apex)));
        }
        j = j + 1;
    }
    assert(firsts.take(firsts.len() as int) =~= firsts);
    out
}

/// The triangles whose three nodes are all below `n` (dropping those that
/// touch the super-triangle's nodes `n`, `n + 1`, `n + 2`).
pub open spec fn inside(tris: Seq<[usize; 3]>, n: usize) -> Seq<[usize; 3]>
    decreases tris.len(),
{
    if tris.len() == 0 {
        seq![]
    } else {
        let prev = inside(tris.drop_last(), n);
        let t = tris.last();
        if t[0] < n && t[1] < n && t[2] < n {
            prev.push(t)
        } else {
            prev
        }
    }
}

/// The triangles not touching the super-triangle (see [`inside`]).
pub fn drop_super_triangle(tris: &Vec<[usize; 3]>, n: usize) -> (r: Vec<[usize; 3]>)
    ensures
        r@ == inside(tris@, n),
{
    let mut r: Vec<[usize; 3]> = Vec::new();
    let mut i: usize = 0;
    while i < tris.len()
        invariant
            i <= tris@.len(),
            r@ == inside(tris@.take(i as int), n),
        decreases tris@.len() - i,
    {
        let t = tris[i];
        assert(tris@.take(i + 1).drop_last() =~= tris@.take(i as int));
        assert(tris@.take(i + 1).last() == t);
        if t[0] < n && t[1] < n && t[2] < n {
            r.push(t);
        }
        i = i + 1;
    }
    assert(tris@.take(tris@.len() as int) =~= tris@);
    r
}


/// A new node inside a single bad triangle with three distinct corners
/// splits it in three: the cavity's boundary is exactly that triangle's
/// three sides, in order.
pub proof fn law_single_bad_triangle_splits(t: [usize; 3])
    requires
        t[0] != t[1],
        t[1] != t[2],
        t[2] != t[0],
    ensures
        cavity_boundary(seq![t]) == sides(t),
{
    let bt = seq![t];
    let s = sides(t);
    assert(bt.drop_last() =~= Seq::<[usize; 3]>::empty());
    assert(bt.last() == t);
    assert(all_sides(bt.drop_last()) =~= Seq::<(usize, usize)>::empty());
    assert(all_sides(bt) =~= s);
    let (e0, e1, e2) = (s[0], s[1], s[2]);
    assert(e0 != e1 && e1 != e2 && e0 != e2);
    let s1 = s.take(1);
    let s2 = s.take(2);
    assert(s1.drop_last() =~= Seq::<(usize, usize)>::empty());
    assert(s2.drop_last() =~= s1);
    assert(s.drop_last() =~= s2);
    assert(s1.last() == e0 && s2.last() == e1 && s.last() == e2);
    assert(first_occurrences(s1.drop_last()) =~= Seq::<(usize, usize)>::empty());
    assert(first_occurrences(s1) =~= seq![e0]);
    assert(first_occurrences(s2) =~= seq![e0, e1]);
    assert(first_occurrences(s) =~= s);
    let empty = Seq::<(usize, usize)>::empty();
    assert(count_in(empty, e0) == 0 && count_in(empty, e1) == 0 && count_in(empty, e2) == 0);
    assert(count_in(s1, e0) == 1 && count_in(s1, e1) == 0 && count_in(s1, e2) == 0);
    assert(count_in(s2, e0) == 1 && count_in(s2, e1) == 1 && count_in(s2, e2) == 0);
    assert(count_in(s, e0) == 1 && count_in(s, e1) == 1 && count_in(s, e2) == 1);
    assert(occurring_once(s1.drop_last(), s) =~= Seq::<(usize, usize)>::empty());
    assert(occurring_once(s1, s) =~= seq![e0]);
    assert(occurring_once(s2, s) =~= seq![e0, e1]);
    assert(occurring_once(s, s) =~= s);
}


/// Dropping the super-triangle keeps exactly the triangles whose three
/// corners are all real points (below `n`), in their order: every triangle
/// left has all corners below `n`, each comes from the input, and every input
/// triangle with all corners below `n` is left.
pub proof fn law_drop_super_triangle_keeps_real_triangles(tris: Seq<[usize; 3]>, n: usize)
    ensures
        forall|k: int|
            0 <= k < inside(tris, n).len() ==> {
                let t = #[trigger] inside(tris, n)[k];
                t[0] < n && t[1] < n && t[2] < n && tris.contains(t)
            },
        forall|k: int|
            0 <= k < tris.len() && tris[k][0] < n && tris[k][1] < n && tris[k][2] < n
                ==> inside(tris, n).contains(#[trigger] tris[k]),
        inside(tris, n).len() <= tris.len(),
    decreases tris.len(),
{
    if tris.len() > 0 {
        let d = tris.drop_last();
        law_drop_super_triangle_keeps_real_triangles(d, n);
        let prev = inside(d, n);
        let out = inside(tris, n);
        let t = tris.last();
        assert forall|k: int| 0 <= k < out.len() implies {
            let u = #[trigger] out[k];
            u[0] < n && u[1] < n && u[2] < n && tris.contains(u)
        } by {
            if k < prev.len() {
                assert(out[k] == prev[k]);
                let u = prev[k];
                assert(d.contains(u));
                let j = choose|j: int| 0 <= j < d.len() && d[j] == u;
                assert(tris[j] == u);
            } else {
                assert(out[k] == t);
                assert(tris[tris.len() - 1] == t);
            }
        }
        assert forall|k: int|
            0 <= k < tris.len() && tris[k][0] < n && tris[k][1] < n && tris[k][2] < n implies out.contains(
            #[trigger] tris[k],
        ) by {
            if k < d.len() {
                assert(d[k] == tris[k]);
                assert(prev.contains(d[k]));
                let j = choose|j: int| 0 <= j < prev.len() && prev[j] == d[k];
                assert(out[j] == prev[j]);
            } else {
                assert(tris[k] == t);
                assert(out[prev.len() as int] == t);
            }
        }
    }
}

} // verus!
