//! Combinatorics of the relaxation step of the discrete Plateau solver.
//!
//! Each relaxation step moves every vertex of the surface that is not on its
//! boundary toward the average of its neighbours. Which vertices are
//! neighbours is decided here, on simplices given by vertex labels; the
//! positions and their averages are floating point.
use vstd::prelude::*;
use crate::currents::rows_view;

verus! {

/// The labels of `s` other than `v`, in order.
pub open spec fn others(s: Seq<usize>, v: usize) -> Seq<usize>
    decreases s.len(),
{
    if s.len() == 0 {
        Seq::empty()
    } else {
        others(s.drop_last(), v) + if s.last() == v {
            Seq::empty()
        } else {
            seq![s.last()]
        }
    }
}

/// The neighbours of vertex `v` through the simplices containing it: for
/// each such simplex in turn, its other vertices in order (a vertex shared by
/// several simplices appears once for each).
pub open spec fn neighbours(simplices: Seq<Seq<usize>>, v: usize) -> Seq<usize>
    decreases simplices.len(),
{
    if simplices.len() == 0 {
        Seq::empty()
    } else {
        neighbours(simplices.drop_last(), v) + if simplices.last().contains(v) {
            others(simplices.last(), v)
        } else {
            Seq::empty()
        }
    }
}

/// What relaxation averages over for each of the vertices `0..vertex_count`:
/// nothing for a boundary vertex, its neighbours for an interior one.
pub open spec fn relaxation_neighbourhood(
    simplices: Seq<Seq<usize>>,
    on_boundary: Seq<bool>,
    v: int,
) -> Seq<usize> {
    if on_boundary[v] {
        Seq::empty()
    } else {
        neighbours(simplices, v as usize)
    }
}

proof fn lemma_others_contains(s: Seq<usize>, v: usize, x: usize)
    ensures
        others(s, v).contains(x) <==> (x != v && s.contains(x)),
    decreases s.len(),
{
    if s.len() > 0 {
        lemma_others_contains(s.drop_last(), v, x);
        let tail: Seq<usize> = if s.last() == v {
            Seq::empty()
        } else {
            seq![s.last()]
        };
        assert(others(s, v) == others(s.drop_last(), v) + tail);
        if others(s, v).contains(x) {
            let i = choose|i: int| 0 <= i < others(s, v).len() && others(s, v)[i] == x;
            if i >= others(s.drop_last(), v).len() {
                assert(tail[i - others(s.drop_last(), v).len()] == x);
                assert(s[s.len() - 1] == x);
            } else {
                assert(others(s.drop_last(), v)[i] == x);
                let j = choose|j: int| 0 <= j < s.drop_last().len() && s.drop_last()[j] == x;
                assert(s[j] == x);
            }
        }
        if x != v && s.contains(x) {
            let j = choose|j: int| 0 <= j < s.len() && s[j] == x;
            if j == s.len() - 1 {
                assert(others(s, v)[others(s.drop_last(), v).len() as int] == x);
            } else {
                assert(s.drop_last()[j] == x);
                assert(others(s.drop_last(), v).contains(x));
                let i = choose|i: int| 0 <= i < others(s.drop_last(), v).len() && others(s.drop_last(), v)[i] == x;
                assert(others(s, v)[i] == x);
            }
        }
    }
}

/// Neighbours are exactly the other vertices that share a simplex: `x` is a
/// neighbour of `v` if and only if `x` differs from `v` and some simplex
/// contains both.
pub proof fn lemma_neighbours_share_a_simplex(simplices: Seq<Seq<usize>>, v: usize, x: usize)
    ensures
        neighbours(simplices, v).contains(x) <==> (x != v && exists|k: int|
            0 <= k < simplices.len() && #[trigger] simplices[k].contains(v) && simplices[k].contains(x)),
    decreases simplices.len(),
{
    if simplices.len() > 0 {
        let rest = simplices.drop_last();
        let last = simplices.last();
        lemma_neighbours_share_a_simplex(rest, v, x);
        lemma_others_contains(last, v, x);
        let tail: Seq<usize> = if last.contains(v) {
            others(last, v)
        } else {
            Seq::empty()
        };
        let prev = neighbours(rest, v);
        assert(neighbours(simplices, v) == prev + tail);
        if neighbours(simplices, v).contains(x) {
            let i = choose|i: int| 0 <= i < (prev + tail).len() && (prev + tail)[i] == x;
            if i >= prev.len() {
                assert(tail[i - prev.len()] == x);
                assert(tail.contains(x));
                assert(simplices[simplices.len() - 1] == last);
            } else {
                assert(prev[i] == x);
                assert(prev.contains(x));
                let k = choose|k: int| 0 <= k < rest.len() && #[trigger] rest[k].contains(v) && rest[k].contains(x);
                assert(simplices[k] == rest[k]);
            }
        }
        if x != v && exists|k: int| 0 <= k < simplices.len() && #[trigger] simplices[k].contains(v) && simplices[k].contains(x) {
            let k = choose|k: int| 0 <= k < simplices.len() && #[trigger] simplices[k].contains(v) && simplices[k].contains(x);
            if k == simplices.len() - 1 {
                assert(tail.contains(x));
                let i = choose|i: int| 0 <= i < tail.len() && tail[i] == x;
                assert((prev + tail)[prev.len() + i] == x);
            } else {
                assert(rest[k] == simplices[k]);
                assert(prev.contains(x));
                let i = choose|i: int| 0 <= i < prev.len() && prev[i] == x;
                assert((prev + tail)[i] == x);
            }
        }
    }
}

/// Adjacency is symmetric: `x` is a neighbour of `v` exactly when `v` is a
/// neighbour of `x`.
pub proof fn lemma_neighbours_symmetric(simplices: Seq<Seq<usize>>, v: usize, x: usize)
    ensures
        neighbours(simplices, v).contains(x) <==> neighbours(simplices, x).contains(v),
{
    lemma_neighbours_share_a_simplex(simplices, v, x);
    lemma_neighbours_share_a_simplex(simplices, x, v);
}

fn contains_label(s: &Vec<usize>, v: usize) -> (r: bool)
    ensures
        r == s@.contains(v),
{
    let mut i: usize = 0;
    while i < s.len()
        invariant
            i <= s.len(),
            forall|j: int| 0 <= j < i ==> s@[j] != v,
        decreases s.len() - i,
    {
        if s[i] == v {
            assert(s@[i as int] == v);
            return true;
        }
        i = i + 1;
    }
    false
}

/// Appends the labels of `s` other than `v` to `out`.
fn push_others(s: &Vec<usize>, v: usize, out: Vec<usize>) -> (r: Vec<usize>)
    ensures
        r@ == out@ + others(s@, v),
{
    let mut r = out;
    let mut i: usize = 0;
    while i < s.len()
        invariant
            i <= s.len(),
            r@ == out@ + others(s@.take(i as int), v),
        decreases s.len() - i,
    {
        assert(s@.take(i + 1).drop_last() =~= s@.take(i as int));
        assert(s@.take(i + 1).last() == s@[i as int]);
        if s[i] != v {
            r.push(s[i]);
            assert(r@ =~= out@ + others(s@.take(i + 1), v));
        } else {
            assert(r@ =~= out@ + others(s@.take(i + 1), v));
        }
        i = i + 1;
    }
    assert(s@.take(s.len() as int) =~= s@);
    r
}

/// The neighbours of vertex `v` in the surface whose simplices have the
/// vertex labels `simplices`: the other vertices of every simplex that
/// contains `v`, simplex by simplex.
pub fn vertex_neighbours(simplices: &Vec<Vec<usize>>, v: usize) -> (r: Vec<usize>)
    ensures
        r@ == neighbours(rows_view(simplices@), v),
        forall|x: usize|
            #[trigger] r@.contains(x) <==> (x != v && exists|k: int|
                0 <= k < simplices.len() && #[trigger] simplices@[k]@.contains(v) && simplices@[k]@.contains(x)),
{
    let ghost ss = rows_view(simplices@);
    let mut r: Vec<usize> = Vec::new();
    let mut k: usize = 0;
    while k < simplices.len()
        invariant
            ss == rows_view(simplices@),
            k <= simplices.len(),
            r@ == neighbours(ss.take(k as int), v),
        decreases simplices.len() - k,
    {
        let s = &simplices[k];
        assert(s@ == ss[k as int]);
        assert(ss.take(k + 1).drop_last() =~= ss.take(k as int));
        assert(ss.take(k + 1).last() == s@);
        if contains_label(s, v) {
            r = push_others(s, v, r);
        } else {
            assert(r@ =~= r@ + Seq::<usize>::empty());
        }
        k = k + 1;
    }
    assert(ss.take(simplices.len() as int) =~= ss);
    proof {
        assert forall|k: int| 0 <= k < simplices.len() implies #[trigger] simplices@[k]@ == ss[k] by {}
        assert forall|x: usize|
            #[trigger] r@.contains(x) <==> (x != v && exists|k: int|
                0 <= k < simplices.len() && #[trigger] simplices@[k]@.contains(v) && simplices@[k]@.contains(x)) by {
            lemma_neighbours_share_a_simplex(ss, v, x);
            if exists|k: int| 0 <= k < simplices.len() && #[trigger] simplices@[k]@.contains(v) && simplices@[k]@.contains(x) {
                let k = choose|k: int| 0 <= k < simplices.len() && #[trigger] simplices@[k]@.contains(v) && simplices@[k]@.contains(x);
                assert(ss[k].contains(v));
            }
            if exists|k: int| 0 <= k < ss.len() && #[trigger] ss[k].contains(v) && ss[k].contains(x) {
                let k = choose|k: int| 0 <= k < ss.len() && #[trigger] ss[k].contains(v) && ss[k].contains(x);
                assert(simplices@[k]@.contains(v));
            }
        }
    }
    r
}

/// For each vertex `0..on_boundary.len()`, what one relaxation step averages
/// over: no vertex for a vertex on the boundary, which stays fixed, and the
/// neighbours through the simplices for an interior vertex.
pub fn relaxation_neighbourhoods(simplices: &Vec<Vec<usize>>, on_boundary: &Vec<bool>) -> (r: Vec<Vec<usize>>)
    ensures
        r.len() == on_boundary.len(),
        forall|v: int|
            0 <= v < r.len() ==> #[trigger] r@[v]@ == relaxation_neighbourhood(
                rows_view(simplices@),
                on_boundary@,
                v,
            ),
{
    let mut r: Vec<Vec<usize>> = Vec::new();
    let mut v: usize = 0;
    while v < on_boundary.len()
        invariant
            v <= on_boundary.len(),
            r.len() == v,
            forall|x: int|
                0 <= x < v ==> #[trigger] r@[x]@ == relaxation_neighbourhood(
                    rows_view(simplices@),
                    on_boundary@,
                    x,
                ),
        decreases on_boundary.len() - v,
    {
        let nb = if on_boundary[v] {
            Vec::new()
        } else {
            vertex_neighbours(simplices, v)
        };
        assert(nb@ == relaxation_neighbourhood(rows_view(simplices@), on_boundary@, v as int));
        r.push(nb);
        v = v + 1;
    }
    r
}

} // verus!
