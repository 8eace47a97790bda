//! Covering structure behind the Hausdorff measure estimates, and the
//! self-similarity of the known fractals.
//!
//! The metric part (distances of points, radii, powers of ε) is floating
//! point; what is decided here is which points become ball centers and how
//! points group into ε-clusters, given the relation "point `j` lies within ε
//! of point `i`" as a boolean matrix.
use vstd::prelude::*;

verus! {

/// Known fractal types with analytical dimensions.
#[derive(Clone, Copy, Debug, PartialEq, Eq, Structural)]
pub enum FractalType {
    CantorSet,
    SierpinskiTriangle,
    KochSnowflake,
    MengerSponge,
    PeanoCurve,
    Line,
    Plane,
    Volume,
}

/// The self-similarity of each known set: it is the union of `copies` copies
/// of itself, each scaled down by `1/scale`, so that its dimension is
/// `log(copies) / log(scale)`.
pub open spec fn similarity(fractal: FractalType) -> (u64, u64) {
    match fractal {
        FractalType::CantorSet => (2, 3),
        FractalType::SierpinskiTriangle => (3, 2),
        FractalType::KochSnowflake => (4, 3),
        FractalType::MengerSponge => (20, 3),
        FractalType::PeanoCurve => (9, 3),
        FractalType::Line => (2, 2),
        FractalType::Plane => (4, 2),
        FractalType::Volume => (8, 2),
    }
}

/// `(copies, scale)` for a known set: it is made of `copies` copies of itself
/// scaled by `1/scale`, and its similarity dimension is
/// `log(copies) / log(scale)`.
pub fn self_similarity(fractal: FractalType) -> (r: (u64, u64))
    ensures
        r == similarity(fractal),
{
    match fractal {
        FractalType::CantorSet => (2, 3),
        FractalType::SierpinskiTriangle => (3, 2),
        FractalType::KochSnowflake => (4, 3),
        FractalType::MengerSponge => (20, 3),
        FractalType::PeanoCurve => (9, 3),
        FractalType::Line => (2, 2),
        FractalType::Plane => (4, 2),
        FractalType::Volume => (8, 2),
    }
}

/// `b^e`.
pub open spec fn power(b: nat, e: nat) -> nat
    decreases e,
{
    if e == 0 {
        1
    } else {
        b * power(b, (e - 1) as nat)
    }
}

proof fn lemma_power_at_least(b: nat, e: nat)
    requires
        b >= 2,
    ensures
        power(b, e) > e,
        power(b, e) >= 1,
    decreases e,
{
    if e > 0 {
        lemma_power_at_least(b, (e - 1) as nat);
        let p = power(b, (e - 1) as nat);
        assert(b * p >= 2 * p) by (nonlinear_arith)
            requires
                b >= 2,
                p >= 1,
        ;
    }
}

/// For a base of at least 2, powers grow strictly: `b^e1 < b^e2` when
/// `e1 < e2`.
pub proof fn lemma_power_grows(b: nat, e1: nat, e2: nat)
    requires
        b >= 2,
        e1 < e2,
    ensures
        power(b, e1) < power(b, e2),
    decreases e2,
{
    if e1 + 1 < e2 {
        lemma_power_grows(b, e1, (e2 - 1) as nat);
    }
    lemma_power_at_least(b, (e2 - 1) as nat);
    let p = power(b, (e2 - 1) as nat);
    assert(b * p >= 2 * p) by (nonlinear_arith)
        requires
            b >= 2,
            p >= 1,
    ;
}

/// Every known set is a union of at least two proper copies of itself
/// (`copies >= 2`, `scale >= 2`), so its dimension `log(copies)/log(scale)`
/// is defined and positive. The line, the plane, the solid and the Peano
/// curve have the integer dimensions 1, 2, 3 and 2 (`copies == scale^d`);
/// the Cantor set, the Sierpinski triangle, the Koch curve and the Menger
/// sponge have a dimension that is not an integer (no power of `scale` is
/// `copies`).
pub proof fn lemma_similarity_well_defined(fractal: FractalType)
    ensures
        similarity(fractal).0 >= 2,
        similarity(fractal).1 >= 2,
        fractal == FractalType::Line ==> power(similarity(fractal).1 as nat, 1) == similarity(fractal).0,
        fractal == FractalType::Plane || fractal == FractalType::PeanoCurve ==> power(
            similarity(fractal).1 as nat,
            2,
        ) == similarity(fractal).0,
        fractal == FractalType::Volume ==> power(similarity(fractal).1 as nat, 3) == similarity(fractal).0,
        fractal == FractalType::CantorSet || fractal == FractalType::SierpinskiTriangle || fractal
            == FractalType::KochSnowflake || fractal == FractalType::MengerSponge ==> forall|d: nat|
            #[trigger] power(similarity(fractal).1 as nat, d) != similarity(fractal).0,
{
    reveal_with_fuel(power, 4);
    let (c, s) = similarity(fractal);
    if fractal == FractalType::CantorSet || fractal == FractalType::SierpinskiTriangle || fractal
        == FractalType::KochSnowflake || fractal == FractalType::MengerSponge {
        assert forall|d: nat| #[trigger] power(s as nat, d) != c by {
            if d > 3 {
                lemma_power_grows(s as nat, 3, d);
            }
        }
    }
}

proof fn lemma_small_base_powers(b: nat)
    requires
        b < 2,
    ensures
        forall|e: nat| #[trigger] power(b, e) == if b == 0 && e > 0 {
            0nat
        } else {
            1nat
        },
{
    assert forall|e: nat| #[trigger] power(b, e) == if b == 0 && e > 0 {
        0nat
    } else {
        1nat
    } by {
        lemma_small_base_power(b, e);
    }
}

proof fn lemma_small_base_power(b: nat, e: nat)
    requires
        b < 2,
    ensures
        power(b, e) == if b == 0 && e > 0 {
            0nat
        } else {
            1nat
        },
    decreases e,
{
    if e > 0 {
        lemma_small_base_power(b, (e - 1) as nat);
    }
}

/// The integer dimension of a self-similar set made of `copies` copies of
/// itself scaled by `1/scale`: the exponent `d` with `scale^d == copies`
/// when there is one (the smallest such, for the bases 0 and 1), and none when
/// `log(copies)/log(scale)` is not an integer.
pub fn integer_dimension(copies: u64, scale: u64) -> (d: Option<u64>)
    ensures
        match d {
            Some(e) => power(scale as nat, e as nat) == copies && forall|f: nat|
                f < e ==> #[trigger] power(scale as nat, f) != copies,
            None => forall|e: nat| #[trigger] power(scale as nat, e) != copies,
        },
{
    if scale < 2 {
        // 0^0 = 1^e = 1 and 0^e = 0 for e >= 1
        proof {
            lemma_small_base_powers(scale as nat);
        }
        if copies == 1 {
            return Some(0);
        } else if scale == 0 && copies == 0 {
            return Some(1);
        } else {
            return None;
        }
    }
    let mut p: u64 = 1;
    let mut e: u64 = 0;
    while p < copies
        invariant
            scale >= 2,
            p == power(scale as nat, e as nat),
            forall|f: nat| f < e ==> #[trigger] power(scale as nat, f) < copies,
        decreases u64::MAX - p,
    {
        proof {
            lemma_power_at_least(scale as nat, e as nat);
            assert(power(scale as nat, (e + 1) as nat) == scale * p);
        }
        if p > u64::MAX / scale {
            proof {
                assert(scale * p > u64::MAX) by (nonlinear_arith)
                    requires
                        p > u64::MAX / scale,
                        scale >= 2,
                ;
                assert forall|f: nat| #[trigger] power(scale as nat, f) != copies by {
                    if f > e + 1 {
                        lemma_power_grows(scale as nat, (e + 1) as nat, f);
                    }
                }
            }
            return None;
        }
        assert(p * scale <= u64::MAX && p * scale == scale * p && p * scale > p) by (nonlinear_arith)
            requires
                p <= u64::MAX / scale,
                scale >= 2,
                p >= 1,
        ;
        assert(e < p) by {
            lemma_power_at_least(scale as nat, e as nat);
        }
        p = p * scale;
        e = e + 1;
    }
    if p == copies {
        Some(e)
    } else {
        proof {
            assert forall|f: nat| #[trigger] power(scale as nat, f) != copies by {
                if f > e {
                    lemma_power_grows(scale as nat, e as nat, f);
                }
            }
        }
        None
    }
}

/// The relation held by a boolean matrix given row by row.
pub open spec fn bool_matrix(rows: Seq<Vec<bool>>) -> Seq<Seq<bool>> {
    rows.map_values(|r: Vec<bool>| r@)
}

/// A square matrix with `n` rows of `n` entries each.
pub open spec fn is_square(m: Seq<Seq<bool>>) -> bool {
    forall|i: int| 0 <= i < m.len() ==> #[trigger] m[i].len() == m.len()
}

/// Every point lies within ε of itself.
pub open spec fn is_reflexive(m: Seq<Seq<bool>>) -> bool {
    forall|i: int| 0 <= i < m.len() ==> #[trigger] m[i][i]
}

/// Some center in `centers` covers point `i`.
pub open spec fn covered_by(within: Seq<Seq<bool>>, centers: Seq<usize>, i: int) -> bool {
    exists|k: int| 0 <= k < centers.len() && #[trigger] within[centers[k] as int][i]
}

proof fn lemma_covered_by_push(within: Seq<Seq<bool>>, centers: Seq<usize>, p: usize, i: int)
    ensures
        covered_by(within, centers.push(p), i) == (covered_by(within, centers, i) || within[p as int][i]),
{
    let ext = centers.push(p);
    if covered_by(within, centers, i) {
        let k = choose|k: int| 0 <= k < centers.len() && #[trigger] within[centers[k] as int][i];
        assert(ext[k] == centers[k]);
    }
    if within[p as int][i] {
        assert(ext[centers.len() as int] == p);
    }
    if covered_by(within, ext, i) {
        let k = choose|k: int| 0 <= k < ext.len() && #[trigger] within[ext[k] as int][i];
        if k < centers.len() {
            assert(ext[k] == centers[k]);
        }
    }
}

/// Marks as covered every point that `row` covers.
fn mark_covered(uncovered: Vec<bool>, row: &Vec<bool>) -> (r: Vec<bool>)
    requires
        uncovered.len() == row.len(),
    ensures
        r.len() == uncovered.len(),
        forall|j: int| 0 <= j < row.len() ==> r@[j] == (uncovered@[j] && !row@[j]),
{
    let n = row.len();
    let mut r = uncovered;
    let mut q: usize = 0;
    while q < n
        invariant
            n == row.len(),
            q <= n,
            r.len() == n,
            uncovered.len() == n,
            forall|j: int| q <= j < n ==> r@[j] == uncovered@[j],
            forall|j: int| 0 <= j < q ==> r@[j] == (uncovered@[j] && !row@[j]),
        decreases n - q,
    {
        if r[q] && row[q] {
            r.set(q, false);
        }
        q = q + 1;
    }
    r
}

/// The centers that the greedy covering picks among the first `n` points:
/// scanning in index order, a point becomes a new center exactly when no
/// center chosen before covers it.
pub open spec fn greedy_centers(within: Seq<Seq<bool>>, n: nat) -> Seq<usize>
    decreases n,
{
    if n == 0 {
        Seq::empty()
    } else {
        let prev = greedy_centers(within, (n - 1) as nat);
        if covered_by(within, prev, n - 1) {
            prev
        } else {
            prev.push((n - 1) as usize)
        }
    }
}

/// Every greedy center is an earlier point index, and the centers increase.
pub proof fn lemma_greedy_centers_increasing(within: Seq<Seq<bool>>, n: nat)
    requires
        n <= usize::MAX,
    ensures
        forall|k: int| 0 <= k < greedy_centers(within, n).len() ==> #[trigger] greedy_centers(within, n)[k] < n,
        forall|k: int, l: int|
            0 <= k < l < greedy_centers(within, n).len() ==> greedy_centers(within, n)[k]
                < greedy_centers(within, n)[l],
        greedy_centers(within, n).len() <= n,
    decreases n,
{
    if n > 0 {
        lemma_greedy_centers_increasing(within, (n - 1) as nat);
    }
}

/// A nonempty point set needs at least one ball, and the first point is
/// always the first center.
pub proof fn lemma_greedy_centers_start(within: Seq<Seq<bool>>, n: nat)
    requires
        1 <= n <= usize::MAX,
    ensures
        greedy_centers(within, n).len() >= 1,
        greedy_centers(within, n)[0] == 0,
    decreases n,
{
    if n == 1 {
        assert(!covered_by(within, Seq::<usize>::empty(), 0));
    } else {
        lemma_greedy_centers_start(within, (n - 1) as nat);
    }
}

/// The greedy covering covers every point: each of the first `n` points lies
/// within ε of some chosen center.
pub proof fn lemma_greedy_centers_cover(within: Seq<Seq<bool>>, n: nat)
    requires
        n <= within.len(),
        n <= usize::MAX,
        is_reflexive(within),
    ensures
        forall|i: int| 0 <= i < n ==> covered_by(within, greedy_centers(within, n), i),
    decreases n,
{
    if n > 0 {
        let m = (n - 1) as nat;
        let prev = greedy_centers(within, m);
        lemma_greedy_centers_cover(within, m);
        if !covered_by(within, prev, m as int) {
            assert forall|i: int| 0 <= i < n implies covered_by(within, greedy_centers(within, n), i) by {
                lemma_covered_by_push(within, prev, m as usize, i);
            }
        }
    }
}

/// No greedy center lies within ε of an earlier center.
pub proof fn lemma_greedy_centers_separated(within: Seq<Seq<bool>>, n: nat)
    requires
        n <= usize::MAX,
    ensures
        forall|k: int, l: int|
            0 <= k < l < greedy_centers(within, n).len() ==> !within[greedy_centers(within, n)[k] as int][greedy_centers(within, n)[l] as int],
    decreases n,
{
    if n > 0 {
        let m = (n - 1) as nat;
        let prev = greedy_centers(within, m);
        lemma_greedy_centers_separated(within, m);
        if !covered_by(within, prev, m as int) {
            let cur = greedy_centers(within, n);
            assert forall|k: int, l: int| 0 <= k < l < cur.len() implies !within[cur[k] as int][cur[l] as int] by {
                if l == prev.len() {
                    assert(cur[k] == prev[k]);
                    if within[prev[k] as int][m as int] {
                        assert(covered_by(within, prev, m as int));
                    }
                } else {
                    assert(cur[k] == prev[k]);
                    assert(cur[l] == prev[l]);
                }
            }
        }
    }
}

proof fn lemma_greedy_centers_prefix(within: Seq<Seq<bool>>, m: nat, n: nat)
    requires
        m <= n,
        n <= usize::MAX,
    ensures
        greedy_centers(within, m).len() <= greedy_centers(within, n).len(),
        forall|k: int| 0 <= k < greedy_centers(within, m).len() ==> #[trigger] greedy_centers(within, n)[k]
            == greedy_centers(within, m)[k],
        forall|k: int|
            greedy_centers(within, m).len() <= k < greedy_centers(within, n).len() ==> #[trigger] greedy_centers(
                within,
                n,
            )[k] >= m,
    decreases n - m,
{
    if m < n {
        lemma_greedy_centers_prefix(within, m, (n - 1) as nat);
        let prev = greedy_centers(within, (n - 1) as nat);
        let cur = greedy_centers(within, n);
        assert forall|k: int| 0 <= k < prev.len() implies #[trigger] cur[k] == prev[k] by {}
        if cur.len() > prev.len() {
            assert(cur[prev.len() as int] == (n - 1) as usize);
        }
    }
}

/// The greedy rule skips a point only when a ball placed before it already
/// covers it: every point that is not a center lies within ε of a center
/// with a smaller index.
pub proof fn lemma_greedy_skips_only_covered(within: Seq<Seq<bool>>, n: nat)
    requires
        n <= usize::MAX,
    ensures
        forall|i: int|
            0 <= i < n && !#[trigger] greedy_centers(within, n).contains(i as usize) ==> exists|k: int|
                0 <= k < greedy_centers(within, n).len() && greedy_centers(within, n)[k] < i
                    && #[trigger] within[greedy_centers(within, n)[k] as int][i],
{
    let gn = greedy_centers(within, n);
    assert forall|i: int| 0 <= i < n && !#[trigger] gn.contains(i as usize) implies exists|k: int|
        0 <= k < gn.len() && gn[k] < i && #[trigger] within[gn[k] as int][i] by {
        let prev = greedy_centers(within, i as nat);
        let next = greedy_centers(within, (i + 1) as nat);
        lemma_greedy_centers_prefix(within, (i + 1) as nat, n);
        lemma_greedy_centers_increasing(within, i as nat);
        if !covered_by(within, prev, i) {
            assert(next[prev.len() as int] == i as usize);
            assert(gn[prev.len() as int] == i as usize);
            assert(gn.contains(i as usize));
        }
        let k = choose|k: int| 0 <= k < prev.len() && #[trigger] within[prev[k] as int][i];
        assert(next == prev);
        assert(gn[k] == prev[k]);
    }
}

proof fn lemma_greedy_centers_skip(within: Seq<Seq<bool>>, from: nat, to: nat)
    requires
        from <= to,
        forall|i: int| from <= i < to ==> covered_by(within, greedy_centers(within, from), i),
    ensures
        greedy_centers(within, to) == greedy_centers(within, from),
    decreases to - from,
{
    if from < to {
        lemma_greedy_centers_skip(within, from, (to - 1) as nat);
    }
}

/// The centers of the greedy ε-ball covering: repeatedly take the first point
/// that no ball covers yet as a new center and cover every point within ε of
/// it. `within[i][j]` says that point `j` lies within ε of point `i`.
///
/// The centers are increasing point indices starting with point 0 (when
/// there is a point); every point lies within ε of some center; no center
/// lies within ε of an earlier one; a point is passed over only when a
/// center with a smaller index covers it. The count is what this greedy rule
/// gives, which can exceed the smallest number of balls that cover the
/// points.
pub fn greedy_cover(within: &Vec<Vec<bool>>) -> (centers: Vec<usize>)
    requires
        is_square(bool_matrix(within@)),
        is_reflexive(bool_matrix(within@)),
    ensures
        centers@ == greedy_centers(bool_matrix(within@), within.len() as nat),
        within.len() > 0 ==> centers.len() >= 1 && centers@[0] == 0,
        forall|k: int| 0 <= k < centers.len() ==> #[trigger] centers@[k] < within.len(),
        forall|k: int, l: int| 0 <= k < l < centers.len() ==> centers@[k] < centers@[l],
        forall|i: int| 0 <= i < within.len() ==> covered_by(bool_matrix(within@), centers@, i),
        forall|k: int, l: int|
            0 <= k < l < centers.len() ==> !within@[centers@[k] as int]@[centers@[l] as int],
        forall|i: int|
            0 <= i < within.len() && !#[trigger] centers@.contains(i as usize) ==> exists|k: int|
                0 <= k < centers.len() && centers@[k] < i && #[trigger] within@[centers@[k] as int]@[i],
{
    let ghost w = bool_matrix(within@);
    let n = within.len();
    let mut uncovered: Vec<bool> = Vec::new();
    let mut i: usize = 0;
    while i < n
        invariant
            i <= n,
            uncovered.len() == i,
            forall|j: int| 0 <= j < i ==> uncovered@[j],
        decreases n - i,
    {
        uncovered.push(true);
        i = i + 1;
    }
    let mut centers: Vec<usize> = Vec::new();
    let mut start: usize = 0;
    assert(centers@ =~= greedy_centers(w, 0));
    while start < n
        invariant
            n == within.len(),
            w == bool_matrix(within@),
            is_square(w),
            is_reflexive(w),
            start <= n,
            uncovered.len() == n,
            centers@ == greedy_centers(w, start as nat),
            forall|j: int| 0 <= j < start ==> !uncovered@[j],
            forall|j: int| start <= j < n ==> (uncovered@[j] <==> !covered_by(w, centers@, j)),
        decreases n - start,
    {
        let mut p = start;
        while p < n && !uncovered[p]
            invariant
                start <= p <= n,
                uncovered.len() == n,
                forall|j: int| start <= j < p ==> !uncovered@[j],
                forall|j: int| start <= j < n ==> (uncovered@[j] <==> !covered_by(w, centers@, j)),
                centers@ == greedy_centers(w, start as nat),
            decreases n - p,
        {
            p = p + 1;
        }
        proof {
            assert forall|j: int| start <= j < p implies covered_by(w, greedy_centers(w, start as nat), j) by {
                assert(!uncovered@[j]);
            }
            lemma_greedy_centers_skip(w, start as nat, p as nat);
        }
        if p == n {
            start = n;
        } else {
            let ghost old_centers = centers@;
            centers.push(p);
            proof {
                assert(greedy_centers(w, (p + 1) as nat) == old_centers.push(p));
            }
            let row = &within[p];
            assert(row@ == w[p as int]);
            let ghost before = uncovered@;
            uncovered = mark_covered(uncovered, row);
            proof {
                assert forall|j: int| p + 1 <= j < n implies (uncovered@[j] <==> !covered_by(w, centers@, j)) by {
                    lemma_covered_by_push(w, old_centers, p, j);
                    assert(uncovered@[j] == (before[j] && !w[p as int][j]));
                    assert(before[j] <==> !covered_by(w, old_centers, j));
                }
                assert(w[p as int][p as int]);
                assert forall|j: int| 0 <= j < p + 1 implies !uncovered@[j] by {
                    assert(uncovered@[j] == (before[j] && !w[p as int][j]));
                    if j < start {
                        assert(!before[j]);
                    } else if j < p {
                        assert(!before[j]);
                    }
                }
            }
            start = p + 1;
        }
    }
    proof {
        assert(w.len() == n);
        lemma_greedy_centers_increasing(w, n as nat);
        lemma_greedy_centers_cover(w, n as nat);
        lemma_greedy_centers_separated(w, n as nat);
        if n > 0 {
            lemma_greedy_centers_start(w, n as nat);
        }
        assert forall|k: int, l: int| 0 <= k < l < centers.len() implies !within@[centers@[k] as int]@[centers@[l] as int] by {
            assert(within@[centers@[k] as int]@ == w[centers@[k] as int]);
        }
        lemma_greedy_skips_only_covered(w, n as nat);
        assert forall|i: int| 0 <= i < within.len() && !#[trigger] centers@.contains(i as usize) implies exists|k: int|
            0 <= k < centers.len() && centers@[k] < i && #[trigger] within@[centers@[k] as int]@[i] by {
            let k = choose|k: int| 0 <= k < centers.len() && centers@[k] < i && #[trigger] w[centers@[k] as int][i];
            assert(within@[centers@[k] as int]@ == w[centers@[k] as int]);
        }
    }
    centers
}

/// `within` relates points symmetrically.
pub open spec fn is_symmetric(m: Seq<Seq<bool>>) -> bool {
    forall|i: int, j: int| 0 <= i < m.len() && 0 <= j < m.len() ==> #[trigger] m[i][j] == m[j][i]
}

proof fn lemma_distinct_indices_bounded(s: Seq<usize>, n: nat)
    requires
        s.no_duplicates(),
        forall|k: int| 0 <= k < s.len() ==> #[trigger] s[k] < n,
    ensures
        s.len() <= n,
{
    let t = s.map_values(|x: usize| x as int);
    assert forall|a: int, b: int| 0 <= a < t.len() && 0 <= b < t.len() && a != b implies t[a] != t[b] by {
        assert(s[a] != s[b]);
    }
    t.unique_seq_to_set();
    vstd::set_lib::lemma_int_range(0, n as int);
    assert forall|x: int| t.to_set().contains(x) implies vstd::set_lib::set_int_range(0, n as int).contains(x) by {
        let k = choose|k: int| 0 <= k < t.len() && t[k] == x;
        assert(s[k] < n);
    }
    vstd::set_lib::lemma_len_subset(t.to_set(), vstd::set_lib::set_int_range(0, n as int));
}

/// The points `k < upto` that `row` relates to and that are not yet
/// visited, in index order.
pub open spec fn unvisited_row(row: Seq<bool>, visited: Seq<bool>, upto: int) -> Seq<usize>
    decreases upto,
{
    if upto <= 0 {
        Seq::empty()
    } else {
        unvisited_row(row, visited, upto - 1) + if row[upto - 1] && !visited[upto - 1] {
            seq![(upto - 1) as usize]
        } else {
            Seq::empty()
        }
    }
}

proof fn lemma_unvisited_row(row: Seq<bool>, visited: Seq<bool>, upto: int)
    requires
        0 <= upto <= usize::MAX + 1,
    ensures
        ({
            let f = unvisited_row(row, visited, upto);
            &&& forall|m: int| 0 <= m < f.len() ==> #[trigger] f[m] < upto && row[f[m] as int] && !visited[f[m] as int]
            &&& forall|m1: int, m2: int| 0 <= m1 < m2 < f.len() ==> f[m1] < f[m2]
            &&& forall|k: int| 0 <= k < upto && #[trigger] row[k] && !visited[k] ==> exists|m: int| 0 <= m < f.len() && f[m] == k
        }),
    decreases upto,
{
    if upto > 0 {
        lemma_unvisited_row(row, visited, upto - 1);
        let prev = unvisited_row(row, visited, upto - 1);
        let f = unvisited_row(row, visited, upto);
        assert forall|m: int| 0 <= m < prev.len() implies f[m] == prev[m] by {}
        assert forall|k: int| 0 <= k < upto && #[trigger] row[k] && !visited[k] implies exists|m: int|
            0 <= m < f.len() && f[m] == k by {
            if k < upto - 1 {
                let m = choose|m: int| 0 <= m < prev.len() && prev[m] == k;
                assert(f[m] == k);
            } else {
                assert(f[prev.len() as int] == k);
            }
        }
    }
}

/// Visits the neighbours of one point: every not yet visited point that `row`
/// relates to is marked visited and appended, in index order, to `members`.
fn visit_neighbours(row: &Vec<bool>, visited: Vec<bool>, members: Vec<usize>) -> (res: (Vec<bool>, Vec<usize>))
    requires
        visited.len() == row.len(),
    ensures
        res.0.len() == visited.len(),
        forall|k: int| 0 <= k < row.len() ==> #[trigger] res.0@[k] == (visited@[k] || row@[k]),
        res.1@ == members@ + unvisited_row(row@, visited@, row.len() as int),
        res.1.len() >= members.len(),
        forall|m: int| 0 <= m < members.len() ==> #[trigger] res.1@[m] == members@[m],
        forall|m: int|
            members.len() <= m < res.1.len() ==> #[trigger] res.1@[m] < row.len() && row@[res.1@[m] as int]
                && !visited@[res.1@[m] as int],
        forall|m1: int, m2: int| members.len() <= m1 < m2 < res.1.len() ==> res.1@[m1] < res.1@[m2],
        forall|k: int|
            0 <= k < row.len() && #[trigger] row@[k] && !visited@[k] ==> exists|m: int|
                members.len() <= m < res.1.len() && res.1@[m] == k,
{
    let n = row.len();
    let mut vis = visited;
    let mut out = members;
    let mut k: usize = 0;
    while k < n
        invariant
            n == row.len(),
            k <= n,
            vis.len() == n,
            visited.len() == n,
            forall|x: int| 0 <= x < k ==> #[trigger] vis@[x] == (visited@[x] || row@[x]),
            forall|x: int| k <= x < n ==> #[trigger] vis@[x] == visited@[x],
            out@ == members@ + unvisited_row(row@, visited@, k as int),
        decreases n - k,
    {
        if !vis[k] && row[k] {
            vis.set(k, true);
            out.push(k);
        }
        assert(out@ =~= members@ + unvisited_row(row@, visited@, k + 1));
        k = k + 1;
    }
    proof {
        let f = unvisited_row(row@, visited@, n as int);
        lemma_unvisited_row(row@, visited@, n as int);
        assert forall|m: int| members.len() <= m < out.len() implies #[trigger] out@[m] == f[m - members.len()] by {}
        assert forall|m1: int, m2: int| members.len() <= m1 < m2 < out.len() implies out@[m1] < out@[m2] by {
            assert(out@[m1] == f[m1 - members.len()]);
            assert(out@[m2] == f[m2 - members.len()]);
        }
        assert forall|k: int| 0 <= k < row.len() && #[trigger] row@[k] && !visited@[k] implies exists|m: int|
            members.len() <= m < out.len() && out@[m] == k by {
            let m = choose|m: int| 0 <= m < f.len() && f[m] == k;
            assert(out@[members.len() + m] == k);
        }
    }
    (vis, out)
}

/// Member `m` lies within ε of a member placed before it.
pub open spec fn linked_to_earlier(w: Seq<Seq<bool>>, members: Seq<usize>, m: int) -> bool {
    exists|m2: int| 0 <= m2 < m && #[trigger] w[members[m2] as int][members[m] as int]
}

/// Every member after the first lies within ε of an earlier member.
pub open spec fn chained(w: Seq<Seq<bool>>, members: Seq<usize>) -> bool {
    forall|m: int| 1 <= m < members.len() ==> #[trigger] linked_to_earlier(w, members, m)
}

proof fn lemma_connected_after_visit(w: Seq<Seq<bool>>, before: Seq<usize>, after: Seq<usize>, head: int)
    requires
        chained(w, before),
        0 <= head < before.len(),
        before.len() <= after.len(),
        forall|m: int| 0 <= m < before.len() ==> #[trigger] after[m] == before[m],
        forall|m: int| before.len() <= m < after.len() ==> #[trigger] w[before[head] as int][after[m] as int],
    ensures
        chained(w, after),
{
    assert forall|m: int| 1 <= m < after.len() implies #[trigger] linked_to_earlier(w, after, m) by {
        if m < before.len() {
            assert(before[m] == after[m]);
            assert(linked_to_earlier(w, before, m));
            let m3 = choose|m3: int| 0 <= m3 < m && #[trigger] w[before[m3] as int][before[m] as int];
            assert(after[m3] == before[m3]);
            assert(w[after[m3] as int][after[m] as int]);
        } else {
            assert(after[head] == before[head]);
            assert(w[after[head] as int][after[m] as int]);
        }
        assert(linked_to_earlier(w, after, m));
    }
}

/// The points `k < upto` within ε of point `j` that are not yet members,
/// in index order.
pub open spec fn fresh_neighbours(w: Seq<Seq<bool>>, members: Seq<usize>, j: int, upto: int) -> Seq<usize>
    decreases upto,
{
    if upto <= 0 {
        Seq::empty()
    } else {
        fresh_neighbours(w, members, j, upto - 1) + if w[j][upto - 1] && !members.contains((upto - 1) as usize) {
            seq![(upto - 1) as usize]
        } else {
            Seq::empty()
        }
    }
}

/// The depth-first search that builds a cluster, from the members found so
/// far and the stack of members still to explore: the member on top of the
/// stack is taken off, and the points within ε of it that are not members
/// yet join the members and go on the stack, in index order; the search
/// ends when the stack is empty (or after `fuel` steps).
pub open spec fn depth_first(w: Seq<Seq<bool>>, members: Seq<usize>, stack: Seq<usize>, fuel: nat) -> Seq<usize>
    decreases fuel,
{
    if fuel == 0 || stack.len() == 0 {
        members
    } else {
        let f = fresh_neighbours(w, members, stack.last() as int, w.len() as int);
        depth_first(w, members + f, stack.drop_last() + f, (fuel - 1) as nat)
    }
}

/// The members of the cluster of `root`, in the order in which the
/// depth-first search from `root` reaches them.
pub open spec fn cluster_order(w: Seq<Seq<bool>>, root: usize) -> Seq<usize> {
    depth_first(w, seq![root], seq![root], w.len() as nat)
}

proof fn lemma_fresh_is_unvisited(
    w: Seq<Seq<bool>>,
    visited: Seq<bool>,
    members: Seq<usize>,
    j: int,
    upto: int,
)
    requires
        forall|k: int| 0 <= k < upto && #[trigger] w[j][k] ==> (visited[k] <==> members.contains(k as usize)),
    ensures
        unvisited_row(w[j], visited, upto) == fresh_neighbours(w, members, j, upto),
    decreases upto,
{
    if upto > 0 {
        lemma_fresh_is_unvisited(w, visited, members, j, upto - 1);
        if w[j][upto - 1] {
            assert(visited[upto - 1] <==> members.contains((upto - 1) as usize));
        }
    }
}

/// Point `x` is a member of one of `clusters`.
pub open spec fn in_some_cluster(clusters: Seq<Vec<usize>>, x: usize) -> bool {
    exists|c: int| 0 <= c < clusters.len() && #[trigger] clusters[c]@.contains(x)
}

/// The ε-clusters of the points: the classes of the relation "joined by a
/// chain of points, each within ε of the next". `within[i][j]` says that
/// point `j` lies within ε of point `i`.
///
/// Every point lies in exactly one cluster; a cluster holds every point
/// within ε of one of its members; every member after the first lies within
/// ε of an earlier member; each cluster starts with its smallest point, and
/// clusters come in the order of their smallest points. Within a cluster the
/// members come in the order of the depth-first search from its first
/// member (`cluster_order`).
pub fn epsilon_clusters(within: &Vec<Vec<bool>>) -> (clusters: Vec<Vec<usize>>)
    requires
        is_square(bool_matrix(within@)),
        is_symmetric(bool_matrix(within@)),
    ensures
        forall|c: int, m: int|
            0 <= c < clusters.len() && 0 <= m < clusters@[c].len() ==> #[trigger] clusters@[c]@[m]
                < within.len(),
        forall|x: usize| x < within.len() ==> #[trigger] in_some_cluster(clusters@, x),
        forall|c1: int, m1: int, c2: int, m2: int|
            0 <= c1 < clusters.len() && 0 <= m1 < clusters@[c1].len() && 0 <= c2 < clusters.len() && 0 <= m2
                < clusters@[c2].len() && #[trigger] clusters@[c1]@[m1] == #[trigger] clusters@[c2]@[m2] ==> c1
                == c2 && m1 == m2,
        forall|c: int, m: int, k: usize|
            0 <= c < clusters.len() && 0 <= m < clusters@[c].len() && k < within.len() && #[trigger] within@[clusters@[c]@[m] as int]@[k as int]
                ==> clusters@[c]@.contains(k),
        forall|c: int| 0 <= c < clusters.len() ==> #[trigger] chained(bool_matrix(within@), clusters@[c]@),
        forall|c: int| 0 <= c < clusters.len() ==> #[trigger] clusters@[c].len() >= 1,
        forall|c: int, m: int|
            0 <= c < clusters.len() && 0 <= m < clusters@[c].len() ==> clusters@[c]@[0] <= #[trigger] clusters@[c]@[m],
        forall|c1: int, c2: int| 0 <= c1 < c2 < clusters.len() ==> #[trigger] clusters@[c1]@[0] < #[trigger] clusters@[c2]@[0],
        forall|c: int|
            0 <= c < clusters.len() ==> #[trigger] clusters@[c]@ == cluster_order(bool_matrix(within@), clusters@[c]@[0]),
{
    let ghost w = bool_matrix(within@);
    let n = within.len();
    let mut visited: Vec<bool> = Vec::new();
    let mut x: usize = 0;
    while x < n
        invariant
            x <= n,
            visited.len() == x,
            forall|y: int| 0 <= y < x ==> !visited@[y],
        decreases n - x,
    {
        visited.push(false);
        x = x + 1;
    }
    let ghost mut owner: Seq<int> = Seq::new(n as nat, |y: int| -1);
    let mut clusters: Vec<Vec<usize>> = Vec::new();
    let mut i: usize = 0;
    while i < n
        invariant
            n == within.len(),
            w == bool_matrix(within@),
            is_square(w),
            is_symmetric(w),
            i <= n,
            visited.len() == n,
            owner.len() == n,
            forall|y: int| 0 <= y < n ==> (#[trigger] visited@[y] <==> owner[y] >= 0),
            forall|y: int| 0 <= y < n ==> -1 <= #[trigger] owner[y] < clusters.len(),
            forall|c: int, m: int|
                0 <= c < clusters.len() && 0 <= m < clusters@[c].len() ==> #[trigger] clusters@[c]@[m] < n
                    && owner[clusters@[c]@[m] as int] == c,
            forall|y: usize| y < n && owner[y as int] >= 0 ==> #[trigger] clusters@[owner[y as int]]@.contains(y),
            forall|c: int| 0 <= c < clusters.len() ==> #[trigger] clusters@[c]@.no_duplicates(),
            forall|c: int, m: int, k: int|
                0 <= c < clusters.len() && 0 <= m < clusters@[c].len() && 0 <= k < n && #[trigger] w[clusters@[c]@[m] as int][k]
                    ==> owner[k] == c,
            forall|c: int| 0 <= c < clusters.len() ==> #[trigger] chained(w, clusters@[c]@),
            forall|c: int| 0 <= c < clusters.len() ==> #[trigger] clusters@[c].len() >= 1,
            forall|c: int, m: int|
                0 <= c < clusters.len() && 0 <= m < clusters@[c].len() ==> clusters@[c]@[0] <= #[trigger] clusters@[c]@[m],
            forall|c1: int, c2: int| 0 <= c1 < c2 < clusters.len() ==> #[trigger] clusters@[c1]@[0] < #[trigger] clusters@[c2]@[0],
            forall|c: int| 0 <= c < clusters.len() ==> #[trigger] clusters@[c]@[0] < i,
            forall|c: int| 0 <= c < clusters.len() ==> #[trigger] clusters@[c]@ == cluster_order(w, clusters@[c]@[0]),
            forall|y: int| 0 <= y < i ==> #[trigger] visited@[y],
        decreases n - i,
    {
        if !visited[i] {
            let ghost cid = clusters.len() as int;
            let mut cur: Vec<usize> = Vec::new();
            cur.push(i);
            visited.set(i, true);
            proof {
                owner = owner.update(i as int, cid);
                assert(cur@[0] == i);
                assert(cur@.contains(i));
            }
            let mut stack: Vec<usize> = Vec::new();
            stack.push(i);
            let ghost mut fuel: nat = n as nat;
            assert(w.len() == n);
            assert(cur@ == seq![i]);
            assert(stack@ == seq![i]);
            while stack.len() > 0
                invariant
                    n == within.len(),
                    w == bool_matrix(within@),
                    is_square(w),
                    is_symmetric(w),
                    i < n,
                    cid == clusters.len(),
                    visited.len() == n,
                    owner.len() == n,
                    forall|y: int| 0 <= y < n ==> (#[trigger] visited@[y] <==> owner[y] >= 0),
                    forall|y: int| 0 <= y < n ==> -1 <= #[trigger] owner[y] <= cid,
                    forall|c: int, m: int|
                        0 <= c < clusters.len() && 0 <= m < clusters@[c].len() ==> #[trigger] clusters@[c]@[m] < n
                            && owner[clusters@[c]@[m] as int] == c,
                    forall|y: usize| y < n && 0 <= owner[y as int] < cid ==> #[trigger] clusters@[owner[y as int]]@.contains(y),
                    forall|c: int, m: int, k: int|
                        0 <= c < clusters.len() && 0 <= m < clusters@[c].len() && 0 <= k < n && #[trigger] w[clusters@[c]@[m] as int][k]
                            ==> owner[k] == c,
                    forall|y: int| 0 <= y < i ==> #[trigger] visited@[y],
                    1 <= cur.len() <= n,
                    cur@[0] == i,
                    forall|m: int| 0 <= m < cur.len() ==> #[trigger] cur@[m] < n && owner[cur@[m] as int] == cid && cur@[m] >= i,
                    forall|y: usize| y < n && owner[y as int] == cid ==> #[trigger] cur@.contains(y),
                    cur@.no_duplicates(),
                    stack@.no_duplicates(),
                    forall|q: int| 0 <= q < stack.len() ==> #[trigger] cur@.contains(stack@[q]),
                    forall|m: int, k: int|
                        0 <= m < cur.len() && !stack@.contains(cur@[m]) && 0 <= k < n && #[trigger] w[cur@[m] as int][k]
                            ==> owner[k] == cid,
                    chained(w, cur@),
                    fuel == stack.len() + n - cur.len(),
                    depth_first(w, cur@, stack@, fuel) == cluster_order(w, i),
                decreases n - cur.len(), stack.len(),
            {
                let ghost old_stack = stack@;
                let j = stack.pop().unwrap();
                assert(j == old_stack.last());
                assert(stack@ =~= old_stack.drop_last());
                assert(cur@.contains(old_stack[old_stack.len() - 1]));
                let ghost head = choose|m: int| 0 <= m < cur.len() && cur@[m] == j;
                let ghost old_visited = visited@;
                let ghost old_cur = cur@;
                let ghost old_owner = owner;
                let old_len = cur.len();
                let row = &within[j];
                assert(row@ == w[j as int]);
                proof {
                    assert(owner[j as int] == cid);
                    assert forall|k: int| 0 <= k < n && #[trigger] w[j as int][k] implies (visited@[k] <==> cur@.contains(k as usize)) by {
                        if cur@.contains(k as usize) {
                            let m = choose|m: int| 0 <= m < cur.len() && cur@[m] == k as usize;
                            assert(owner[cur@[m] as int] == cid);
                        }
                        if visited@[k] && owner[k] != cid {
                            let c2 = owner[k];
                            assert(clusters@[c2]@.contains(k as usize));
                            let m2 = choose|m2: int| 0 <= m2 < clusters@[c2].len() && clusters@[c2]@[m2] == k as usize;
                            assert(w[k][j as int] == w[j as int][k]);
                            assert(w[clusters@[c2]@[m2] as int][j as int]);
                        }
                        if visited@[k] && owner[k] == cid {
                            assert(cur@.contains(k as usize));
                        }
                    }
                    lemma_fresh_is_unvisited(w, visited@, cur@, j as int, n as int);
                    assert(stack.len() + 1 <= fuel);
                    assert(old_stack.drop_last() == stack@);
                    assert(old_stack.last() == j);
                }
                let res = visit_neighbours(row, visited, cur);
                visited = res.0;
                cur = res.1;
                proof {
                    owner = Seq::new(n as nat, |y: int| if !old_visited[y] && w[j as int][y] { cid } else { old_owner[y] });
                    assert forall|m1: int, m2: int| 0 <= m1 < cur.len() && 0 <= m2 < cur.len() && m1 != m2 implies cur@[m1] != cur@[m2] by {
                        if m1 < old_cur.len() && m2 < old_cur.len() {
                            assert(old_cur.no_duplicates());
                        } else if m1 < old_cur.len() {
                            assert(old_visited[cur@[m1] as int]);
                        } else if m2 < old_cur.len() {
                            assert(old_visited[cur@[m2] as int]);
                        }
                    }
                    assert(cur@.no_duplicates());
                    lemma_distinct_indices_bounded(cur@, n as nat);
                    assert forall|k: int| 0 <= k < n && #[trigger] w[j as int][k] implies owner[k] == cid by {
                        if old_visited[k] && old_owner[k] != cid {
                            let c2 = old_owner[k];
                            assert(clusters@[c2]@.contains(k as usize));
                            let m2 = choose|m2: int| 0 <= m2 < clusters@[c2].len() && clusters@[c2]@[m2] == k as usize;
                            assert(w[k][j as int] == w[j as int][k]);
                            assert(w[clusters@[c2]@[m2] as int][j as int]);
                        }
                    }
                    assert forall|y: usize| y < n && owner[y as int] == cid implies #[trigger] cur@.contains(y) by {
                        if old_owner[y as int] == cid {
                            assert(old_cur.contains(y));
                            let m = choose|m: int| 0 <= m < old_cur.len() && old_cur[m] == y;
                            assert(cur@[m] == y);
                        } else {
                            assert(w[j as int][y as int] && !old_visited[y as int]);
                            assert(row@[y as int]);
                        }
                    }
                    lemma_connected_after_visit(w, old_cur, cur@, head);
                }
                let ghost popped = stack@;
                let mut q: usize = old_len;
                while q < cur.len()
                    invariant
                        old_len == old_cur.len(),
                        old_cur.len() <= q <= cur.len(),
                        cur.len() <= n,
                        forall|m: int| 0 <= m < old_cur.len() ==> #[trigger] cur@[m] == old_cur[m],
                        cur@.no_duplicates(),
                        popped.no_duplicates(),
                        forall|x: int| 0 <= x < popped.len() ==> #[trigger] old_cur.contains(popped[x]),
                        stack@ == popped + cur@.subrange(old_cur.len() as int, q as int),
                    decreases cur.len() - q,
                {
                    stack.push(cur[q]);
                    assert(stack@ =~= popped + cur@.subrange(old_cur.len() as int, q + 1));
                    q = q + 1;
                }
                proof {
                    let fresh = cur@.subrange(old_cur.len() as int, cur.len() as int);
                    assert forall|x: int, y: int| 0 <= x < stack.len() && 0 <= y < stack.len() && x != y implies stack@[x] != stack@[y] by {
                        if x < popped.len() && y < popped.len() {
                            assert(popped.no_duplicates());
                        } else if x >= popped.len() && y >= popped.len() {
                            assert(stack@[x] == cur@[old_cur.len() + x - popped.len()]);
                            assert(stack@[y] == cur@[old_cur.len() + y - popped.len()]);
                        } else {
                            let (a, b) = if x < popped.len() { (x, y) } else { (y, x) };
                            assert(old_cur.contains(popped[a]));
                            let m = choose|m: int| 0 <= m < old_cur.len() && old_cur[m] == popped[a];
                            assert(cur@[m] == popped[a]);
                            assert(stack@[b] == cur@[old_cur.len() + b - popped.len()]);
                        }
                    }
                    assert(stack@.no_duplicates());
                    assert forall|x: int| 0 <= x < stack.len() implies #[trigger] cur@.contains(stack@[x]) by {
                        if x < popped.len() {
                            assert(old_cur.contains(popped[x]));
                            let m = choose|m: int| 0 <= m < old_cur.len() && old_cur[m] == popped[x];
                            assert(cur@[m] == popped[x]);
                        } else {
                            assert(stack@[x] == cur@[old_cur.len() + x - popped.len()]);
                        }
                    }
                    assert forall|m: int, k: int|
                        0 <= m < cur.len() && !stack@.contains(cur@[m]) && 0 <= k < n && #[trigger] w[cur@[m] as int][k]
                            implies owner[k] == cid by {
                        if m >= old_cur.len() {
                            assert(stack@[popped.len() + m - old_cur.len()] == cur@[m]);
                        } else if cur@[m] == j {
                            assert(w[j as int][k]);
                        } else {
                            assert(cur@[m] == old_cur[m]);
                            if old_stack.contains(old_cur[m]) {
                                let x = choose|x: int| 0 <= x < old_stack.len() && old_stack[x] == old_cur[m];
                                assert(x != old_stack.len() - 1);
                                assert(stack@[x] == old_stack[x]);
                            }
                            assert(old_owner[k] == cid);
                            assert(old_visited[k]);
                        }
                    }
                    let f = fresh_neighbours(w, old_cur, j as int, n as int);
                    assert(cur@ == old_cur + f);
                    assert(cur@.subrange(old_cur.len() as int, cur.len() as int) =~= f);
                    assert(stack@ == old_stack.drop_last() + f);
                    fuel = (fuel - 1) as nat;
                }
            }
            let ghost old_clusters = clusters@;
            let ghost members = cur@;
            assert(members == cluster_order(w, i));
            clusters.push(cur);
            proof {
                assert(clusters@[cid]@ == members);
                assert forall|c: int| 0 <= c < cid implies #[trigger] clusters@[c] == old_clusters[c] by {}
                assert forall|c: int| 0 <= c < clusters.len() implies #[trigger] clusters@[c]@ == cluster_order(w, clusters@[c]@[0]) by {
                    if c < cid {
                        assert(clusters@[c] == old_clusters[c]);
                    }
                }
                assert forall|c: int| 0 <= c < clusters.len() implies #[trigger] chained(w, clusters@[c]@) by {
                    if c == cid {
                        assert(clusters@[c]@ == members);
                    } else {
                        assert(clusters@[c] == old_clusters[c]);
                    }
                }
            }
        }
        i = i + 1;
    }
    assert forall|y: usize| y < n implies #[trigger] in_some_cluster(clusters@, y) by {
        assert(visited@[y as int]);
        assert(clusters@[owner[y as int]]@.contains(y));
    }
    assert forall|c1: int, m1: int, c2: int, m2: int|
        0 <= c1 < clusters.len() && 0 <= m1 < clusters@[c1].len() && 0 <= c2 < clusters.len() && 0 <= m2
            < clusters@[c2].len() && #[trigger] clusters@[c1]@[m1] == #[trigger] clusters@[c2]@[m2] implies c1
            == c2 && m1 == m2 by {
        assert(owner[clusters@[c1]@[m1] as int] == c1);
        assert(owner[clusters@[c2]@[m2] as int] == c2);
        assert(clusters@[c1]@.no_duplicates());
    }
    assert forall|c: int, m: int, k: usize|
        0 <= c < clusters.len() && 0 <= m < clusters@[c].len() && k < within.len() && #[trigger] within@[clusters@[c]@[m] as int]@[k as int]
            implies clusters@[c]@.contains(k) by {
        assert(w[clusters@[c]@[m] as int][k as int]);
        assert(owner[k as int] == c);
        assert(visited@[k as int]);
    }
    clusters
}

} // verus!
