//! Combinatorial structure of currents: oriented simplices named by their
//! vertex labels, the boundary operator and the cancellation law ∂∘∂ = 0.
//!
//! A chain is modelled as a sequence of `(vertex labels, integer weight)`
//! entries. Two entries with the same labels denote the same oriented
//! simplex; the total weight of a simplex in a chain is its `coefficient`.
use vstd::prelude::*;

verus! {

/// `+1` for even positions, `-1` for odd ones: the sign of the face that
/// omits vertex `i`.
pub open spec fn alternating_sign(i: int) -> int {
    if i % 2 == 0 {
        1
    } else {
        -1
    }
}

/// The boundary of one weighted simplex: face `i` omits vertex `i` and carries
/// `(-1)^i` times the weight. A simplex with at most one vertex has an empty
/// boundary.
pub open spec fn simplex_boundary(vertices: Seq<usize>, weight: int) -> Seq<(Seq<usize>, int)> {
    if vertices.len() <= 1 {
        Seq::empty()
    } else {
        Seq::new(vertices.len(), |i: int| (vertices.remove(i), alternating_sign(i) * weight))
    }
}

/// The boundary of a chain: the boundaries of its entries, one after another.
pub open spec fn chain_boundary(chain: Seq<(Seq<usize>, int)>) -> Seq<(Seq<usize>, int)>
    decreases chain.len(),
{
    if chain.len() == 0 {
        Seq::empty()
    } else {
        chain_boundary(chain.drop_last()) + simplex_boundary(chain.last().0, chain.last().1)
    }
}

/// The total weight that `chain` gives to the simplex labelled `key`.
pub open spec fn coefficient(chain: Seq<(Seq<usize>, int)>, key: Seq<usize>) -> int
    decreases chain.len(),
{
    if chain.len() == 0 {
        0
    } else {
        coefficient(chain.drop_last(), key) + if chain.last().0 == key {
            chain.last().1
        } else {
            0
        }
    }
}

/// Σ_{j < m} g(i, j)
pub open spec fn row_sum(g: spec_fn(int, int) -> int, i: int, m: nat) -> int
    decreases m,
{
    if m == 0 {
        0
    } else {
        row_sum(g, i, (m - 1) as nat) + g(i, m - 1)
    }
}

/// Σ_{i < p} g(i, j)
pub open spec fn column_sum(g: spec_fn(int, int) -> int, j: int, p: nat) -> int
    decreases p,
{
    if p == 0 {
        0
    } else {
        column_sum(g, j, (p - 1) as nat) + g(p - 1, j)
    }
}

/// Σ_{i < p} Σ_{j < m} g(i, j)
pub open spec fn grid_sum(g: spec_fn(int, int) -> int, p: nat, m: nat) -> int
    decreases p,
{
    if p == 0 {
        0
    } else {
        grid_sum(g, (p - 1) as nat, m) + row_sum(g, p - 1, m)
    }
}

proof fn lemma_grid_sum_extend_column(g: spec_fn(int, int) -> int, p: nat, m: nat)
    ensures
        grid_sum(g, p, m + 1) == grid_sum(g, p, m) + column_sum(g, m as int, p),
    decreases p,
{
    if p > 0 {
        lemma_grid_sum_extend_column(g, (p - 1) as nat, m);
    }
}

proof fn lemma_column_cancels_row(g: spec_fn(int, int) -> int, n: nat, p: nat)
    requires
        n >= 1,
        p <= n,
        forall|i: int, j: int| 0 <= i <= j < n ==> #[trigger] g(i, j) == -g(j + 1, i),
    ensures
        column_sum(g, n - 1, p) == -row_sum(g, n as int, p),
    decreases p,
{
    if p > 0 {
        lemma_column_cancels_row(g, n, (p - 1) as nat);
        assert(g(p - 1, n - 1) == -g(n as int, p - 1));
    }
}

/// A grid sum over `0 <= i <= n`, `0 <= j < n` vanishes when the terms cancel
/// in the pairs `(i, j)` and `(j + 1, i)` for `i <= j`.
proof fn lemma_antisymmetric_grid_sum(g: spec_fn(int, int) -> int, n: nat)
    requires
        forall|i: int, j: int| 0 <= i <= j < n ==> #[trigger] g(i, j) == -g(j + 1, i),
    ensures
        grid_sum(g, n + 1, n) == 0,
    decreases n,
{
    if n == 0 {
        assert(grid_sum(g, 0, 0) == 0);
        assert(row_sum(g, 0, 0) == 0);
    } else {
        let m = (n - 1) as nat;
        lemma_antisymmetric_grid_sum(g, m);
        lemma_grid_sum_extend_column(g, n + 1, m);
        lemma_column_cancels_row(g, n, n);
        assert(grid_sum(g, n + 1, m) == grid_sum(g, n, m) + row_sum(g, n as int, m));
        assert(column_sum(g, m as int, n + 1) == column_sum(g, m as int, n) + g(n as int, m as int));
        assert(row_sum(g, n as int, n) == row_sum(g, n as int, m) + g(n as int, m as int));
    }
}

/// Coefficients add up over concatenation.
pub proof fn lemma_coefficient_concat(a: Seq<(Seq<usize>, int)>, b: Seq<(Seq<usize>, int)>, key: Seq<usize>)
    ensures
        coefficient(a + b, key) == coefficient(a, key) + coefficient(b, key),
    decreases b.len(),
{
    if b.len() == 0 {
        assert(a + b =~= a);
    } else {
        lemma_coefficient_concat(a, b.drop_last(), key);
        assert((a + b).drop_last() =~= a + b.drop_last());
        assert((a + b).last() == b.last());
    }
}

/// The boundary operator is additive over concatenation of chains.
pub proof fn lemma_chain_boundary_concat(a: Seq<(Seq<usize>, int)>, b: Seq<(Seq<usize>, int)>)
    ensures
        chain_boundary(a + b) == chain_boundary(a) + chain_boundary(b),
    decreases b.len(),
{
    if b.len() == 0 {
        assert(a + b =~= a);
        assert(chain_boundary(a) + chain_boundary(b) =~= chain_boundary(a));
    } else {
        lemma_chain_boundary_concat(a, b.drop_last());
        assert((a + b).drop_last() =~= a + b.drop_last());
        assert((a + b).last() == b.last());
        assert(chain_boundary(a + b) =~= chain_boundary(a) + chain_boundary(b));
    }
}

/// Σ_{j < m} [face j of `vertices` is `key`] (-1)^j weight
spec fn face_sum(vertices: Seq<usize>, weight: int, key: Seq<usize>, m: nat) -> int
    decreases m,
{
    if m == 0 {
        0
    } else {
        face_sum(vertices, weight, key, (m - 1) as nat) + if vertices.remove(m - 1) == key {
            alternating_sign(m - 1) * weight
        } else {
            0
        }
    }
}

proof fn lemma_simplex_boundary_coefficient(vertices: Seq<usize>, weight: int, key: Seq<usize>, m: nat)
    requires
        vertices.len() >= 2,
        m <= vertices.len(),
    ensures
        coefficient(simplex_boundary(vertices, weight).take(m as int), key) == face_sum(
            vertices,
            weight,
            key,
            m,
        ),
    decreases m,
{
    let sb = simplex_boundary(vertices, weight);
    if m == 0 {
        assert(sb.take(0) =~= Seq::<(Seq<usize>, int)>::empty());
    } else {
        lemma_simplex_boundary_coefficient(vertices, weight, key, (m - 1) as nat);
        assert(sb.take(m as int).drop_last() =~= sb.take(m - 1));
    }
}

/// The term of ∂∂ of `(vertices, weight)` coming from face `j` of face `i`,
/// restricted to the simplex `key`.
spec fn double_face_term(vertices: Seq<usize>, weight: int, key: Seq<usize>) -> spec_fn(int, int) -> int {
    |i: int, j: int|
        if vertices.remove(i).remove(j) == key {
            alternating_sign(i) * (alternating_sign(j) * weight)
        } else {
            0
        }
}

proof fn lemma_face_sum_is_row(vertices: Seq<usize>, weight: int, key: Seq<usize>, i: int, m: nat)
    ensures
        face_sum(vertices.remove(i), alternating_sign(i) * weight, key, m) == row_sum(
            double_face_term(vertices, weight, key),
            i,
            m,
        ),
    decreases m,
{
    if m > 0 {
        lemma_face_sum_is_row(vertices, weight, key, i, (m - 1) as nat);
        let j = m - 1;
        assert(alternating_sign(j) * (alternating_sign(i) * weight) == alternating_sign(i) * (
        alternating_sign(j) * weight)) by (nonlinear_arith);
    }
}

proof fn lemma_remove_twice_commutes(s: Seq<usize>, i: int, j: int)
    requires
        0 <= i <= j,
        j + 2 <= s.len(),
    ensures
        s.remove(i).remove(j) == s.remove(j + 1).remove(i),
{
    assert(s.remove(i).remove(j) =~= s.remove(j + 1).remove(i));
}

proof fn lemma_double_face_antisymmetric(vertices: Seq<usize>, weight: int, key: Seq<usize>)
    requires
        vertices.len() >= 2,
    ensures
        forall|i: int, j: int|
            0 <= i <= j < vertices.len() - 1 ==> #[trigger] double_face_term(vertices, weight, key)(
                i,
                j,
            ) == -double_face_term(vertices, weight, key)(j + 1, i),
{
    let g = double_face_term(vertices, weight, key);
    assert forall|i: int, j: int| 0 <= i <= j < vertices.len() - 1 implies #[trigger] g(i, j) == -g(
        j + 1,
        i,
    ) by {
        lemma_remove_twice_commutes(vertices, i, j);
        assert(alternating_sign(j + 1) == -alternating_sign(j));
        let a = alternating_sign(i);
        let b = alternating_sign(j);
        assert(a * (b * weight) == -((-b) * (a * weight))) by (nonlinear_arith);
    }
}

proof fn lemma_double_boundary_prefix(vertices: Seq<usize>, weight: int, key: Seq<usize>, p: nat)
    requires
        vertices.len() >= 3,
        p <= vertices.len(),
    ensures
        coefficient(chain_boundary(simplex_boundary(vertices, weight).take(p as int)), key)
            == grid_sum(double_face_term(vertices, weight, key), p, (vertices.len() - 1) as nat),
    decreases p,
{
    let sb = simplex_boundary(vertices, weight);
    let k = (vertices.len() - 1) as nat;
    if p == 0 {
        assert(sb.take(0) =~= Seq::<(Seq<usize>, int)>::empty());
    } else {
        lemma_double_boundary_prefix(vertices, weight, key, (p - 1) as nat);
        let i = p - 1;
        assert(sb.take(p as int).drop_last() =~= sb.take(i));
        assert(sb.take(p as int).last() == (vertices.remove(i), alternating_sign(i) * weight));
        let face = vertices.remove(i);
        let fw = alternating_sign(i) * weight;
        lemma_coefficient_concat(chain_boundary(sb.take(i)), simplex_boundary(face, fw), key);
        lemma_simplex_boundary_coefficient(face, fw, key, k);
        assert(simplex_boundary(face, fw).take(k as int) =~= simplex_boundary(face, fw));
        lemma_face_sum_is_row(vertices, weight, key, i, k);
    }
}

/// ∂∂ of a single weighted simplex gives every simplex a zero coefficient.
pub proof fn lemma_simplex_boundary_of_boundary(vertices: Seq<usize>, weight: int, key: Seq<usize>)
    ensures
        coefficient(chain_boundary(simplex_boundary(vertices, weight)), key) == 0,
{
    let sb = simplex_boundary(vertices, weight);
    if vertices.len() <= 1 {
        assert(chain_boundary(sb) == Seq::<(Seq<usize>, int)>::empty());
    } else if vertices.len() == 2 {
        assert(chain_boundary(sb.take(0)) == Seq::<(Seq<usize>, int)>::empty());
        assert(sb.take(1).drop_last() =~= sb.take(0));
        assert(simplex_boundary(sb[0].0, sb[0].1) == Seq::<(Seq<usize>, int)>::empty());
        assert(chain_boundary(sb.take(1)) =~= Seq::<(Seq<usize>, int)>::empty());
        assert(sb.take(2).drop_last() =~= sb.take(1));
        assert(simplex_boundary(sb[1].0, sb[1].1) == Seq::<(Seq<usize>, int)>::empty());
        assert(chain_boundary(sb.take(2)) =~= Seq::<(Seq<usize>, int)>::empty());
        assert(sb.take(2) =~= sb);
    } else {
        let n = (vertices.len() - 1) as nat;
        lemma_double_boundary_prefix(vertices, weight, key, vertices.len());
        assert(sb.take(vertices.len() as int) =~= sb);
        lemma_double_face_antisymmetric(vertices, weight, key);
        lemma_antisymmetric_grid_sum(double_face_term(vertices, weight, key), n);
    }
}

/// ∂∘∂ = 0: in the boundary of the boundary of any chain, every oriented
/// simplex has total weight zero, so consolidation leaves nothing behind.
pub proof fn lemma_boundary_of_boundary_vanishes(chain: Seq<(Seq<usize>, int)>, key: Seq<usize>)
    ensures
        coefficient(chain_boundary(chain_boundary(chain)), key) == 0,
    decreases chain.len(),
{
    if chain.len() > 0 {
        let rest = chain.drop_last();
        let last = chain.last();
        lemma_boundary_of_boundary_vanishes(rest, key);
        lemma_chain_boundary_concat(chain_boundary(rest), simplex_boundary(last.0, last.1));
        lemma_coefficient_concat(
            chain_boundary(chain_boundary(rest)),
            chain_boundary(simplex_boundary(last.0, last.1)),
            key,
        );
        lemma_simplex_boundary_of_boundary(last.0, last.1, key);
    }
}


/// `n!`; `0! = 1! = 1`.
pub open spec fn fact(n: nat) -> nat
    decreases n,
{
    if n <= 1 {
        1
    } else {
        n * fact((n - 1) as nat)
    }
}

proof fn lemma_fact_positive(n: nat)
    ensures
        fact(n) >= 1,
    decreases n,
{
    if n > 1 {
        lemma_fact_positive((n - 1) as nat);
        assert(n * fact((n - 1) as nat) >= 1) by (nonlinear_arith)
            requires
                n > 1,
                fact((n - 1) as nat) >= 1,
        ;
    }
}

proof fn lemma_fact_monotone(m: nat, n: nat)
    requires
        m <= n,
    ensures
        1 <= fact(m) <= fact(n),
    decreases n - m,
{
    lemma_fact_positive(m);
    if m < n {
        lemma_fact_monotone(m, (n - 1) as nat);
        if n > 1 {
            assert(fact((n - 1) as nat) <= n * fact((n - 1) as nat)) by (nonlinear_arith)
                requires
                    n > 1,
                    fact((n - 1) as nat) >= 1,
            ;
        }
    }
}

/// `n!`, the number of orderings of `n` items, used to turn a Gram
/// determinant into the volume of a simplex. Defined when `n!` fits in a
/// `usize`.
pub fn factorial(n: usize) -> (r: usize)
    requires
        fact(n as nat) <= usize::MAX,
    ensures
        r == fact(n as nat),
{
    if n <= 1 {
        return 1;
    }
    let mut acc: usize = 1;
    let mut i: usize = 1;
    while i < n
        invariant
            1 <= i <= n,
            acc == fact(i as nat),
            fact(n as nat) <= usize::MAX,
        decreases n - i,
    {
        i = i + 1;
        proof {
            lemma_fact_monotone(i as nat, n as nat);
            assert(acc * i == i * fact((i - 1) as nat)) by (nonlinear_arith)
                requires
                    acc == fact((i - 1) as nat),
            ;
        }
        acc = acc * i;
    }
    acc
}

/// `n!` when it fits in a `usize`, and none when it overflows.
pub fn checked_factorial(n: usize) -> (r: Option<usize>)
    ensures
        fact(n as nat) <= usize::MAX ==> r == Some(fact(n as nat) as usize),
        fact(n as nat) > usize::MAX ==> r is None,
{
    let mut acc: usize = 1;
    let mut i: usize = 1;
    while i < n
        invariant
            1 <= i,
            i <= n || i == 1,
            acc == fact(i as nat),
        decreases n - i,
    {
        i = i + 1;
        proof {
            lemma_fact_positive((i - 1) as nat);
            assert(acc * i == i * fact((i - 1) as nat)) by (nonlinear_arith)
                requires
                    acc == fact((i - 1) as nat),
            ;
        }
        match acc.checked_mul(i) {
            Some(next) => {
                acc = next;
            },
            None => {
                proof {
                    lemma_fact_monotone(i as nat, n as nat);
                }
                return None;
            },
        }
    }
    proof {
        if n <= 1 {
            assert(fact(n as nat) == 1);
        }
    }
    Some(acc)
}

/// Dimension `k` of a simplex with `vertex_count` vertices: one less than the
/// number of vertices, and 0 for a simplex without vertices.
pub fn simplex_dimension(vertex_count: usize) -> (k: usize)
    ensures
        k == if vertex_count == 0 {
            0
        } else {
            vertex_count - 1
        },
{
    if vertex_count == 0 {
        0
    } else {
        vertex_count - 1
    }
}

/// `s` without its element at position `k`; `s` itself when `k` is not a
/// position of `s`.
pub open spec fn drop_index<T>(s: Seq<T>, k: int) -> Seq<T> {
    if 0 <= k < s.len() {
        s.remove(k)
    } else {
        s
    }
}

/// The minor of an `n`-row matrix at `(row, col)`: row `row` is left out,
/// and each remaining row keeps its first `n` entries but the one in column
/// `col`.
pub open spec fn minor_of<T>(m: Seq<Seq<T>>, row: int, col: int) -> Seq<Seq<T>> {
    drop_index(m, row).map_values(|r: Seq<T>| drop_index(r.take(m.len() as int), col))
}

/// The rows of a matrix given as vectors, as sequences.
pub open spec fn rows_view<T>(m: Seq<Vec<T>>) -> Seq<Seq<T>> {
    m.map_values(|r: Vec<T>| r@)
}

/// The first `len` entries of `v` without the one at position `skip`.
fn prefix_without<T: Copy>(v: &Vec<T>, len: usize, skip: usize) -> (r: Vec<T>)
    requires
        len <= v.len(),
    ensures
        r@ == drop_index(v@.take(len as int), skip as int),
{
    let mut r: Vec<T> = Vec::new();
    let mut j: usize = 0;
    while j < len
        invariant
            len <= v.len(),
            j <= len,
            j <= skip ==> r@ == v@.subrange(0, j as int),
            j > skip ==> r@ == v@.subrange(0, skip as int) + v@.subrange(skip + 1, j as int),
        decreases len - j,
    {
        if j != skip {
            r.push(v[j]);
        }
        proof {
            if j + 1 <= skip {
                assert(r@ =~= v@.subrange(0, j + 1));
            } else {
                assert(r@ =~= v@.subrange(0, skip as int) + v@.subrange(skip + 1, j + 1));
            }
        }
        j = j + 1;
    }
    if skip < len {
        assert(r@ =~= v@.take(len as int).remove(skip as int));
    } else {
        assert(r@ =~= v@.take(len as int));
    }
    r
}

/// The minor of a square matrix at `(row, col)`, the matrix of the cofactor
/// expansion of a determinant: row `row` and column `col` are left out. The
/// matrix has `n` rows, and every row but `row` has at least `n` entries, of
/// which the first `n` are read.
pub fn minor_matrix<T: Copy>(matrix: &Vec<Vec<T>>, row: usize, col: usize) -> (minor: Vec<Vec<T>>)
    requires
        forall|i: int| 0 <= i < matrix.len() && i != row ==> #[trigger] matrix@[i].len() >= matrix.len(),
    ensures
        rows_view(minor@) == minor_of(rows_view(matrix@), row as int, col as int),
{
    let n = matrix.len();
    let ghost m = rows_view(matrix@);
    let mut result: Vec<Vec<T>> = Vec::new();
    let mut i: usize = 0;
    while i < n
        invariant
            n == matrix.len(),
            m == rows_view(matrix@),
            forall|x: int| 0 <= x < matrix.len() && x != row ==> #[trigger] matrix@[x].len() >= matrix.len(),
            i <= n,
            i <= row ==> rows_view(result@) == m.subrange(0, i as int).map_values(
                |r: Seq<T>| drop_index(r.take(n as int), col as int),
            ),
            i > row ==> rows_view(result@) == (m.subrange(0, row as int) + m.subrange(row + 1, i as int)).map_values(
                |r: Seq<T>| drop_index(r.take(n as int), col as int),
            ),
        decreases n - i,
    {
        let ghost prev = result@;
        if i != row {
            let row_vec = prefix_without(&matrix[i], n, col);
            assert(matrix@[i as int]@ == m[i as int]);
            assert(row_vec@ == drop_index(m[i as int].take(n as int), col as int));
            result.push(row_vec);
            assert(rows_view(result@) =~= rows_view(prev).push(row_vec@));
        }
        proof {
            let f = |r: Seq<T>| drop_index(r.take(n as int), col as int);
            if i + 1 <= row {
                assert(rows_view(result@) =~= m.subrange(0, i + 1).map_values(f));
            } else if i == row {
                assert(result@ == prev);
                assert(m.subrange(0, row as int) + m.subrange(row + 1, i + 1) =~= m.subrange(0, i as int));
                assert(rows_view(result@) =~= (m.subrange(0, row as int) + m.subrange(row + 1, i + 1)).map_values(f));
            } else {
                assert(rows_view(result@) =~= (m.subrange(0, row as int) + m.subrange(row + 1, i + 1)).map_values(f));
            }
        }
        i = i + 1;
    }
    proof {
        let f = |r: Seq<T>| drop_index(r.take(n as int), col as int);
        if row < n {
            assert(m.subrange(0, row as int) + m.subrange(row + 1, n as int) =~= m.remove(row as int));
        } else {
            assert(m.subrange(0, n as int) =~= m);
        }
        assert(rows_view(result@) =~= minor_of(m, row as int, col as int));
    }
    result
}

/// The spec-level chain that a list of labelled faces with signs stands for.
pub open spec fn faces_view(faces: Seq<(Vec<usize>, i64)>) -> Seq<(Seq<usize>, int)> {
    faces.map_values(|f: (Vec<usize>, i64)| (f.0@, f.1 as int))
}

/// The boundary of an oriented simplex given by its vertex labels: face `i`
/// omits vertex `i` and has sign `(-1)^i`. A simplex with at most one vertex
/// has no faces.
pub fn boundary_faces(vertices: &Vec<usize>) -> (faces: Vec<(Vec<usize>, i64)>)
    ensures
        faces_view(faces@) == simplex_boundary(vertices@, 1),
        vertices.len() <= 1 ==> faces.len() == 0,
        vertices.len() >= 2 ==> faces.len() == vertices.len(),
        forall|i: int|
            0 <= i < faces.len() ==> #[trigger] faces@[i].0@ == vertices@.remove(i) && faces@[i].1 == (if i % 2
                == 0 {
                1i64
            } else {
                -1i64
            }),
{
    let n = vertices.len();
    let mut faces: Vec<(Vec<usize>, i64)> = Vec::new();
    if n <= 1 {
        assert(faces_view(faces@) =~= simplex_boundary(vertices@, 1));
        return faces;
    }
    let mut i: usize = 0;
    while i < n
        invariant
            n == vertices.len(),
            n >= 2,
            i <= n,
            faces.len() == i,
            forall|m: int|
                0 <= m < i ==> #[trigger] faces@[m].0@ == vertices@.remove(m) && faces@[m].1 as int
                    == alternating_sign(m),
        decreases n - i,
    {
        let face = prefix_without(vertices, n, i);
        assert(vertices@.take(n as int) =~= vertices@);
        let sign: i64 = if i % 2 == 0 {
            1
        } else {
            -1
        };
        assert(sign as int == alternating_sign(i as int));
        let ghost prev = faces@;
        faces.push((face, sign));
        assert forall|m: int| 0 <= m < i + 1 implies #[trigger] faces@[m].0@ == vertices@.remove(m)
            && faces@[m].1 as int == alternating_sign(m) by {
            if m < i {
                assert(faces@[m] == prev[m]);
            }
        }
        i = i + 1;
    }
    assert(faces_view(faces@) =~= simplex_boundary(vertices@, 1));
    faces
}

fn same_labels(a: &Vec<usize>, b: &Vec<usize>) -> (r: bool)
    ensures
        r == (a@ == b@),
{
    if a.len() != b.len() {
        return false;
    }
    let mut i: usize = 0;
    while i < a.len()
        invariant
            a.len() == b.len(),
            i <= a.len(),
            forall|m: int| 0 <= m < i ==> a@[m] == b@[m],
        decreases a.len() - i,
    {
        if a[i] != b[i] {
            return false;
        }
        i = i + 1;
    }
    assert(a@ =~= b@);
    true
}

fn find_group(keys: &Vec<Vec<usize>>, firsts: &Vec<usize>, i: usize) -> (r: Option<usize>)
    requires
        i < keys.len(),
        forall|g: int| 0 <= g < firsts.len() ==> firsts[g] < keys.len(),
    ensures
        r matches Some(g) ==> g < firsts.len() && keys[firsts[g as int] as int]@ == keys[i as int]@,
        r is None ==> forall|g: int|
            0 <= g < firsts.len() ==> keys[firsts[g] as int]@ != keys[i as int]@,
{
    let mut g: usize = 0;
    while g < firsts.len()
        invariant
            i < keys.len(),
            forall|h: int| 0 <= h < firsts.len() ==> firsts[h] < keys.len(),
            g <= firsts.len(),
            forall|h: int| 0 <= h < g ==> keys[firsts[h] as int]@ != keys[i as int]@,
        decreases firsts.len() - g,
    {
        if same_labels(&keys[firsts[g]], &keys[i]) {
            return Some(g);
        }
        g = g + 1;
    }
    None
}

/// Groups the entries of a chain by their vertex labels, as consolidation
/// does. Returns `(firsts, group)`: `firsts[g]` is the position of the first
/// entry of group `g`, groups are numbered in order of first appearance, and
/// `group[i]` is the group of entry `i`, which is `g` exactly when entry `i`
/// has the labels of entry `firsts[g]`.
pub fn consolidation_groups(keys: &Vec<Vec<usize>>) -> (res: (Vec<usize>, Vec<usize>))
    ensures
        res.1.len() == keys.len(),
        forall|g: int| 0 <= g < res.0.len() ==> #[trigger] res.0[g] < keys.len(),
        forall|g: int, h: int| 0 <= g < h < res.0.len() ==> res.0[g] < res.0[h],
        forall|g: int| 0 <= g < res.0.len() ==> res.1[#[trigger] res.0[g] as int] == g,
        forall|i: int|
            0 <= i < keys.len() ==> #[trigger] res.1[i] < res.0.len() && res.0[res.1[i] as int]
                <= i,
        forall|i: int, g: int|
            0 <= i < keys.len() && 0 <= g < res.0.len() ==> (#[trigger] res.1[i] == g <==> keys[i]@
                == #[trigger] keys[res.0[g] as int]@),
{
    let n = keys.len();
    let mut firsts: Vec<usize> = Vec::new();
    let mut group: Vec<usize> = Vec::new();
    let mut i: usize = 0;
    while i < n
        invariant
            n == keys.len(),
            i <= n,
            group.len() == i,
            forall|g: int| 0 <= g < firsts.len() ==> #[trigger] firsts[g] < i,
            forall|g: int, h: int| 0 <= g < h < firsts.len() ==> firsts[g] < firsts[h],
            forall|g: int| 0 <= g < firsts.len() ==> group[#[trigger] firsts[g] as int] == g,
            forall|j: int|
                0 <= j < i ==> #[trigger] group[j] < firsts.len() && firsts[group[j] as int] <= j,
            forall|j: int, g: int|
                0 <= j < i && 0 <= g < firsts.len() ==> (#[trigger] group[j] == g <==> keys[j]@
                    == #[trigger] keys[firsts[g] as int]@),
        decreases n - i,
    {
        match find_group(keys, &firsts, i) {
            Some(g) => {
                proof {
                    assert forall|h: int|
                        0 <= h < firsts.len() && keys[i as int]@ == #[trigger] keys[firsts[h] as int]@ implies h == g by {
                        assert(group[firsts[h] as int] == h);
                        assert(keys[firsts[h] as int]@ == keys[firsts[g as int] as int]@);
                    }
                }
                group.push(g);
            },
            None => {
                let g = firsts.len();
                proof {
                    assert forall|j: int| 0 <= j < i implies keys[j]@ != keys[i as int]@ by {
                        assert(keys[j]@ == keys[firsts[group[j] as int] as int]@);
                    }
                }
                group.push(g);
                firsts.push(i);
            },
        }
        i = i + 1;
    }
    (firsts, group)
}


/// The segments of a polygonal path through the labels in `order`: segment
/// `i` joins `order[i]` to `order[i + 1]`. A path through fewer than two
/// labels has no segments.
pub fn path_segments(order: &Vec<usize>) -> (segments: Vec<Vec<usize>>)
    ensures
        order.len() < 2 ==> segments.len() == 0,
        order.len() >= 2 ==> segments.len() == order.len() - 1,
        forall|i: int| 0 <= i < segments.len() ==> #[trigger] segments@[i]@ == seq![order@[i], order@[i + 1]],
        order.len() >= 2 ==> segments@.map_values(|v: Vec<usize>| (v@, 1int)) == path_chain(order@),
{
    let mut segments: Vec<Vec<usize>> = Vec::new();
    if order.len() < 2 {
        return segments;
    }
    let mut i: usize = 0;
    while i + 1 < order.len()
        invariant
            order.len() >= 2,
            i + 1 <= order.len(),
            segments.len() == i,
            forall|m: int| 0 <= m < i ==> #[trigger] segments@[m]@ == seq![order@[m], order@[m + 1]],
        decreases order.len() - i,
    {
        let mut segment: Vec<usize> = Vec::new();
        segment.push(order[i]);
        segment.push(order[i + 1]);
        assert(segment@ == seq![order@[i as int], order@[i + 1]]);
        segments.push(segment);
        i = i + 1;
    }
    assert(segments@.map_values(|v: Vec<usize>| (v@, 1int)) =~= path_chain(order@));
    segments
}

/// The triangles of the fan over a closed polygon with vertices `0..n`,
/// coned off at an extra vertex labelled `n`: triangle `i` is
/// `[i, (i + 1) % n, n]`. Fewer than three polygon vertices give no
/// triangles.
pub fn fan_triangles(n: usize) -> (triangles: Vec<Vec<usize>>)
    ensures
        n < 3 ==> triangles.len() == 0,
        n >= 3 ==> triangles.len() == n,
        forall|i: int|
            0 <= i < triangles.len() ==> #[trigger] triangles@[i]@ == seq![i as usize, ((i + 1) % n as int) as usize, n],
        n >= 3 ==> triangles@.map_values(|v: Vec<usize>| (v@, 1int)) == fan_chain(n as nat),
{
    let mut triangles: Vec<Vec<usize>> = Vec::new();
    if n < 3 {
        return triangles;
    }
    let mut i: usize = 0;
    while i < n
        invariant
            n >= 3,
            i <= n,
            triangles.len() == i,
            forall|m: int|
                0 <= m < i ==> #[trigger] triangles@[m]@ == seq![m as usize, ((m + 1) % n as int) as usize, n],
        decreases n - i,
    {
        let next = if i + 1 == n {
            0
        } else {
            i + 1
        };
        let mut triangle: Vec<usize> = Vec::new();
        triangle.push(i);
        triangle.push(next);
        triangle.push(n);
        assert(next as int == (i + 1) % n as int) by (nonlinear_arith)
            requires
                i < n,
                next == if i + 1 == n { 0 } else { i + 1 },
        ;
        assert(triangle@ == seq![i, next, n]);
        triangles.push(triangle);
        i = i + 1;
    }
    assert(triangles@.map_values(|v: Vec<usize>| (v@, 1int)) =~= fan_chain(n as nat));
    triangles
}


/// The weight that a single entry contributes to the simplex `key`.
pub open spec fn entry_weight(entry: (Seq<usize>, int), key: Seq<usize>) -> int {
    if entry.0 == key {
        entry.1
    } else {
        0
    }
}

proof fn lemma_coefficient_two(e0: (Seq<usize>, int), e1: (Seq<usize>, int), key: Seq<usize>)
    ensures
        coefficient(seq![e0, e1], key) == entry_weight(e0, key) + entry_weight(e1, key),
{
    let s = seq![e0, e1];
    let s1 = seq![e0];
    assert(s.drop_last() =~= s1);
    assert(s1.drop_last() =~= Seq::<(Seq<usize>, int)>::empty());
    assert(coefficient(s1, key) == coefficient(s1.drop_last(), key) + entry_weight(e0, key));
    assert(coefficient(s, key) == coefficient(s.drop_last(), key) + entry_weight(e1, key));
}

proof fn lemma_coefficient_three(
    e0: (Seq<usize>, int),
    e1: (Seq<usize>, int),
    e2: (Seq<usize>, int),
    key: Seq<usize>,
)
    ensures
        coefficient(seq![e0, e1, e2], key) == entry_weight(e0, key) + entry_weight(e1, key)
            + entry_weight(e2, key),
{
    let s = seq![e0, e1, e2];
    assert(s.drop_last() =~= seq![e0, e1]);
    lemma_coefficient_two(e0, e1, key);
}

/// A unit segment from `a` to `b` has boundary `[b] - [a]`.
proof fn lemma_segment_boundary(a: usize, b: usize, key: Seq<usize>)
    ensures
        coefficient(simplex_boundary(seq![a, b], 1), key) == entry_weight((seq![b], 1), key)
            - entry_weight((seq![a], 1), key),
{
    let v = seq![a, b];
    assert(v.remove(0) =~= seq![b]);
    assert(v.remove(1) =~= seq![a]);
    assert(simplex_boundary(v, 1) =~= seq![(seq![b], 1int), (seq![a], -1int)]);
    lemma_coefficient_two((seq![b], 1int), (seq![a], -1int), key);
}

/// A unit triangle `[a, b, c]` has boundary `[b, c] - [a, c] + [a, b]`.
proof fn lemma_triangle_boundary(a: usize, b: usize, c: usize, key: Seq<usize>)
    ensures
        coefficient(simplex_boundary(seq![a, b, c], 1), key) == entry_weight((seq![b, c], 1), key)
            - entry_weight((seq![a, c], 1), key) + entry_weight((seq![a, b], 1), key),
{
    let v = seq![a, b, c];
    assert(v.remove(0) =~= seq![b, c]);
    assert(v.remove(1) =~= seq![a, c]);
    assert(v.remove(2) =~= seq![a, b]);
    assert(simplex_boundary(v, 1) =~= seq![(seq![b, c], 1int), (seq![a, c], -1int), (seq![a, b], 1int)]);
    lemma_coefficient_three((seq![b, c], 1int), (seq![a, c], -1int), (seq![a, b], 1int), key);
}

/// The unit 1-chain of the path through the labels of `order`, one segment
/// per consecutive pair (the chain of `path_segments`).
pub open spec fn path_chain(order: Seq<usize>) -> Seq<(Seq<usize>, int)> {
    Seq::new((order.len() - 1) as nat, |i: int| (seq![order[i], order[i + 1]], 1int))
}

proof fn lemma_path_boundary_prefix(order: Seq<usize>, key: Seq<usize>, k: nat)
    requires
        order.len() >= 2,
        k <= order.len() - 1,
    ensures
        coefficient(chain_boundary(path_chain(order).take(k as int)), key) == entry_weight((seq![order[k as int]], 1), key)
            - entry_weight((seq![order[0]], 1), key),
    decreases k,
{
    let p = path_chain(order);
    if k == 0 {
        assert(p.take(0) =~= Seq::<(Seq<usize>, int)>::empty());
    } else {
        let i = k - 1;
        lemma_path_boundary_prefix(order, key, (k - 1) as nat);
        assert(p.take(k as int).drop_last() =~= p.take(i));
        assert(p.take(k as int).last() == (seq![order[i], order[i + 1]], 1int));
        lemma_coefficient_concat(
            chain_boundary(p.take(i)),
            simplex_boundary(seq![order[i], order[i + 1]], 1),
            key,
        );
        lemma_segment_boundary(order[i], order[i + 1], key);
    }
}

/// The boundary of a path is its end point minus its starting point: all
/// inner points cancel. In particular a closed path (first label equal to the
/// last) is a cycle.
pub proof fn lemma_path_boundary(order: Seq<usize>, key: Seq<usize>)
    requires
        order.len() >= 2,
    ensures
        coefficient(chain_boundary(path_chain(order)), key) == entry_weight(
            (seq![order[order.len() - 1]], 1),
            key,
        ) - entry_weight((seq![order[0]], 1), key),
{
    lemma_path_boundary_prefix(order, key, (order.len() - 1) as nat);
    assert(path_chain(order).take(order.len() - 1) =~= path_chain(order));
}

/// The unit 1-chain of the closed polygon `0 → 1 → … → n-1 → 0`.
pub open spec fn polygon_chain(n: nat) -> Seq<(Seq<usize>, int)> {
    Seq::new(n, |i: int| (seq![i as usize, ((i + 1) % (n as int)) as usize], 1int))
}

/// The unit 2-chain of `fan_triangles(n)`: the polygon `0..n` coned off at the
/// vertex labelled `n`.
pub open spec fn fan_chain(n: nat) -> Seq<(Seq<usize>, int)> {
    Seq::new(n, |i: int| (seq![i as usize, ((i + 1) % (n as int)) as usize, n as usize], 1int))
}

spec fn spoke(n: nat, v: int, key: Seq<usize>) -> int {
    entry_weight((seq![v as usize, n as usize], 1), key)
}

proof fn lemma_fan_boundary_prefix(n: nat, key: Seq<usize>, k: nat)
    requires
        3 <= n <= usize::MAX,
        k < n,
    ensures
        coefficient(chain_boundary(fan_chain(n).take(k as int)), key) == coefficient(
            polygon_chain(n).take(k as int),
            key,
        ) + spoke(n, k as int, key) - spoke(n, 0, key),
    decreases k,
{
    let f = fan_chain(n);
    let p = polygon_chain(n);
    if k == 0 {
        assert(f.take(0) =~= Seq::<(Seq<usize>, int)>::empty());
        assert(p.take(0) =~= Seq::<(Seq<usize>, int)>::empty());
    } else {
        let i = k - 1;
        lemma_fan_boundary_prefix(n, key, (k - 1) as nat);
        vstd::arithmetic::div_mod::lemma_small_mod((i + 1) as nat, n);
        assert(f.take(k as int).drop_last() =~= f.take(i));
        assert(p.take(k as int).drop_last() =~= p.take(i));
        assert(f.take(k as int).last() == (seq![i as usize, (i + 1) as usize, n as usize], 1int));
        assert(p.take(k as int).last() == (seq![i as usize, (i + 1) as usize], 1int));
        lemma_coefficient_concat(
            chain_boundary(f.take(i)),
            simplex_boundary(seq![i as usize, (i + 1) as usize, n as usize], 1),
            key,
        );
        lemma_triangle_boundary(i as usize, (i + 1) as usize, n as usize, key);
    }
}

/// The boundary of the fan is the closed polygon it is spanned over: every
/// spoke from the apex to a polygon vertex appears once with each sign and
/// cancels.
pub proof fn lemma_fan_boundary_is_polygon(n: nat, key: Seq<usize>)
    requires
        3 <= n <= usize::MAX,
    ensures
        coefficient(chain_boundary(fan_chain(n)), key) == coefficient(polygon_chain(n), key),
{
    let f = fan_chain(n);
    let p = polygon_chain(n);
    let i = n - 1;
    lemma_fan_boundary_prefix(n, key, (n - 1) as nat);
    assert((i + 1) % (n as int) == 0);
    assert(f.take(n as int) =~= f);
    assert(p.take(n as int) =~= p);
    assert(f.take(n as int).drop_last() =~= f.take(i));
    assert(p.take(n as int).drop_last() =~= p.take(i));
    assert(f[i] == (seq![i as usize, 0usize, n as usize], 1int));
    assert(p[i] == (seq![i as usize, 0usize], 1int));
    lemma_coefficient_concat(
        chain_boundary(f.take(i)),
        simplex_boundary(seq![i as usize, 0usize, n as usize], 1),
        key,
    );
    lemma_triangle_boundary(i as usize, 0usize, n as usize, key);
}

/// The closed polygon is a cycle: its boundary gives every point weight 0.
pub proof fn lemma_polygon_is_cycle(n: nat, key: Seq<usize>)
    requires
        3 <= n <= usize::MAX,
    ensures
        coefficient(chain_boundary(polygon_chain(n)), key) == 0,
{
    let order = Seq::new(n + 1, |i: int| (i % (n as int)) as usize);
    assert(path_chain(order) =~= polygon_chain(n)) by {
        assert forall|i: int| 0 <= i < n implies #[trigger] path_chain(order)[i] == polygon_chain(n)[i] by {
            vstd::arithmetic::div_mod::lemma_small_mod(i as nat, n);
            if i + 1 < n {
                vstd::arithmetic::div_mod::lemma_small_mod((i + 1) as nat, n);
            } else {
                vstd::arithmetic::div_mod::lemma_mod_self_0(n as int);
            }
            assert(order[i] == i as usize);
        }
    }
    lemma_path_boundary(order, key);
    vstd::arithmetic::div_mod::lemma_mod_self_0(n as int);
    vstd::arithmetic::div_mod::lemma_small_mod(0, n);
    assert(order[n as int] == 0usize);
    assert(order[0] == 0usize);
}


/// The chain with the given labels and weights, entry by entry.
pub open spec fn weighted_chain(keys: Seq<Seq<usize>>, weights: Seq<int>) -> Seq<(Seq<usize>, int)> {
    Seq::new(keys.len(), |i: int| (keys[i], weights[i]))
}

/// Σ_{i < m, group[i] = g} weights[i]: the weight consolidation gathers into
/// group `g` from the first `m` entries.
pub open spec fn group_weight(weights: Seq<int>, group: Seq<usize>, g: int, m: nat) -> int
    decreases m,
{
    if m == 0 {
        0
    } else {
        group_weight(weights, group, g, (m - 1) as nat) + if group[m - 1] == g {
            weights[m - 1]
        } else {
            0
        }
    }
}

/// Consolidation keeps every simplex's total weight: summing the weights of
/// a group as `consolidation_groups` assigns them gives the coefficient of
/// the group's labels in the chain.
pub proof fn lemma_consolidation_keeps_coefficients(
    keys: Seq<Seq<usize>>,
    weights: Seq<int>,
    group: Seq<usize>,
    representative: int,
)
    requires
        weights.len() == keys.len(),
        group.len() == keys.len(),
        0 <= representative < keys.len(),
        forall|i: int|
            0 <= i < keys.len() ==> (#[trigger] group[i] == group[representative] <==> keys[i]
                == keys[representative]),
    ensures
        group_weight(weights, group, group[representative] as int, keys.len()) == coefficient(
            weighted_chain(keys, weights),
            keys[representative],
        ),
{
    lemma_group_weight_prefix(keys, weights, group, representative, keys.len());
    assert(weighted_chain(keys, weights).take(keys.len() as int) =~= weighted_chain(keys, weights));
}

proof fn lemma_group_weight_prefix(
    keys: Seq<Seq<usize>>,
    weights: Seq<int>,
    group: Seq<usize>,
    representative: int,
    m: nat,
)
    requires
        weights.len() == keys.len(),
        group.len() == keys.len(),
        0 <= representative < keys.len(),
        m <= keys.len(),
        forall|i: int|
            0 <= i < keys.len() ==> (#[trigger] group[i] == group[representative] <==> keys[i]
                == keys[representative]),
    ensures
        group_weight(weights, group, group[representative] as int, m) == coefficient(
            weighted_chain(keys, weights).take(m as int),
            keys[representative],
        ),
    decreases m,
{
    let c = weighted_chain(keys, weights);
    if m == 0 {
        assert(c.take(0) =~= Seq::<(Seq<usize>, int)>::empty());
    } else {
        lemma_group_weight_prefix(keys, weights, group, representative, (m - 1) as nat);
        assert(c.take(m as int).drop_last() =~= c.take(m - 1));
        assert(group[m - 1] == group[representative] <==> keys[m - 1] == keys[representative]);
    }
}

} // verus!
