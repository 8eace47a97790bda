//! Index selection behind the Federer-Fleming compactness step: which members
//! of a sequence of currents form the extracted subsequence, which member is
//! taken as the flat limit, and when the sequence is Cauchy.
//!
//! Flat distances are floating point; they enter here as boolean matrices
//! over the members of the sequence: `close[i][j]` says that members `i` and
//! `j` are within the subsequence threshold of each other, `far[i][j]` that
//! they are further apart than the Cauchy tolerance.
use vstd::prelude::*;
use crate::hausdorff::{bool_matrix, is_square};

verus! {

/// The greedy chain through the first `n` members (`n >= 1`): it starts at
/// member 0, and each later member joins when it is close to the member that
/// joined last.
pub open spec fn greedy_chain(close: Seq<Seq<bool>>, n: nat) -> Seq<usize>
    decreases n,
{
    if n <= 1 {
        seq![0usize]
    } else {
        let prev = greedy_chain(close, (n - 1) as nat);
        if close[prev.last() as int][n - 1] {
            prev.push((n - 1) as usize)
        } else {
            prev
        }
    }
}

/// The members `0, 2, 4, …` below `n`.
pub open spec fn even_members(n: nat) -> Seq<usize> {
    Seq::new((n + 1) / 2, |k: int| (2 * k) as usize)
}

/// The extracted subsequence of a sequence of `n` members: all of them when
/// there is at most one; otherwise the greedy chain, unless that chain has a
/// single member, in which case every other member.
pub open spec fn extracted_subsequence(close: Seq<Seq<bool>>, n: nat) -> Seq<usize> {
    if n <= 1 {
        Seq::new(n, |i: int| i as usize)
    } else if greedy_chain(close, n).len() < 2 {
        even_members(n)
    } else {
        greedy_chain(close, n)
    }
}

proof fn lemma_greedy_chain_shape(close: Seq<Seq<bool>>, n: nat)
    requires
        1 <= n <= usize::MAX,
    ensures
        greedy_chain(close, n).len() >= 1,
        greedy_chain(close, n)[0] == 0,
        forall|k: int| 0 <= k < greedy_chain(close, n).len() ==> #[trigger] greedy_chain(close, n)[k] < n,
        forall|k: int, l: int|
            0 <= k < l < greedy_chain(close, n).len() ==> greedy_chain(close, n)[k] < greedy_chain(
                close,
                n,
            )[l],
        forall|k: int|
            0 <= k < greedy_chain(close, n).len() - 1 ==> close[greedy_chain(close, n)[k] as int][#[trigger] greedy_chain(
                close,
                n,
            )[k + 1] as int],
    decreases n,
{
    if n > 1 {
        lemma_greedy_chain_shape(close, (n - 1) as nat);
    }
}

/// The greedy chain passes over a member only when it is not close to the
/// member that joined last: between two consecutive members of the chain,
/// and after its last member, no member is close to the chain's member
/// before it.
pub proof fn lemma_greedy_chain_maximal(close: Seq<Seq<bool>>, n: nat)
    requires
        1 <= n <= usize::MAX,
    ensures
        forall|k: int, i: int|
            0 <= k < greedy_chain(close, n).len() - 1 && greedy_chain(close, n)[k] < i < greedy_chain(close, n)[k
                + 1] ==> !#[trigger] close[greedy_chain(close, n)[k] as int][i],
        forall|i: int|
            greedy_chain(close, n).last() < i < n ==> !#[trigger] close[greedy_chain(close, n).last() as int][i],
    decreases n,
{
    if n > 1 {
        lemma_greedy_chain_maximal(close, (n - 1) as nat);
        lemma_greedy_chain_shape(close, (n - 1) as nat);
        let prev = greedy_chain(close, (n - 1) as nat);
        let cur = greedy_chain(close, n);
        assert forall|k: int| 0 <= k < prev.len() implies #[trigger] cur[k] == prev[k] by {}
        if cur.len() > prev.len() {
            assert(cur[prev.len() as int] == (n - 1) as usize);
            assert forall|k: int, i: int|
                0 <= k < cur.len() - 1 && cur[k] < i < cur[k + 1] implies !#[trigger] close[cur[k] as int][i] by {
                if k < prev.len() - 1 {
                    assert(cur[k + 1] == prev[k + 1]);
                } else {
                    assert(cur[k] == prev.last());
                }
            }
        }
    }
}

/// The extracted subsequence is a subsequence in the strict sense: its
/// members are positions of the sequence, in increasing order, starting with
/// the first member; it is empty only for an empty sequence. When it is the
/// greedy chain, each of its members is close to the next one.
pub proof fn lemma_extracted_subsequence_shape(close: Seq<Seq<bool>>, n: nat)
    requires
        n <= usize::MAX,
    ensures
        (extracted_subsequence(close, n).len() == 0) == (n == 0),
        n >= 1 ==> extracted_subsequence(close, n)[0] == 0,
        forall|k: int|
            0 <= k < extracted_subsequence(close, n).len() ==> #[trigger] extracted_subsequence(close, n)[k] < n,
        forall|k: int, l: int|
            0 <= k < l < extracted_subsequence(close, n).len() ==> extracted_subsequence(close, n)[k]
                < extracted_subsequence(close, n)[l],
        n >= 2 && extracted_subsequence(close, n) == greedy_chain(close, n) ==> forall|k: int|
            0 <= k < extracted_subsequence(close, n).len() - 1 ==> close[extracted_subsequence(close, n)[k] as int][#[trigger] extracted_subsequence(
                close,
                n,
            )[k + 1] as int],
{
    if n >= 1 {
        lemma_greedy_chain_shape(close, n);
    }
    if n >= 2 && greedy_chain(close, n).len() < 2 {
        let e = even_members(n);
        assert(e.len() >= 1);
        assert forall|k: int| 0 <= k < e.len() implies #[trigger] e[k] < n by {
            assert(2 * k <= n - 1) by (nonlinear_arith)
                requires
                    0 <= k < (n + 1) / 2,
            ;
        }
    }
}

/// The positions of the extracted subsequence of a sequence of currents, as
/// the compactness theorem extracts it: with `close[i][j]` telling whether
/// members `i` and `j` lie within the flat-distance threshold, the greedy
/// chain from member 0 in which each member is close to the previous one,
/// or every other member when that chain does not reach a second member. A
/// sequence of at most one member is its own subsequence.
pub fn convergent_subsequence(close: &Vec<Vec<bool>>) -> (indices: Vec<usize>)
    requires
        is_square(bool_matrix(close@)),
    ensures
        indices@ == extracted_subsequence(bool_matrix(close@), close.len() as nat),
        close.len() <= 1 ==> indices@ == Seq::new(close.len() as nat, |i: int| i as usize),
        close.len() >= 2 && (exists|i: int| 1 <= i < close.len() && #[trigger] close@[0]@[i]) ==> {
            &&& indices.len() >= 2
            &&& indices@[0] == 0
            &&& forall|k: int| 0 <= k < indices.len() ==> #[trigger] indices@[k] < close.len()
            &&& forall|k: int, l: int| 0 <= k < l < indices.len() ==> indices@[k] < indices@[l]
            &&& forall|k: int| 0 <= k < indices.len() - 1 ==> close@[indices@[k] as int]@[#[trigger] indices@[k + 1] as int]
            &&& forall|k: int, i: int|
                0 <= k < indices.len() - 1 && indices@[k] < i < indices@[k + 1] ==> !#[trigger] close@[indices@[k] as int]@[i]
            &&& forall|i: int|
                indices@[indices.len() - 1] < i < close.len() ==> !#[trigger] close@[indices@[indices.len() - 1] as int]@[i]
        },
        close.len() >= 2 && !(exists|i: int| 1 <= i < close.len() && #[trigger] close@[0]@[i]) ==> {
            &&& indices.len() == (close.len() + 1) / 2
            &&& forall|k: int| 0 <= k < indices.len() ==> #[trigger] indices@[k] == 2 * k
        },
{
    let indices = extract_indices(close);
    proof {
        let c = bool_matrix(close@);
        let n = close.len() as nat;
        assert forall|a: int| 0 <= a < close.len() implies #[trigger] close@[a]@ == c[a] by {}
        if n >= 2 {
            lemma_greedy_chain_shape(c, n);
            lemma_greedy_chain_maximal(c, n);
            let ch = greedy_chain(c, n);
            if exists|i: int| 1 <= i < close.len() && #[trigger] close@[0]@[i] {
                let i = choose|i: int| 1 <= i < close.len() && #[trigger] close@[0]@[i];
                if ch.len() < 2 {
                    assert(ch.last() == ch[0]);
                    assert(close@[0]@ == c[0]);
                    assert(c[0][i]);
                    assert(false);
                }
            } else {
                if ch.len() >= 2 {
                    let k = 0int;
                    assert(c[ch[k] as int][ch[k + 1] as int]);
                    assert(c[0][ch[1] as int]);
                    assert(close@[0]@[ch[1] as int]);
                    assert(false);
                }
            }
        }
    }
    indices
}

fn extract_indices(close: &Vec<Vec<bool>>) -> (indices: Vec<usize>)
    requires
        is_square(bool_matrix(close@)),
    ensures
        indices@ == extracted_subsequence(bool_matrix(close@), close.len() as nat),
{
    let ghost c = bool_matrix(close@);
    let n = close.len();
    let mut indices: Vec<usize> = Vec::new();
    if n <= 1 {
        if n == 1 {
            indices.push(0);
        }
        assert(indices@ =~= Seq::new(n as nat, |i: int| i as usize));
        return indices;
    }
    indices.push(0);
    let mut last: usize = 0;
    let mut i: usize = 1;
    while i < n
        invariant
            n == close.len(),
            c == bool_matrix(close@),
            is_square(c),
            2 <= n,
            1 <= i <= n,
            indices@ == greedy_chain(c, i as nat),
            indices.len() >= 1,
            last == indices@.last(),
            last < i,
        decreases n - i,
    {
        proof {
            lemma_greedy_chain_shape(c, i as nat);
        }
        assert(close@[last as int]@ == c[last as int]);
        if close[last][i] {
            indices.push(i);
            last = i;
        }
        assert(indices@ =~= greedy_chain(c, (i + 1) as nat));
        i = i + 1;
    }
    if indices.len() < 2 {
        let mut evens: Vec<usize> = Vec::new();
        let count = n / 2 + n % 2;
        assert(count == (n + 1) / 2);
        let mut m: usize = 0;
        while m < count
            invariant
                n >= 2,
                count == (n + 1) / 2,
                m <= count,
                evens.len() == m,
                forall|x: int| 0 <= x < evens.len() ==> #[trigger] evens@[x] == 2 * x,
            decreases count - m,
        {
            assert(2 * m < n) by (nonlinear_arith)
                requires
                    m < count,
                    count == (n + 1) / 2,
            ;
            evens.push(2 * m);
            m = m + 1;
        }
        assert(evens.len() == (n + 1) / 2);
        assert(evens@ =~= even_members(n as nat));
        return evens;
    }
    indices
}

/// The position of the member taken as the flat limit of a sequence of
/// `close.len()` currents: none for an empty sequence, the last member when
/// the sequence is Cauchy (`cauchy`), and otherwise the last member of the
/// extracted subsequence.
pub fn flat_limit_index(close: &Vec<Vec<bool>>, cauchy: bool) -> (limit: Option<usize>)
    requires
        is_square(bool_matrix(close@)),
    ensures
        close.len() == 0 ==> limit is None,
        close.len() > 0 && cauchy ==> limit == Some((close.len() - 1) as usize),
        close.len() > 0 && !cauchy ==> limit == Some(
            extracted_subsequence(bool_matrix(close@), close.len() as nat).last(),
        ),
{
    let n = close.len();
    if n == 0 {
        return None;
    }
    if cauchy {
        return Some(n - 1);
    }
    let indices = convergent_subsequence(close);
    proof {
        lemma_extracted_subsequence_shape(bool_matrix(close@), n as nat);
    }
    Some(indices[indices.len() - 1])
}

/// No two members `i < j` of the first `n` are far apart.
pub open spec fn no_far_pair(far: Seq<Seq<bool>>, n: nat) -> bool {
    forall|i: int, j: int| 0 <= i < j < n ==> !#[trigger] far[i][j]
}

/// The Cauchy test looks at every pair: a sequence with two members `i < j`
/// that are far apart is not Cauchy, and one without such a pair is.
pub proof fn lemma_cauchy_checks_every_pair(far: Seq<Seq<bool>>, n: nat, i: int, j: int)
    requires
        0 <= i < j < n,
    ensures
        far[i][j] ==> !no_far_pair(far, n),
        no_far_pair(far, n) <==> forall|a: int, b: int| 0 <= a < b < n ==> !#[trigger] far[a][b],
{
}

/// Every prefix of a Cauchy sequence is Cauchy: dropping members from the
/// end never adds a far pair.
pub proof fn lemma_cauchy_prefix(far: Seq<Seq<bool>>, n: nat, m: nat)
    requires
        m <= n,
        no_far_pair(far, n),
    ensures
        no_far_pair(far, m),
{
}

/// Whether a sequence is Cauchy in the flat norm: with `far[i][j]` telling
/// whether members `i` and `j` are further apart than the tolerance, no two
/// members `i < j` are.
pub fn is_cauchy(far: &Vec<Vec<bool>>) -> (cauchy: bool)
    requires
        is_square(bool_matrix(far@)),
    ensures
        cauchy == no_far_pair(bool_matrix(far@), far.len() as nat),
        cauchy == forall|i: int, j: int| 0 <= i < j < far.len() ==> !#[trigger] far@[i]@[j],
{
    let ghost f = bool_matrix(far@);
    let n = far.len();
    let mut i: usize = 0;
    while i < n
        invariant
            n == far.len(),
            f == bool_matrix(far@),
            is_square(f),
            i <= n,
            forall|a: int, b: int| 0 <= a < i && a < b < n ==> !#[trigger] f[a][b],
        decreases n - i,
    {
        let mut j: usize = i + 1;
        assert(far@[i as int]@ == f[i as int]);
        while j < n
            invariant
                n == far.len(),
                f == bool_matrix(far@),
                is_square(f),
                i < n,
                far@[i as int]@ == f[i as int],
                i + 1 <= j <= n,
                forall|a: int, b: int| 0 <= a < i && a < b < n ==> !#[trigger] f[a][b],
                forall|b: int| i < b < j ==> !#[trigger] f[i as int][b],
            decreases n - j,
        {
            if far[i][j] {
                assert(f[i as int][j as int]);
                assert(far@[i as int]@[j as int]);
                return false;
            }
            j = j + 1;
        }
        i = i + 1;
    }
    assert forall|a: int, b: int| 0 <= a < b < far.len() implies !#[trigger] far@[a]@[b] by {
        assert(far@[a]@ == f[a]);
        assert(!f[a][b]);
    }
    true
}

} // verus!
