//! Discrete cuts behind the Cheeger constant and the isoperimetric profile of
//! a point cloud.
//!
//! A cut splits the points, listed in the order of one coordinate, into the
//! first `split` of them and the rest; its size counts the pairs across the
//! cut whose points are close. Coordinates and distances are floating point;
//! they enter here as the orders (one permutation of the point indices per
//! coordinate) and as the boolean matrix `close[i][j]`.
use vstd::prelude::*;
use crate::currents::rows_view;
use crate::hausdorff::{bool_matrix, is_square};

verus! {

/// The number of positions `b` in `lo..hi` whose point is close to the
/// point at position `a` of `order`.
pub open spec fn close_after(close: Seq<Seq<bool>>, order: Seq<usize>, a: int, lo: int, hi: int) -> nat
    decreases hi - lo,
{
    if hi <= lo {
        0
    } else {
        close_after(close, order, a, lo, hi - 1) + if close[order[a] as int][order[hi - 1] as int] {
            1nat
        } else {
            0nat
        }
    }
}

/// The pairs `(a, b)` with `a < upto`, `split <= b < order.len()` and their
/// points close.
pub open spec fn cut_pairs(close: Seq<Seq<bool>>, order: Seq<usize>, split: int, upto: int) -> nat
    decreases upto,
{
    if upto <= 0 {
        0
    } else {
        cut_pairs(close, order, split, upto - 1) + close_after(close, order, upto - 1, split, order.len() as int)
    }
}

/// The size of the cut of `order` at `split`: the close pairs with one point
/// among the first `split` and the other among the rest.
pub open spec fn cut_size(close: Seq<Seq<bool>>, order: Seq<usize>, split: int) -> nat {
    cut_pairs(close, order, split, split)
}

/// Each order lists `n` point indices.
pub open spec fn valid_orders(orders: Seq<Seq<usize>>, n: nat) -> bool {
    &&& forall|d: int| 0 <= d < orders.len() ==> #[trigger] orders[d].len() == n
    &&& forall|d: int, a: int| 0 <= d < orders.len() && 0 <= a < orders[d].len() ==> #[trigger] orders[d][a] < n
}

proof fn lemma_close_after_bound(close: Seq<Seq<bool>>, order: Seq<usize>, a: int, lo: int, hi: int)
    ensures
        close_after(close, order, a, lo, hi) <= if hi <= lo {
            0
        } else {
            hi - lo
        },
    decreases hi - lo,
{
    if hi > lo {
        lemma_close_after_bound(close, order, a, lo, hi - 1);
    }
}

proof fn lemma_cut_pairs_bound(close: Seq<Seq<bool>>, order: Seq<usize>, split: int, upto: int)
    requires
        0 <= split <= order.len(),
        0 <= upto,
    ensures
        cut_pairs(close, order, split, upto) <= upto * (order.len() - split),
    decreases upto,
{
    if upto > 0 {
        lemma_cut_pairs_bound(close, order, split, upto - 1);
        lemma_close_after_bound(close, order, upto - 1, split, order.len() as int);
        assert((upto - 1) * (order.len() - split) + (order.len() - split) == upto * (order.len() - split))
            by (nonlinear_arith);
    }
}

/// The pairs of positions `(a, b)` with `a` in `0..upto` and `b` in
/// `lo..hi` whose points are close.
pub open spec fn close_pairs_between(
    close: Seq<Seq<bool>>,
    order: Seq<usize>,
    upto: int,
    lo: int,
    hi: int,
) -> Set<(int, int)> {
    Set::new(
        |p: (int, int)|
            0 <= p.0 < upto && lo <= p.1 < hi && close[order[p.0] as int][order[p.1] as int],
    )
}

proof fn lemma_close_after_counts(close: Seq<Seq<bool>>, order: Seq<usize>, a: int, lo: int, hi: int)
    ensures
        ({
            let row = Set::new(
                |p: (int, int)| p.0 == a && lo <= p.1 < hi && close[order[p.0] as int][order[p.1] as int],
            );
            &&& row.finite()
            &&& close_after(close, order, a, lo, hi) == row.len()
        }),
    decreases hi - lo,
{
    let row = Set::new(
        |p: (int, int)| p.0 == a && lo <= p.1 < hi && close[order[p.0] as int][order[p.1] as int],
    );
    if hi <= lo {
        assert(row =~= Set::<(int, int)>::empty());
    } else {
        lemma_close_after_counts(close, order, a, lo, hi - 1);
        let prev = Set::new(
            |p: (int, int)| p.0 == a && lo <= p.1 < hi - 1 && close[order[p.0] as int][order[p.1] as int],
        );
        assert(!prev.contains((a, hi - 1)));
        if close[order[a] as int][order[hi - 1] as int] {
            assert(row =~= prev.insert((a, hi - 1)));
        } else {
            assert(row =~= prev);
        }
    }
}

/// The cut size counts the close pairs across the cut: the number of pairs
/// of positions `(a, b)` with `a < split <= b < order.len()` whose points
/// are close.
pub proof fn lemma_cut_size_counts_pairs(close: Seq<Seq<bool>>, order: Seq<usize>, split: int, upto: int)
    requires
        0 <= upto,
    ensures
        close_pairs_between(close, order, upto, split, order.len() as int).finite(),
        cut_pairs(close, order, split, upto) == close_pairs_between(close, order, upto, split, order.len() as int).len(),
    decreases upto,
{
    let len = order.len() as int;
    let cur = close_pairs_between(close, order, upto, split, len);
    if upto == 0 {
        assert(cur =~= Set::<(int, int)>::empty());
    } else {
        lemma_cut_size_counts_pairs(close, order, split, upto - 1);
        lemma_close_after_counts(close, order, upto - 1, split, len);
        let prev = close_pairs_between(close, order, upto - 1, split, len);
        let row = Set::new(
            |p: (int, int)| p.0 == upto - 1 && split <= p.1 < len && close[order[p.0] as int][order[p.1] as int],
        );
        assert(cur =~= prev + row);
        assert(prev.disjoint(row));
        vstd::set_lib::lemma_set_disjoint_lens(prev, row);
    }
}

/// The size of the cut of `order` at `split`: how many pairs of a point among
/// the first `split` of `order` and a point among the rest are close.
pub fn cut_count(close: &Vec<Vec<bool>>, order: &Vec<usize>, split: usize) -> (count: usize)
    requires
        is_square(bool_matrix(close@)),
        split <= order.len(),
        forall|a: int| 0 <= a < order.len() ==> #[trigger] order@[a] < close.len(),
        order.len() * order.len() <= usize::MAX,
    ensures
        count == cut_size(bool_matrix(close@), order@, split as int),
        count == Set::new(
            |p: (int, int)|
                0 <= p.0 < split && split <= p.1 < order.len() && close@[order@[p.0] as int]@[order@[p.1] as int],
        ).len(),
{
    let ghost c = bool_matrix(close@);
    let n = order.len();
    let mut count: usize = 0;
    let mut a: usize = 0;
    while a < split
        invariant
            c == bool_matrix(close@),
            is_square(c),
            n == order.len(),
            split <= n,
            n * n <= usize::MAX,
            forall|x: int| 0 <= x < order.len() ==> #[trigger] order@[x] < close.len(),
            a <= split,
            count == cut_pairs(c, order@, split as int, a as int),
        decreases split - a,
    {
        let row = &close[order[a]];
        assert(row@ == c[order@[a as int] as int]);
        let mut inner: usize = 0;
        let mut b: usize = split;
        proof {
            lemma_cut_pairs_bound(c, order@, split as int, a as int);
            assert(a * (n - split) <= n * n) by (nonlinear_arith)
                requires
                    a <= n,
                    split <= n,
            ;
        }
        while b < n
            invariant
                c == bool_matrix(close@),
                is_square(c),
                n == order.len(),
                split <= b <= n,
                a < split,
                row@ == c[order@[a as int] as int],
                forall|x: int| 0 <= x < order.len() ==> #[trigger] order@[x] < close.len(),
                inner == close_after(c, order@, a as int, split as int, b as int),
                inner <= b - split,
            decreases n - b,
        {
            if row[order[b]] {
                inner = inner + 1;
            }
            b = b + 1;
        }
        proof {
            lemma_cut_pairs_bound(c, order@, split as int, a + 1);
            assert((a + 1) * (n - split) <= n * n) by (nonlinear_arith)
                requires
                    a < split,
                    split <= n,
            ;
        }
        count = count + inner;
        a = a + 1;
    }
    proof {
        lemma_cut_size_counts_pairs(c, order@, split as int, split as int);
        assert forall|x: int| 0 <= x < close.len() implies #[trigger] close@[x]@ == c[x] by {}
        assert(close_pairs_between(c, order@, split as int, split as int, order.len() as int) =~= Set::new(
            |p: (int, int)|
                0 <= p.0 < split && split <= p.1 < order.len() && close@[order@[p.0] as int]@[order@[p.1] as int],
        ));
    }
    count
}

/// The candidate cuts of one order, at `split = 1, …, n - 1`: the cut size
/// and the size of the smaller side.
pub open spec fn order_candidates(close: Seq<Seq<bool>>, order: Seq<usize>, n: nat) -> Seq<(nat, nat)> {
    Seq::new(
        if n >= 1 {
            (n - 1) as nat
        } else {
            0
        },
        |s: int|
            (
                cut_size(close, order, s + 1),
                if s + 1 <= n - (s + 1) {
                    (s + 1) as nat
                } else {
                    (n - (s + 1)) as nat
                },
            ),
    )
}

/// The candidate cuts of all orders, order after order.
pub open spec fn all_candidates(close: Seq<Seq<bool>>, orders: Seq<Seq<usize>>, n: nat) -> Seq<(nat, nat)>
    decreases orders.len(),
{
    if orders.len() == 0 {
        Seq::empty()
    } else {
        all_candidates(close, orders.drop_last(), n) + order_candidates(close, orders.last(), n)
    }
}

/// One step of the search for the smallest ratio `cut / side`: a candidate
/// with a nonempty cut replaces the best so far when its ratio is strictly
/// smaller.
pub open spec fn ratio_step(best: Option<(nat, nat)>, cand: (nat, nat)) -> Option<(nat, nat)> {
    if cand.0 == 0 {
        best
    } else {
        match best {
            None => Some(cand),
            Some(b) => if cand.0 * b.1 < b.0 * cand.1 {
                Some(cand)
            } else {
                best
            },
        }
    }
}

/// The search for the smallest ratio over `cands`, from `best`.
pub open spec fn ratio_search(best: Option<(nat, nat)>, cands: Seq<(nat, nat)>) -> Option<(nat, nat)>
    decreases cands.len(),
{
    if cands.len() == 0 {
        best
    } else {
        ratio_step(ratio_search(best, cands.drop_last()), cands.last())
    }
}

proof fn lemma_ratio_search_concat(best: Option<(nat, nat)>, a: Seq<(nat, nat)>, b: Seq<(nat, nat)>)
    ensures
        ratio_search(best, a + b) == ratio_search(ratio_search(best, a), b),
    decreases b.len(),
{
    if b.len() == 0 {
        assert(a + b =~= a);
    } else {
        lemma_ratio_search_concat(best, a, b.drop_last());
        assert((a + b).drop_last() =~= a + b.drop_last());
        assert((a + b).last() == b.last());
    }
}

/// The sparsest cut: the search for the smallest ratio `cut / side` over
/// the candidate cuts ends with a candidate of nonempty cut whose ratio is
/// at most that of every candidate with a nonempty cut, and ends with none
/// exactly when every candidate cut is empty.
pub proof fn lemma_ratio_search_minimal(cands: Seq<(nat, nat)>)
    requires
        forall|k: int| 0 <= k < cands.len() ==> #[trigger] cands[k].1 > 0,
    ensures
        ratio_search(None, cands) is None <==> forall|k: int| 0 <= k < cands.len() ==> #[trigger] cands[k].0 == 0,
        ratio_search(None, cands) matches Some(b) ==> {
            &&& b.0 > 0
            &&& b.1 > 0
            &&& cands.contains(b)
            &&& forall|k: int|
                0 <= k < cands.len() && #[trigger] cands[k].0 > 0 ==> b.0 * cands[k].1 <= cands[k].0 * b.1
        },
    decreases cands.len(),
{
    if cands.len() > 0 {
        let rest = cands.drop_last();
        let c = cands.last();
        lemma_ratio_search_minimal(rest);
        let prev = ratio_search(None, rest);
        assert forall|k: int| 0 <= k < rest.len() implies #[trigger] rest[k] == cands[k] by {}
        match prev {
            None => {
                if c.0 > 0 {
                    assert(cands[cands.len() - 1] == c);
                    assert forall|k: int| 0 <= k < cands.len() && #[trigger] cands[k].0 > 0 implies c.0
                        * cands[k].1 <= cands[k].0 * c.1 by {
                        if k < rest.len() {
                            assert(rest[k].0 == 0);
                        }
                    }
                } else {
                    assert forall|k: int| 0 <= k < cands.len() implies #[trigger] cands[k].0 == 0 by {
                        if k < rest.len() {
                            assert(rest[k].0 == 0);
                        }
                    }
                }
            },
            Some(b) => {
                assert(rest.contains(b));
                let j = choose|j: int| 0 <= j < rest.len() && rest[j] == b;
                assert(cands[j] == b);
                assert(!(forall|k: int| 0 <= k < cands.len() ==> #[trigger] cands[k].0 == 0));
                if c.0 > 0 && c.0 * b.1 < b.0 * c.1 {
                    assert(cands[cands.len() - 1] == c);
                    assert forall|k: int| 0 <= k < cands.len() && #[trigger] cands[k].0 > 0 implies c.0
                        * cands[k].1 <= cands[k].0 * c.1 by {
                        if k < rest.len() {
                            let x = cands[k];
                            assert(rest[k] == x);
                            assert(rest[k].0 > 0);
                            assert(b.0 * x.1 <= x.0 * b.1);
                            assert(c.0 * x.1 <= x.0 * c.1) by (nonlinear_arith)
                                requires
                                    b.0 * x.1 <= x.0 * b.1,
                                    c.0 * b.1 < b.0 * c.1,
                                    b.1 > 0,
                                    x.1 > 0,
                            ;
                        }
                    }
                } else {
                    assert forall|k: int| 0 <= k < cands.len() && #[trigger] cands[k].0 > 0 implies b.0
                        * cands[k].1 <= cands[k].0 * b.1 by {
                        if k == cands.len() - 1 {
                            assert(cands[k] == c);
                        } else {
                            assert(rest[k] == cands[k]);
                            assert(rest[k].0 > 0);
                        }
                    }
                }
            },
        }
    }
}

/// `x` is the candidate of some split `s` in `1..n` of some order: its cut
/// size at `s` and the size of the smaller side.
pub open spec fn split_candidate(close: Seq<Seq<bool>>, orders: Seq<Seq<usize>>, n: nat, x: (nat, nat)) -> bool {
    exists|d: int, s: int|
        0 <= d < orders.len() && 1 <= s < n && x == (
            #[trigger] cut_size(close, orders[d], s),
            if s <= n - s {
                s as nat
            } else {
                (n - s) as nat
            },
        )
}

/// The candidate cuts are exactly the splits `1..n` of each order: every
/// split `s` of every order gives the candidate (cut size at `s`, size of
/// the smaller side), and every candidate comes from such a split.
pub proof fn lemma_candidates_are_splits(close: Seq<Seq<bool>>, orders: Seq<Seq<usize>>, n: nat)
    ensures
        forall|d: int, s: int|
            0 <= d < orders.len() && 1 <= s < n ==> all_candidates(close, orders, n).contains(
                (
                    #[trigger] cut_size(close, orders[d], s),
                    if s <= n - s {
                        s as nat
                    } else {
                        (n - s) as nat
                    },
                ),
            ),
        forall|k: int|
            0 <= k < all_candidates(close, orders, n).len() ==> #[trigger] split_candidate(
                close,
                orders,
                n,
                all_candidates(close, orders, n)[k],
            ),
    decreases orders.len(),
{
    if orders.len() > 0 {
        let rest = orders.drop_last();
        let last = orders.len() - 1;
        lemma_candidates_are_splits(close, rest, n);
        let a = all_candidates(close, rest, n);
        let b = order_candidates(close, orders.last(), n);
        let all = all_candidates(close, orders, n);
        assert(all == a + b);
        assert(orders[last] == orders.last());
        assert forall|d: int| 0 <= d < rest.len() implies #[trigger] rest[d] == orders[d] by {}
        assert forall|d: int, s: int| 0 <= d < orders.len() && 1 <= s < n implies all.contains(
            (
                #[trigger] cut_size(close, orders[d], s),
                if s <= n - s {
                    s as nat
                } else {
                    (n - s) as nat
                },
            ),
        ) by {
            let x = (
                cut_size(close, orders[d], s),
                if s <= n - s {
                    s as nat
                } else {
                    (n - s) as nat
                },
            );
            if d < rest.len() {
                assert(rest[d] == orders[d]);
                assert(cut_size(close, rest[d], s) == x.0);
                assert(a.contains(x));
                let i = choose|i: int| 0 <= i < a.len() && a[i] == x;
                assert(all[i] == x);
            } else {
                assert(b[s - 1] == x);
                assert(all[a.len() + s - 1] == x);
            }
        }
        assert forall|k: int| 0 <= k < all.len() implies #[trigger] split_candidate(close, orders, n, all[k]) by {
            if k < a.len() {
                assert(all[k] == a[k]);
                assert(split_candidate(close, rest, n, a[k]));
                let (d, s) = choose|d: int, s: int|
                    0 <= d < rest.len() && 1 <= s < n && a[k] == (
                        #[trigger] cut_size(close, rest[d], s),
                        if s <= n - s {
                            s as nat
                        } else {
                            (n - s) as nat
                        },
                    );
                assert(rest[d] == orders[d]);
                assert(all[k] == (
                    cut_size(close, orders[d], s),
                    if s <= n - s {
                        s as nat
                    } else {
                        (n - s) as nat
                    },
                ));
            } else {
                let s = k - a.len() + 1;
                assert(all[k] == b[k - a.len()]);
                assert(all[k] == (
                    cut_size(close, orders[last], s),
                    if s <= n - s {
                        s as nat
                    } else {
                        (n - s) as nat
                    },
                ));
            }
        }
    }
}

/// An optional pair of counts, as mathematical integers.
pub open spec fn pair_view(p: Option<(usize, usize)>) -> Option<(nat, nat)> {
    match p {
        None => None,
        Some(b) => Some((b.0 as nat, b.1 as nat)),
    }
}

/// The sparsest cut over all orders and splits, as the Cheeger estimate
/// searches it: for each order in turn and each `split` in `1..n` (with `n`
/// points), the cut size and the size of the smaller side; the result is the
/// first candidate with a nonempty cut whose ratio `cut / side` is smaller
/// than that of every candidate before it, or none when every cut is empty.
/// The result is thus a sparsest cut: a nonempty candidate whose ratio is at
/// most that of every nonempty candidate. Its ratio is the Cheeger estimate
/// of the point cloud.
pub fn sparsest_cut(close: &Vec<Vec<bool>>, orders: &Vec<Vec<usize>>) -> (best: Option<(usize, usize)>)
    requires
        is_square(bool_matrix(close@)),
        valid_orders(rows_view(orders@), close.len() as nat),
        close.len() * close.len() <= usize::MAX,
    ensures
        pair_view(best) == ratio_search(None, all_candidates(bool_matrix(close@), rows_view(orders@), close.len() as nat)),
        ({
            let cands = all_candidates(bool_matrix(close@), rows_view(orders@), close.len() as nat);
            &&& best is None <==> forall|k: int| 0 <= k < cands.len() ==> #[trigger] cands[k].0 == 0
            &&& best matches Some(b) ==> {
                &&& b.0 > 0
                &&& cands.contains((b.0 as nat, b.1 as nat))
                &&& forall|k: int|
                    0 <= k < cands.len() && #[trigger] cands[k].0 > 0 ==> b.0 * cands[k].1 <= cands[k].0 * b.1
            }
        }),
        best is None <==> forall|d: int, s: int|
            0 <= d < orders.len() && 1 <= s < close.len() ==> #[trigger] cut_size(bool_matrix(close@), orders@[d]@, s)
                == 0,
        best matches Some(b) ==> {
            &&& b.0 > 0
            &&& exists|d: int, s: int|
                0 <= d < orders.len() && 1 <= s < close.len() && b.0 == #[trigger] cut_size(
                    bool_matrix(close@),
                    orders@[d]@,
                    s,
                ) && b.1 == if s <= close.len() - s {
                    s
                } else {
                    close.len() - s
                }
            &&& forall|d: int, s: int|
                0 <= d < orders.len() && 1 <= s < close.len() && #[trigger] cut_size(bool_matrix(close@), orders@[d]@, s)
                    > 0 ==> b.0 * (if s <= close.len() - s {
                    s
                } else {
                    close.len() - s
                }) <= cut_size(bool_matrix(close@), orders@[d]@, s) * b.1
        },
{
    let ghost c = bool_matrix(close@);
    let ghost o = rows_view(orders@);
    let n = close.len();
    let mut best: Option<(usize, usize)> = None;
    let mut d: usize = 0;
    while d < orders.len()
        invariant
            c == bool_matrix(close@),
            o == rows_view(orders@),
            is_square(c),
            valid_orders(o, n as nat),
            n == close.len(),
            n * n <= usize::MAX,
            d <= orders.len(),
            pair_view(best) == ratio_search(None, all_candidates(c, o.take(d as int), n as nat)),
        decreases orders.len() - d,
    {
        let order = &orders[d];
        assert(order@ == o[d as int]);
        let ghost start = pair_view(best);
        let mut split: usize = 1;
        while split < n
            invariant
                c == bool_matrix(close@),
                is_square(c),
                n == close.len(),
                n * n <= usize::MAX,
                order.len() == n,
                forall|a: int| 0 <= a < order.len() ==> #[trigger] order@[a] < n,
                1 <= split,
                split <= n || split == 1,
                pair_view(best) == ratio_search(start, order_candidates(c, order@, n as nat).take(split - 1)),
            decreases n - split,
        {
            let cut = cut_count(close, order, split);
            let side = if split <= n - split {
                split
            } else {
                n - split
            };
            let better = if cut == 0 {
                false
            } else {
                match best {
                    None => true,
                    Some(b) => {
                        assert((cut as u128) * (b.1 as u128) < 0x1_0000_0000_0000_0000_0000_0000_0000_0000)
                            by (nonlinear_arith)
                            requires
                                cut <= usize::MAX,
                                b.1 <= usize::MAX,
                                usize::MAX < 0x1_0000_0000_0000_0000,
                        ;
                        assert((b.0 as u128) * (side as u128) < 0x1_0000_0000_0000_0000_0000_0000_0000_0000)
                            by (nonlinear_arith)
                            requires
                                b.0 <= usize::MAX,
                                side <= usize::MAX,
                                usize::MAX < 0x1_0000_0000_0000_0000,
                        ;
                        (cut as u128) * (b.1 as u128) < (b.0 as u128) * (side as u128)
                    },
                }
            };
            let ghost cands = order_candidates(c, order@, n as nat);
            assert(cands.take(split as int).drop_last() =~= cands.take(split - 1));
            assert(cands.take(split as int).last() == (cut as nat, side as nat));
            if better {
                best = Some((cut, side));
            }
            split = split + 1;
        }
        proof {
            let cands = order_candidates(c, order@, n as nat);
            if n >= 1 {
                assert(split == n);
                assert(cands.len() == n - 1);
                assert(cands.take(split - 1) =~= cands);
            } else {
                assert(cands.len() == 0);
                assert(cands.take(split - 1) =~= cands);
            }
            assert(o.take(d + 1).drop_last() =~= o.take(d as int));
            assert(o.take(d + 1).last() == order@);
            lemma_ratio_search_concat(None, all_candidates(c, o.take(d as int), n as nat), cands);
        }
        d = d + 1;
    }
    assert(o.take(orders.len() as int) =~= o);
    proof {
        lemma_sparsest_cut_is_minimal(c, o, n as nat);
        lemma_candidates_are_splits(c, o, n as nat);
        let cands = all_candidates(c, o, n as nat);
        assert forall|d: int| 0 <= d < orders.len() implies #[trigger] orders@[d]@ == o[d] by {}
        if best is None {
            assert forall|d: int, s: int| 0 <= d < orders.len() && 1 <= s < n implies #[trigger] cut_size(
                c,
                orders@[d]@,
                s,
            ) == 0 by {
                assert(orders@[d]@ == o[d]);
                assert(cut_size(c, o[d], s) == cut_size(c, orders@[d]@, s));
                let x = (
                    cut_size(c, o[d], s),
                    if s <= n - s {
                        s as nat
                    } else {
                        (n - s) as nat
                    },
                );
                assert(cands.contains(x));
                let k = choose|k: int| 0 <= k < cands.len() && cands[k] == x;
                assert(cands[k].0 == 0);
            }
        } else {
            let b = best->0;
            if forall|d: int, s: int|
                0 <= d < orders.len() && 1 <= s < n ==> #[trigger] cut_size(c, orders@[d]@, s) == 0 {
                let kb = choose|k: int| 0 <= k < cands.len() && cands[k] == (b.0 as nat, b.1 as nat);
                assert(split_candidate(c, o, n as nat, cands[kb]));
                let (d, s) = choose|d: int, s: int|
                    0 <= d < o.len() && 1 <= s < n && cands[kb] == (
                        #[trigger] cut_size(c, o[d], s),
                        if s <= n - s {
                            s as nat
                        } else {
                            (n - s) as nat
                        },
                    );
                assert(orders@[d]@ == o[d]);
                assert(cut_size(c, orders@[d]@, s) == 0);
                assert(false);
            }
            let kb = choose|k: int| 0 <= k < cands.len() && cands[k] == (b.0 as nat, b.1 as nat);
            assert(split_candidate(c, o, n as nat, cands[kb]));
            let (d, s) = choose|d: int, s: int|
                0 <= d < o.len() && 1 <= s < n && cands[kb] == (
                    #[trigger] cut_size(c, o[d], s),
                    if s <= n - s {
                        s as nat
                    } else {
                        (n - s) as nat
                    },
                );
            assert(orders@[d]@ == o[d]);
            assert(b.0 == cut_size(c, orders@[d]@, s));
            assert forall|d2: int, s2: int|
                0 <= d2 < orders.len() && 1 <= s2 < n && #[trigger] cut_size(c, orders@[d2]@, s2) > 0 implies b.0
                    * (if s2 <= n - s2 {
                    s2
                } else {
                    n - s2
                }) <= cut_size(c, orders@[d2]@, s2) * b.1 by {
                assert(orders@[d2]@ == o[d2]);
                let x = (
                    cut_size(c, o[d2], s2),
                    if s2 <= n - s2 {
                        s2 as nat
                    } else {
                        (n - s2) as nat
                    },
                );
                assert(cands.contains(x));
                let k = choose|k: int| 0 <= k < cands.len() && cands[k] == x;
                assert(cands[k].0 > 0);
                assert(b.0 * cands[k].1 <= cands[k].0 * b.1);
            }
        }
    }
    best
}

proof fn lemma_candidate_sides_positive(close: Seq<Seq<bool>>, orders: Seq<Seq<usize>>, n: nat)
    ensures
        forall|k: int|
            0 <= k < all_candidates(close, orders, n).len() ==> #[trigger] all_candidates(close, orders, n)[k].1 > 0,
    decreases orders.len(),
{
    if orders.len() > 0 {
        lemma_candidate_sides_positive(close, orders.drop_last(), n);
        let a = all_candidates(close, orders.drop_last(), n);
        let b = order_candidates(close, orders.last(), n);
        assert forall|k: int| 0 <= k < (a + b).len() implies #[trigger] (a + b)[k].1 > 0 by {
            if k >= a.len() {
                assert((a + b)[k] == b[k - a.len()]);
            }
        }
    }
}

/// The Cheeger estimate is the sparsest cut: when some cut over some order
/// and split is nonempty, the search ends with a nonempty cut whose ratio
/// `cut / side` is at most that of every nonempty candidate cut; it ends with
/// none exactly when every candidate cut is empty.
pub proof fn lemma_sparsest_cut_is_minimal(close: Seq<Seq<bool>>, orders: Seq<Seq<usize>>, n: nat)
    ensures
        ({
            let cands = all_candidates(close, orders, n);
            let found = ratio_search(None, cands);
            &&& found is None <==> forall|k: int| 0 <= k < cands.len() ==> #[trigger] cands[k].0 == 0
            &&& found matches Some(b) ==> {
                &&& b.0 > 0
                &&& cands.contains(b)
                &&& forall|k: int|
                    0 <= k < cands.len() && #[trigger] cands[k].0 > 0 ==> b.0 * cands[k].1 <= cands[k].0 * b.1
            }
        }),
{
    lemma_candidate_sides_positive(close, orders, n);
    lemma_ratio_search_minimal(all_candidates(close, orders, n));
}

/// The smallest cut size at `split` over the orders; none without orders.
pub open spec fn min_cut(close: Seq<Seq<bool>>, orders: Seq<Seq<usize>>, split: int) -> Option<nat>
    decreases orders.len(),
{
    if orders.len() == 0 {
        None
    } else {
        let c = cut_size(close, orders.last(), split);
        match min_cut(close, orders.drop_last(), split) {
            None => Some(c),
            Some(p) => Some(
                if c < p {
                    c
                } else {
                    p
                },
            ),
        }
    }
}

/// The tightest cut is a minimum: there is one exactly when there is an
/// order, and it is the cut size of some order and at most the cut size of
/// every order.
pub proof fn lemma_min_cut_is_minimum(close: Seq<Seq<bool>>, orders: Seq<Seq<usize>>, split: int)
    ensures
        min_cut(close, orders, split) is None <==> orders.len() == 0,
        min_cut(close, orders, split) matches Some(t) ==> {
            &&& exists|d: int| 0 <= d < orders.len() && t == #[trigger] cut_size(close, orders[d], split)
            &&& forall|d: int| 0 <= d < orders.len() ==> t <= #[trigger] cut_size(close, orders[d], split)
        },
    decreases orders.len(),
{
    if orders.len() > 0 {
        let rest = orders.drop_last();
        lemma_min_cut_is_minimum(close, rest, split);
        let c = cut_size(close, orders.last(), split);
        let last = orders.len() - 1;
        assert(orders[last] == orders.last());
        assert forall|d: int| 0 <= d < rest.len() implies #[trigger] rest[d] == orders[d] by {}
        match min_cut(close, rest, split) {
            None => {
                assert(c == cut_size(close, orders[last], split));
            },
            Some(p) => {
                let d0 = choose|d: int| 0 <= d < rest.len() && p == #[trigger] cut_size(close, rest[d], split);
                assert(p == cut_size(close, orders[d0], split));
                assert(c == cut_size(close, orders[last], split));
                let t = if c < p { c } else { p };
                assert forall|d: int| 0 <= d < orders.len() implies t <= #[trigger] cut_size(close, orders[d], split) by {
                    if d < rest.len() {
                        assert(p <= cut_size(close, rest[d], split));
                    }
                }
            },
        }
    }
}

/// The tightest cut at `split` over all orders, as the isoperimetric profile
/// takes it: the smallest cut size among the orders, none when there is no
/// order.
pub fn tightest_cut(close: &Vec<Vec<bool>>, orders: &Vec<Vec<usize>>, split: usize) -> (tightest: Option<usize>)
    requires
        is_square(bool_matrix(close@)),
        valid_orders(rows_view(orders@), close.len() as nat),
        close.len() * close.len() <= usize::MAX,
        split <= close.len(),
    ensures
        match tightest {
            None => min_cut(bool_matrix(close@), rows_view(orders@), split as int) is None,
            Some(t) => min_cut(bool_matrix(close@), rows_view(orders@), split as int) == Some(t as nat),
        },
        tightest is None <==> orders.len() == 0,
        tightest matches Some(t) ==> {
            &&& exists|d: int|
                0 <= d < orders.len() && t == #[trigger] cut_size(bool_matrix(close@), orders@[d]@, split as int)
            &&& forall|d: int|
                0 <= d < orders.len() ==> t <= #[trigger] cut_size(bool_matrix(close@), orders@[d]@, split as int)
        },
{
    let ghost c = bool_matrix(close@);
    let ghost o = rows_view(orders@);
    let mut tightest: Option<usize> = None;
    let mut d: usize = 0;
    while d < orders.len()
        invariant
            c == bool_matrix(close@),
            o == rows_view(orders@),
            is_square(c),
            valid_orders(o, close.len() as nat),
            close.len() * close.len() <= usize::MAX,
            split <= close.len(),
            d <= orders.len(),
            match tightest {
                None => min_cut(c, o.take(d as int), split as int) is None,
                Some(t) => min_cut(c, o.take(d as int), split as int) == Some(t as nat),
            },
        decreases orders.len() - d,
    {
        let order = &orders[d];
        assert(order@ == o[d as int]);
        let cut = cut_count(close, order, split);
        assert(o.take(d + 1).drop_last() =~= o.take(d as int));
        assert(o.take(d + 1).last() == order@);
        tightest = match tightest {
            None => Some(cut),
            Some(t) => Some(
                if cut < t {
                    cut
                } else {
                    t
                },
            ),
        };
        d = d + 1;
    }
    assert(o.take(orders.len() as int) =~= o);
    proof {
        lemma_min_cut_is_minimum(c, o, split as int);
        assert forall|d: int| 0 <= d < orders.len() implies #[trigger] orders@[d]@ == o[d] by {}
        if tightest is Some {
            let t = tightest->0;
            let d0 = choose|d: int| 0 <= d < o.len() && t == #[trigger] cut_size(c, o[d], split as int);
            assert(orders@[d0]@ == o[d0]);
            assert forall|d: int| 0 <= d < orders.len() implies t <= #[trigger] cut_size(c, orders@[d]@, split as int) by {
                assert(orders@[d]@ == o[d]);
                assert(t <= cut_size(c, o[d], split as int));
            }
        }
    }
    tightest
}

} // verus!
