//! Windowing of an agent trajectory for regime-change detection, and the
//! count behind the exploration coverage of its state space.
use vstd::prelude::*;

verus! {

/// The windows in which the local dimension of a trajectory of `len` states
/// is estimated: windows of `window_size` consecutive states whose starts
/// advance by half a window, from 0 while the start lies before
/// `len - window_size`. A trajectory shorter than two windows has none.
/// Each window is `(start, end)`, the states `start..end`.
pub fn regime_windows(len: usize, window_size: usize) -> (windows: Vec<(usize, usize)>)
    requires
        window_size * 2 <= usize::MAX,
        len < window_size * 2 || window_size >= 2,
    ensures
        len < window_size * 2 ==> windows.len() == 0,
        len >= window_size * 2 ==> {
            &&& windows.len() >= 1
            &&& windows@[0].0 == 0
            &&& forall|m: int| 0 <= m < windows.len() ==> #[trigger] windows@[m].0 < len - window_size
                && windows@[m].1 == windows@[m].0 + window_size
            &&& forall|m: int|
                0 <= m < windows.len() - 1 ==> #[trigger] windows@[m + 1].0 == windows@[m].0 + window_size / 2
            &&& windows@[windows.len() - 1].0 + window_size / 2 >= len - window_size
        },
{
    let mut windows: Vec<(usize, usize)> = Vec::new();
    if len < window_size * 2 {
        return windows;
    }
    let limit = len - window_size;
    let step = window_size / 2;
    let mut start: usize = 0;
    while start < limit
        invariant
            limit == len - window_size,
            step == window_size / 2,
            step >= 1,
            len >= window_size * 2,
            start <= limit + step,
            windows.len() == 0 ==> start == 0,
            windows.len() > 0 ==> windows@[0].0 == 0 && start == windows@[windows.len() - 1].0 + step,
            forall|m: int| 0 <= m < windows.len() ==> #[trigger] windows@[m].0 < limit
                && windows@[m].1 == windows@[m].0 + window_size,
            forall|m: int| 0 <= m < windows.len() - 1 ==> #[trigger] windows@[m + 1].0 == windows@[m].0 + step,
        decreases limit + step - start,
    {
        let end = if start + window_size < len {
            start + window_size
        } else {
            len
        };
        let ghost prev = windows@;
        windows.push((start, end));
        assert forall|m: int| 0 <= m < windows.len() - 1 implies #[trigger] windows@[m + 1].0 == windows@[m].0 + step by {
            if m + 1 < prev.len() {
                assert(windows@[m + 1] == prev[m + 1]);
                assert(windows@[m] == prev[m]);
            }
        }
        start = start + step;
    }
    windows
}

/// Some of the explored points lies within ε of state point `t`:
/// `within[e][t]` says that explored point `e` does.
pub open spec fn is_covered(within: Seq<Seq<bool>>, t: int) -> bool {
    exists|e: int| 0 <= e < within.len() && #[trigger] within[e][t]
}

/// How many of the state points `0..upto` are covered.
pub open spec fn covered_among(within: Seq<Seq<bool>>, upto: int) -> nat
    decreases upto,
{
    if upto <= 0 {
        0
    } else {
        covered_among(within, upto - 1) + if is_covered(within, upto - 1) {
            1nat
        } else {
            0nat
        }
    }
}

/// The state points `t < upto` within ε of some explored point.
pub open spec fn covered_set(within: Seq<Seq<bool>>, upto: int) -> Set<int> {
    Set::new(|t: int| 0 <= t < upto && exists|e: int| 0 <= e < within.len() && #[trigger] within[e][t])
}

/// The covered count counts the covered state points: it is the number of
/// state points `t < upto` that some explored point (whichever) lies within
/// ε of.
pub proof fn lemma_covered_among_counts(within: Seq<Seq<bool>>, upto: int)
    requires
        upto >= 0,
    ensures
        covered_set(within, upto).finite(),
        covered_among(within, upto) == covered_set(within, upto).len(),
    decreases upto,
{
    if upto == 0 {
        assert(covered_set(within, 0) =~= Set::<int>::empty());
    } else {
        lemma_covered_among_counts(within, upto - 1);
        let prev = covered_set(within, upto - 1);
        let t = upto - 1;
        assert(!prev.contains(t));
        if is_covered(within, t) {
            assert(covered_set(within, upto) =~= prev.insert(t));
        } else {
            assert(covered_set(within, upto) =~= prev);
        }
    }
}

/// Exploring every state point covers all of them: when explored point `t`
/// lies within ε of state point `t` for each of the `total` state points (as
/// each point does of itself), all `total` are covered.
pub proof fn lemma_full_exploration_covers_all(within: Seq<Seq<bool>>, total: int)
    requires
        0 <= total <= within.len(),
        forall|t: int| 0 <= t < total ==> #[trigger] within[t][t],
    ensures
        covered_among(within, total) == total,
    decreases total,
{
    if total > 0 {
        lemma_full_exploration_covers_all(within, total - 1);
        assert(within[total - 1][total - 1]);
        assert(is_covered(within, total - 1));
    }
}

/// The number of the `total` state points that the exploration covers, the
/// numerator of the exploration coverage: with `within[e][t]` telling whether
/// explored point `e` lies within ε of state point `t`, the state points
/// within ε of some explored point.
pub fn covered_count(within: &Vec<Vec<bool>>, total: usize) -> (count: usize)
    requires
        forall|e: int| 0 <= e < within.len() ==> #[trigger] within@[e].len() == total,
    ensures
        count == covered_among(within@.map_values(|r: Vec<bool>| r@), total as int),
        count <= total,
        count == Set::new(
            |t: int| 0 <= t < total && exists|e: int| 0 <= e < within.len() && #[trigger] within@[e]@[t],
        ).len(),
{
    let ghost w = within@.map_values(|r: Vec<bool>| r@);
    let mut count: usize = 0;
    let mut t: usize = 0;
    while t < total
        invariant
            w == within@.map_values(|r: Vec<bool>| r@),
            forall|e: int| 0 <= e < within.len() ==> #[trigger] within@[e].len() == total,
            t <= total,
            count == covered_among(w, t as int),
            count <= t,
        decreases total - t,
    {
        let mut found = false;
        let mut e: usize = 0;
        while e < within.len() && !found
            invariant
                w == within@.map_values(|r: Vec<bool>| r@),
                forall|x: int| 0 <= x < within.len() ==> #[trigger] within@[x].len() == total,
                t < total,
                e <= within.len(),
                found ==> is_covered(w, t as int),
                !found ==> forall|x: int| 0 <= x < e ==> !#[trigger] w[x][t as int],
            decreases within.len() - e + if found { 0int } else { 1int },
        {
            assert(within@[e as int]@ == w[e as int]);
            assert(within@[e as int].len() == total);
            if within[e][t] {
                found = true;
            } else {
                e = e + 1;
            }
        }
        if found {
            count = count + 1;
        }
        t = t + 1;
    }
    proof {
        lemma_covered_among_counts(w, total as int);
        assert(covered_set(w, total as int) =~= Set::new(
            |t: int| 0 <= t < total && exists|e: int| 0 <= e < within.len() && #[trigger] within@[e]@[t],
        )) by {
            assert forall|t: int| #![auto] covered_set(w, total as int).contains(t) == Set::new(
                |t: int| 0 <= t < total && exists|e: int| 0 <= e < within.len() && #[trigger] within@[e]@[t],
            ).contains(t) by {
                if exists|e: int| 0 <= e < w.len() && #[trigger] w[e][t] {
                    let e = choose|e: int| 0 <= e < w.len() && #[trigger] w[e][t];
                    assert(within@[e]@[t]);
                }
                if exists|e: int| 0 <= e < within.len() && #[trigger] within@[e]@[t] {
                    let e = choose|e: int| 0 <= e < within.len() && #[trigger] within@[e]@[t];
                    assert(w[e][t]);
                }
            }
        }
    }
    count
}

} // verus!
