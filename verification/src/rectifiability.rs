//! Choice of the sample points at which local tangent planes are tested.
use vstd::prelude::*;

verus! {

/// `⌈a / b⌉` for `b > 0`.
pub open spec fn ceiling_quotient(a: int, b: int) -> int {
    a / b + if a % b == 0 {
        0int
    } else {
        1int
    }
}

/// The indices of the sample points among `len` points when at most
/// `num_samples` are wanted: with `count = min(num_samples, len)` and
/// `step = ⌈len / count⌉`, the indices `0, step, 2·step, …` below `len`, at
/// most `count` of them. No sample is taken when `count` is 0.
pub fn sample_indices(len: usize, num_samples: usize) -> (samples: Vec<usize>)
    ensures
        ({
            let count = if num_samples < len {
                num_samples as int
            } else {
                len as int
            };
            &&& samples.len() <= count
            &&& count == 0 ==> samples.len() == 0
            &&& count > 0 ==> {
                let step = ceiling_quotient(len as int, count);
                &&& samples.len() >= 1
                &&& samples@[0] == 0
                &&& forall|m: int| 0 <= m < samples.len() ==> #[trigger] samples@[m] < len
                &&& forall|m: int| 0 <= m < samples.len() - 1 ==> #[trigger] samples@[m + 1] == samples@[m] + step
                &&& samples.len() == count || samples@[samples.len() - 1] + step >= len
            }
        }),
{
    let count = if num_samples < len {
        num_samples
    } else {
        len
    };
    let mut samples: Vec<usize> = Vec::new();
    if count == 0 {
        return samples;
    }
    assert(len % count != 0 ==> len / count < usize::MAX) by (nonlinear_arith)
        requires
            count >= 1,
    ;
    let step = len / count + if len % count == 0 {
        0
    } else {
        1
    };
    assert(len / count >= 1) by (nonlinear_arith)
        requires
            count >= 1,
            count <= len,
    ;
    let mut index: usize = 0;
    while index < len && samples.len() < count
        invariant
            step == ceiling_quotient(len as int, count as int),
            step >= 1,
            1 <= count <= len,
            samples.len() <= count,
            samples.len() == 0 ==> index == 0,
            samples.len() > 0 ==> samples@[0] == 0 && (index == samples@[samples.len() - 1] + step || (
            index == len && samples@[samples.len() - 1] + step >= len)),
            forall|m: int| 0 <= m < samples.len() ==> #[trigger] samples@[m] < len,
            forall|m: int| 0 <= m < samples.len() - 1 ==> #[trigger] samples@[m + 1] == samples@[m] + step,
        decreases len - index,
    {
        let ghost prev = samples@;
        samples.push(index);
        assert forall|m: int| 0 <= m < samples.len() - 1 implies #[trigger] samples@[m + 1] == samples@[m] + step by {
            if m + 1 < prev.len() {
                assert(samples@[m + 1] == prev[m + 1]);
                assert(samples@[m] == prev[m]);
            }
        }
        if len - index <= step {
            index = len;
        } else {
            index = index + step;
        }
    }
    samples
}

} // verus!
