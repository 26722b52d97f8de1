//! Swap figures from the `footprint` tool's report.
use vstd::prelude::*;
use crate::sort::seq_sum;

verus! {

/// Swap of one process, from `footprint`.
#[derive(Debug, Clone, Copy)]
pub struct SwapData {
    pub swapped_total: u64,
}

pub open spec fn as_nat() -> spec_fn(u64) -> nat {
    |x: u64| x as nat
}

/// A process's swap: the bytes swapped out over all its memory categories.
pub fn swap_data(category_swapped: &Vec<u64>) -> (r: SwapData)
    requires
        seq_sum(category_swapped@, as_nat()) <= u64::MAX,
    ensures
        r.swapped_total == seq_sum(category_swapped@, as_nat()),
{
    let ghost s = category_swapped@;
    let mut sum: u64 = 0;
    let mut i: usize = 0;
    assert(s.take(0) =~= Seq::<u64>::empty());
    while i < category_swapped.len()
        invariant
            i <= s.len(),
            s == category_swapped@,
            sum == seq_sum(s.take(i as int), as_nat()),
            seq_sum(s, as_nat()) <= u64::MAX,
        decreases s.len() - i,
    {
        assert(s.take(i + 1).drop_last() =~= s.take(i as int));
        proof {
            crate::group::lemma_prefix_sum(s, i + 1, as_nat());
        }
        sum = sum + category_swapped[i];
        i += 1;
    }
    assert(s.take(i as int) =~= s);
    SwapData { swapped_total: sum }
}

} // verus!
