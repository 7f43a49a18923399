//! Luminance gradients: the dominant direction bin.

use vstd::prelude::*;

verus! {

/// The luminance gradient analyzer: the side of the blocks it compares.
#[derive(Debug, Clone, Copy)]
pub struct LuminanceGradientAnalyzer {
    block_size: u32,
}

/// `bin` is the position of the last largest count of `histogram`.
pub open spec fn is_last_highest(histogram: Seq<u32>, bin: int) -> bool {
    &&& 0 <= bin < histogram.len()
    &&& forall|j: int| 0 <= j < histogram.len() ==> #[trigger] histogram[j] <= histogram[bin]
    &&& forall|j: int| bin < j < histogram.len() ==> #[trigger] histogram[j] < histogram[bin]
}

/// The block at the given direction sum and count departs from the dominant
/// direction: more than a quarter of its pixels have a strong gradient, and
/// their mean direction lies more than 32 and less than 224 steps from the
/// dominant one.
pub open spec fn block_departs(
    strong: int,
    direction_total: int,
    block_size: int,
    dominant: int,
) -> bool {
    strong > (block_size * block_size) / 4 && {
        let mean = direction_total / strong;
        let diff = if mean >= dominant {
            mean - dominant
        } else {
            dominant - mean
        };
        32 < diff < 224
    }
}

impl LuminanceGradientAnalyzer {
    /// The side of the blocks.
    pub closed spec fn spec_block_size(&self) -> u32 {
        self.block_size
    }

    /// An analyzer for blocks of the given side.
    pub fn new(block_size: u32) -> (r: LuminanceGradientAnalyzer)
        ensures
            r.spec_block_size() == block_size,
    {
        LuminanceGradientAnalyzer { block_size }
    }

    /// The side of the blocks.
    #[verifier::when_used_as_spec(spec_block_size)]
    pub fn block_size(&self) -> (b: u32)
        ensures
            b == self.spec_block_size(),
    {
        self.block_size
    }

    /// The bin of the direction histogram with the highest count; of several
    /// with that count the last. Zero for an empty histogram.
    pub fn find_dominant_bin(&self, histogram: &Vec<u32>) -> (bin: usize)
        ensures
            histogram@.len() == 0 ==> bin == 0,
            histogram@.len() > 0 ==> is_last_highest(histogram@, bin as int),
    {
        if histogram.len() == 0 {
            return 0;
        }
        let mut bin: usize = 0;
        let mut i: usize = 1;
        while i < histogram.len()
            invariant
                1 <= i <= histogram@.len(),
                is_last_highest(histogram@.take(i as int), bin as int),
            decreases histogram@.len() - i,
        {
            let ghost before = histogram@.take(i as int);
            let ghost after = histogram@.take(i + 1);
            let ghost old_bin = bin;
            if histogram[i] >= histogram[bin] {
                bin = i;
            }
            proof {
                assert forall|j: int| 0 <= j < after.len() implies #[trigger] after[j]
                    <= after[bin as int] by {
                    if j < i {
                        assert(before[j] <= before[old_bin as int]);
                    }
                }
                assert forall|j: int| bin < j < after.len() implies #[trigger] after[j]
                    < after[bin as int] by {
                    if j < i {
                        assert(before[j] < before[old_bin as int]);
                    }
                }
            }
            i += 1;
        }
        assert(histogram@.take(i as int) =~= histogram@);
        bin
    }

    /// Whether a block with `strong` pixels of strong gradient, whose
    /// directions sum to `direction_total`, departs from the dominant
    /// direction.
    pub fn is_inconsistent_block(&self, strong: u64, direction_total: u64, dominant: i32) -> (r:
        bool)
        ensures
            r == block_departs(
                strong as int,
                direction_total as int,
                self.block_size() as int,
                dominant as int,
            ),
    {
        let bs: u64 = self.block_size as u64;
        assert(bs * bs <= 0xFFFF_FFFF * 0xFFFF_FFFF) by (nonlinear_arith)
            requires
                bs <= 0xFFFF_FFFF,
        ;
        if strong <= (bs * bs) / 4 {
            return false;
        }
        let mean: i128 = (direction_total / strong) as i128;
        let d: i128 = dominant as i128;
        let diff: i128 = if mean >= d { mean - d } else { d - mean };
        32 < diff && diff < 224
    }
}

} // verus!
