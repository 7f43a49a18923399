//! Colour filter array patterns: the count of the detected patterns, the
//! dominant pattern and the blocks that depart from it.

use vstd::prelude::*;
use crate::analysis::resampling_detection::second_difference;
use crate::merging::{all_wf, is_merge_of, merge_adjacent_regions};
use crate::raster::{
    lemma_offset_in_range,
    lemma_offset_of_position,
    lemma_position_of_offset,
    GrayRaster,
    RgbRaster,
    RgbView,
};
use crate::region::SRegion;
use crate::score::{ratio_ppm, Score, SCORE_ONE};

verus! {

/// The arrangement of the colour filters over a 2x2 cell of the sensor.
#[allow(non_camel_case_types)]
#[derive(Debug, Clone, Copy, PartialEq, Eq, Structural)]
pub enum CfaPattern {
    RGGB,
    BGGR,
    GRBG,
    GBRG,
    Unknown,
}

/// How many blocks showed each pattern.
#[derive(Debug, Clone, Copy, PartialEq, Eq, Structural)]
pub struct CfaPatternStats {
    pub rggb_count: usize,
    pub bggr_count: usize,
    pub grbg_count: usize,
    pub gbrg_count: usize,
    pub unknown_count: usize,
}

impl Default for CfaPatternStats {
    fn default() -> (stats: CfaPatternStats)
        ensures
            stats == (CfaPatternStats {
                rggb_count: 0,
                bggr_count: 0,
                grbg_count: 0,
                gbrg_count: 0,
                unknown_count: 0,
            }),
    {
        CfaPatternStats {
            rggb_count: 0,
            bggr_count: 0,
            grbg_count: 0,
            gbrg_count: 0,
            unknown_count: 0,
        }
    }
}

/// What the analysis found for one block: where the block is, the pattern it
/// shows and how clearly.
#[derive(Debug, Clone, Copy, PartialEq, Eq, Structural)]
pub struct CfaBlock {
    pub x: u32,
    pub y: u32,
    pub detected_pattern: CfaPattern,
    pub confidence: Score,
}

/// How many of the given blocks show `pattern`.
pub open spec fn pattern_count(blocks: Seq<CfaBlock>, pattern: CfaPattern) -> nat
    decreases blocks.len(),
{
    if blocks.len() == 0 {
        0
    } else {
        pattern_count(blocks.drop_last(), pattern) + if blocks.last().detected_pattern
            == pattern {
            1nat
        } else {
            0nat
        }
    }
}

proof fn lemma_pattern_count_bound(blocks: Seq<CfaBlock>, pattern: CfaPattern)
    ensures
        pattern_count(blocks, pattern) <= blocks.len(),
    decreases blocks.len(),
{
    if blocks.len() > 0 {
        lemma_pattern_count_bound(blocks.drop_last(), pattern);
    }
}

impl CfaPatternStats {
    /// The count of the given pattern.
    pub open spec fn count_of(self, pattern: CfaPattern) -> int {
        match pattern {
            CfaPattern::RGGB => self.rggb_count as int,
            CfaPattern::BGGR => self.bggr_count as int,
            CfaPattern::GRBG => self.grbg_count as int,
            CfaPattern::GBRG => self.gbrg_count as int,
            CfaPattern::Unknown => self.unknown_count as int,
        }
    }

    /// The number of blocks counted.
    pub open spec fn total(self) -> int {
        self.rggb_count + self.bggr_count + self.grbg_count + self.gbrg_count
            + self.unknown_count
    }

    /// The known pattern with the highest count; of several with that count,
    /// the one that comes last in the order RGGB, BGGR, GRBG, GBRG.
    pub open spec fn leader(self) -> CfaPattern {
        if self.gbrg_count >= self.rggb_count && self.gbrg_count >= self.bggr_count
            && self.gbrg_count >= self.grbg_count {
            CfaPattern::GBRG
        } else if self.grbg_count >= self.rggb_count && self.grbg_count >= self.bggr_count {
            CfaPattern::GRBG
        } else if self.bggr_count >= self.rggb_count {
            CfaPattern::BGGR
        } else {
            CfaPattern::RGGB
        }
    }
}

/// Counts the patterns of the given blocks.
pub fn calculate_pattern_stats(blocks: &Vec<CfaBlock>) -> (stats: CfaPatternStats)
    ensures
        forall|p: CfaPattern| stats.count_of(p) == pattern_count(blocks@, p),
        stats.total() == blocks@.len(),
{
    let mut stats = CfaPatternStats::default();
    let n = blocks.len();
    let mut i: usize = 0;
    assert(blocks@.take(0) =~= Seq::<CfaBlock>::empty());
    while i < n
        invariant
            0 <= i <= n,
            n == blocks@.len(),
            forall|p: CfaPattern| stats.count_of(p) == pattern_count(blocks@.take(i as int), p),
            stats.total() == i,
        decreases n - i,
    {
        let ghost before = stats;
        proof {
            assert(blocks@.take(i + 1).drop_last() =~= blocks@.take(i as int));
            assert(blocks@.take(i + 1).last() == blocks@[i as int]);
            lemma_pattern_count_bound(blocks@.take(i as int), blocks@[i as int].detected_pattern);
        }
        match blocks[i].detected_pattern {
            CfaPattern::RGGB => {
                stats.rggb_count = stats.rggb_count + 1;
            },
            CfaPattern::BGGR => {
                stats.bggr_count = stats.bggr_count + 1;
            },
            CfaPattern::GRBG => {
                stats.grbg_count = stats.grbg_count + 1;
            },
            CfaPattern::GBRG => {
                stats.gbrg_count = stats.gbrg_count + 1;
            },
            CfaPattern::Unknown => {
                stats.unknown_count = stats.unknown_count + 1;
            },
        }
        proof {
            assert forall|p: CfaPattern| stats.count_of(p) == pattern_count(
                blocks@.take(i + 1),
                p,
            ) by {
                assert(before.count_of(p) == pattern_count(blocks@.take(i as int), p));
            }
        }
        i += 1;
    }
    assert(blocks@.take(n as int) =~= blocks@);
    stats
}

/// The dominant pattern and the share of the blocks that show it: the
/// leading known pattern, or `Unknown` with share zero when no block was
/// counted.
pub fn determine_dominant_pattern(stats: &CfaPatternStats) -> (r: (CfaPattern, Score))
    ensures
        stats.total() == 0 ==> r.0 == CfaPattern::Unknown && r.1@ == 0,
        stats.total() > 0 ==> r.0 == stats.leader() && r.1@ == ratio_ppm(
            stats.count_of(stats.leader()),
            stats.total(),
        ),
{
    let total: u128 = stats.rggb_count as u128 + stats.bggr_count as u128 + stats.grbg_count as u128
        + stats.gbrg_count as u128 + stats.unknown_count as u128;
    if total == 0 {
        return (CfaPattern::Unknown, Score::zero());
    }
    let (pattern, count) = if stats.gbrg_count >= stats.rggb_count && stats.gbrg_count
        >= stats.bggr_count && stats.gbrg_count >= stats.grbg_count {
        (CfaPattern::GBRG, stats.gbrg_count)
    } else if stats.grbg_count >= stats.rggb_count && stats.grbg_count >= stats.bggr_count {
        (CfaPattern::GRBG, stats.grbg_count)
    } else if stats.bggr_count >= stats.rggb_count {
        (CfaPattern::BGGR, stats.bggr_count)
    } else {
        (CfaPattern::RGGB, stats.rggb_count)
    };
    (pattern, share(count as u128, total))
}

/// The fraction `part / whole` as a score.
fn share(part: u128, whole: u128) -> (s: Score)
    requires
        whole > 0,
        part <= 0xFFFF_FFFF_FFFF_FFFF,
    ensures
        s@ == ratio_ppm(part as int, whole as int),
{
    if part >= whole {
        Score::one()
    } else {
        assert(part * SCORE_ONE <= 0xFFFF_FFFF_FFFF_FFFF * 1_000_000) by (nonlinear_arith)
            requires
                part <= 0xFFFF_FFFF_FFFF_FFFF,
                SCORE_ONE == 1_000_000,
        ;
        let q: u128 = (part * (SCORE_ONE as u128)) / whole;
        assert(q < SCORE_ONE) by (nonlinear_arith)
            requires
                q == (part * SCORE_ONE) / (whole as int),
                0 <= part < whole,
        ;
        Score::saturating(q as u32)
    }
}

/// The share of the blocks that show the dominant pattern; one when there is
/// no block.
pub fn calculate_consistency_score(blocks: &Vec<CfaBlock>, dominant: CfaPattern) -> (s: Score)
    ensures
        blocks@.len() == 0 ==> s@ == SCORE_ONE,
        blocks@.len() > 0 ==> s@ == ratio_ppm(
            pattern_count(blocks@, dominant) as int,
            blocks@.len() as int,
        ),
{
    let n = blocks.len();
    if n == 0 {
        return Score::one();
    }
    let stats = calculate_pattern_stats(blocks);
    let matching: usize = match dominant {
        CfaPattern::RGGB => stats.rggb_count,
        CfaPattern::BGGR => stats.bggr_count,
        CfaPattern::GRBG => stats.grbg_count,
        CfaPattern::GBRG => stats.gbrg_count,
        CfaPattern::Unknown => stats.unknown_count,
    };
    assert(matching == stats.count_of(dominant));
    share(matching as u128, n as u128)
}

/// The block departs from the dominant pattern clearly enough to count.
pub open spec fn departs(block: CfaBlock, dominant: CfaPattern, mismatch_threshold: Score) -> bool {
    block.detected_pattern != dominant && block.confidence@ > mismatch_threshold@
}

/// The region of a block of the given side, cut at the coordinate range.
pub open spec fn cfa_region(block: CfaBlock, block_size: u32) -> SRegion {
    SRegion {
        x: block.x,
        y: block.y,
        width: if block.x + block_size <= u32::MAX {
            block_size
        } else {
            (u32::MAX - block.x) as u32
        },
        height: if block.y + block_size <= u32::MAX {
            block_size
        } else {
            (u32::MAX - block.y) as u32
        },
    }
}

/// The regions of the blocks that depart from the dominant pattern, in
/// order.
pub open spec fn departing_regions(
    blocks: Seq<CfaBlock>,
    dominant: CfaPattern,
    mismatch_threshold: Score,
    block_size: u32,
) -> Seq<SRegion>
    decreases blocks.len(),
{
    if blocks.len() == 0 {
        Seq::empty()
    } else {
        let rest = departing_regions(blocks.drop_last(), dominant, mismatch_threshold, block_size);
        if departs(blocks.last(), dominant, mismatch_threshold) {
            rest.push(cfa_region(blocks.last(), block_size))
        } else {
            rest
        }
    }
}

/// The regions in which the pattern departs from the dominant one: the
/// regions of the departing blocks, merged with a gap of half a block.
pub fn find_inconsistent_regions(
    blocks: &Vec<CfaBlock>,
    dominant: CfaPattern,
    mismatch_threshold: Score,
    block_size: u32,
) -> (out: Vec<SRegion>)
    ensures
        is_merge_of(
            out@,
            departing_regions(blocks@, dominant, mismatch_threshold, block_size),
            (block_size / 2) as int,
        ),
{
    let n = blocks.len();
    let threshold = mismatch_threshold.ppm();
    let mut regions: Vec<SRegion> = Vec::new();
    let mut i: usize = 0;
    assert(blocks@.take(0) =~= Seq::<CfaBlock>::empty());
    while i < n
        invariant
            0 <= i <= n,
            n == blocks@.len(),
            threshold == mismatch_threshold@,
            all_wf(regions@),
            regions@ == departing_regions(
                blocks@.take(i as int),
                dominant,
                mismatch_threshold,
                block_size,
            ),
        decreases n - i,
    {
        proof {
            assert(blocks@.take(i + 1).drop_last() =~= blocks@.take(i as int));
            assert(blocks@.take(i + 1).last() == blocks@[i as int]);
        }
        let b = blocks[i];
        if b.detected_pattern != dominant && b.confidence.ppm() > threshold {
            let width: u32 = if block_size <= u32::MAX - b.x { block_size } else { u32::MAX - b.x };
            let height: u32 = if block_size <= u32::MAX - b.y {
                block_size
            } else {
                u32::MAX - b.y
            };
            regions.push(SRegion { x: b.x, y: b.y, width, height });
        }
        i += 1;
    }
    assert(blocks@.take(n as int) =~= blocks@);
    merge_adjacent_regions(&regions, block_size / 2)
}

/// The sum over the three channels of the sizes of the horizontal and the
/// vertical second difference at `(x, y)`.
pub open spec fn zipper_total(v: RgbView, x: int, y: int) -> int {
    let c = v.at(x, y);
    let l = v.at(x - 1, y);
    let r = v.at(x + 1, y);
    let t = v.at(x, y - 1);
    let b = v.at(x, y + 1);
    second_difference(l.r, c.r, r.r) + second_difference(t.r, c.r, b.r) + second_difference(
        l.g,
        c.g,
        r.g,
    ) + second_difference(t.g, c.g, b.g) + second_difference(l.b, c.b, r.b) + second_difference(
        t.b,
        c.b,
        b.b,
    )
}

/// The value of the artifact map at `(x, y)`: a sixth of the zipper total,
/// at most 255, in the interior; zero on the border.
pub open spec fn artifact_value(v: RgbView, x: int, y: int) -> int {
    if 1 <= x && x + 1 < v.width && 1 <= y && y + 1 < v.height {
        let a = zipper_total(v, x, y) / 6;
        if a > 255 {
            255
        } else {
            a
        }
    } else {
        0
    }
}

fn second_difference_size(before: u8, centre: u8, after: u8) -> (d: u32)
    ensures
        d == second_difference(before, centre, after),
        d <= 510,
{
    let sum: i32 = before as i32 - 2 * (centre as i32) + after as i32;
    if sum >= 0 {
        sum as u32
    } else {
        (-sum) as u32
    }
}

/// The zipper total at an interior pixel.
pub fn detect_zipper_artifact(image: &RgbRaster, x: u32, y: u32) -> (total: u32)
    requires
        1 <= x,
        x + 1 < image@.width,
        1 <= y,
        y + 1 < image@.height,
    ensures
        total == zipper_total(image@, x as int, y as int),
        total <= 3060,
{
    let (width, height) = image.dimensions();
    let c = image.get_pixel(x, y);
    let l = image.get_pixel(x - 1, y);
    let r = image.get_pixel(x + 1, y);
    let t = image.get_pixel(x, y - 1);
    let b = image.get_pixel(x, y + 1);
    second_difference_size(l.r, c.r, r.r) + second_difference_size(t.r, c.r, b.r)
        + second_difference_size(l.g, c.g, r.g) + second_difference_size(t.g, c.g, b.g)
        + second_difference_size(l.b, c.b, r.b) + second_difference_size(t.b, c.b, b.b)
}

/// The map of the zipper artifacts of an image.
pub fn create_artifact_map(image: &RgbRaster) -> (out: GrayRaster)
    ensures
        out@.wf(),
        out@.width == image@.width,
        out@.height == image@.height,
        forall|x: int, y: int|
            image@.inside(x, y) ==> #[trigger] out@.at(x, y) == artifact_value(image@, x, y),
{
    let (width, height) = image.dimensions();
    let n: usize = image.as_raw().len() / 3;
    let mut data: Vec<u8> = Vec::new();
    let mut i: usize = 0;
    while i < n
        invariant
            0 <= i <= n,
            n == width * height,
            image@.wf(),
            image@.width == width,
            image@.height == height,
            data@.len() == i,
            forall|k: int|
                0 <= k < i ==> data@[k] == artifact_value(
                    image@,
                    k % (width as int),
                    k / (width as int),
                ),
        decreases n - i,
    {
        proof {
            lemma_position_of_offset(i as int, width as int, height as int);
        }
        let x: u32 = (i % (width as usize)) as u32;
        let y: u32 = (i / (width as usize)) as u32;
        let value: u8 = if 1 <= x && x < width - 1 && 1 <= y && y < height - 1 {
            let a: u32 = detect_zipper_artifact(image, x, y) / 6;
            if a > 255 {
                255
            } else {
                a as u8
            }
        } else {
            0
        };
        data.push(value);
        i += 1;
    }
    let out = GrayRaster::from_raw(width, height, data).unwrap();
    proof {
        assert forall|x: int, y: int| image@.inside(x, y) implies #[trigger] out@.at(x, y)
            == artifact_value(image@, x, y) by {
            lemma_offset_in_range(x, y, width as int, height as int);
            lemma_offset_of_position(x, y, width as int);
        }
    }
    out
}

} // verus!
