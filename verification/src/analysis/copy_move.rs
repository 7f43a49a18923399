//! Copy-move detection: pairing of blocks with close hashes, the minimum
//! distance rule, and the greedy choice of non-overlapping matches.

use vstd::prelude::*;
use crate::error::{check_min_dimension, too_small, ForensicsError};
use crate::grid::{grid_positions, is_grid, lemma_step_in_range, steps_below};
use crate::region::SRegion;
use crate::score::{lemma_score_determined, mean_ppm, mean_score, Score};

verus! {

/// Where a kept block lies and the hash of its frequency feature.
#[derive(Debug, Clone, Copy, PartialEq, Eq, Structural)]
pub struct BlockFeature {
    pub x: u32,
    pub y: u32,
    pub hash: u64,
}

/// Two regions of equal size that look alike.
#[derive(Debug, Clone, Copy, PartialEq, Eq, Structural)]
pub struct MatchPair {
    pub source: SRegion,
    pub target: SRegion,
    pub similarity: Score,
}

/// A pair of blocks, by position in the feature list, with the similarity of
/// their features.
#[derive(Debug, Clone, Copy, PartialEq, Eq, Structural)]
pub struct ScoredPair {
    pub first: usize,
    pub second: usize,
    pub similarity: Score,
}

/// The two hashes fall into a common group: they differ at most in their two
/// lowest bits.
pub open spec fn same_group(a: u64, b: u64) -> bool {
    a / 4 == b / 4
}

/// The square of the Euclidean distance between the corners of two blocks,
/// which for blocks of one size is that between their centers.
pub open spec fn distance_squared(ax: int, ay: int, bx: int, by: int) -> int {
    (ax - bx) * (ax - bx) + (ay - by) * (ay - by)
}

/// Blocks `i` and `j` of `features` may be compared: they are blocks at two
/// different places, of a common hash group, at least `min_distance` apart.
pub open spec fn is_candidate(features: Seq<BlockFeature>, i: int, j: int, min_distance: int) -> bool {
    &&& 0 <= i < j < features.len()
    &&& (features[i].x != features[j].x || features[i].y != features[j].y)
    &&& same_group(features[i].hash, features[j].hash)
    &&& distance_squared(
        features[i].x as int,
        features[i].y as int,
        features[j].x as int,
        features[j].y as int,
    ) >= min_distance * min_distance
}

/// The block of side `block_size` at the position of `f`.
pub open spec fn block_region(f: BlockFeature, block_size: u32) -> SRegion {
    SRegion { x: f.x, y: f.y, width: block_size, height: block_size }
}

/// The match that a scored pair stands for.
pub open spec fn match_of(features: Seq<BlockFeature>, p: ScoredPair, block_size: u32) -> MatchPair {
    MatchPair {
        source: block_region(features[p.first as int], block_size),
        target: block_region(features[p.second as int], block_size),
        similarity: p.similarity,
    }
}

/// `a` comes before `b` in the order in which matches are considered: by
/// falling similarity, then by the source's row and column, then by the
/// target's row and column.
pub open spec fn precedes(a: MatchPair, b: MatchPair) -> bool {
    if a.similarity@ != b.similarity@ {
        a.similarity@ > b.similarity@
    } else if a.source.y != b.source.y {
        a.source.y < b.source.y
    } else if a.source.x != b.source.x {
        a.source.x < b.source.x
    } else if a.target.y != b.target.y {
        a.target.y < b.target.y
    } else {
        a.target.x < b.target.x
    }
}

/// The two matches have the same place in the order.
pub open spec fn same_rank(a: MatchPair, b: MatchPair) -> bool {
    &&& a.similarity@ == b.similarity@
    &&& a.source.y == b.source.y
    &&& a.source.x == b.source.x
    &&& a.target.y == b.target.y
    &&& a.target.x == b.target.x
}

/// One of the regions of `a` overlaps one of the regions of `b`.
pub open spec fn conflicts(a: MatchPair, b: MatchPair) -> bool {
    ||| a.source.overlaps(b.source)
    ||| a.target.overlaps(b.source)
    ||| a.source.overlaps(b.target)
    ||| a.target.overlaps(b.target)
}

/// The matches of `s` are in the order of `precedes`, none twice.
pub open spec fn strictly_ordered(s: Seq<MatchPair>) -> bool {
    forall|i: int, j: int| 0 <= i < j < s.len() ==> precedes(#[trigger] s[i], #[trigger] s[j])
}

/// No two matches of `s` conflict.
pub open spec fn conflict_free(s: Seq<MatchPair>) -> bool {
    forall|i: int, j: int| 0 <= i < j < s.len() ==> !conflicts(#[trigger] s[i], #[trigger] s[j])
}

/// `m` is the match of a pair of `pairs` that is a candidate and reaches the
/// threshold.
pub open spec fn accepted(
    features: Seq<BlockFeature>,
    pairs: Seq<ScoredPair>,
    block_size: u32,
    min_distance: int,
    threshold: int,
    m: MatchPair,
) -> bool {
    exists|k: int|
        0 <= k < pairs.len() && is_candidate(
            features,
            (#[trigger] pairs[k]).first as int,
            pairs[k].second as int,
            min_distance,
        ) && pairs[k].similarity@ >= threshold && m == match_of(features, pairs[k], block_size)
}

/// What holds of every match the detector reports: source and target are two
/// different blocks of side `block_size`, at least `min_distance` apart.
pub open spec fn match_wf(m: MatchPair, block_size: u32, min_distance: int) -> bool {
    &&& m.source.width == block_size
    &&& m.source.height == block_size
    &&& m.target.width == block_size
    &&& m.target.height == block_size
    &&& m.source != m.target
    &&& distance_squared(
        m.source.x as int,
        m.source.y as int,
        m.target.x as int,
        m.target.y as int,
    ) >= min_distance * min_distance
}

/// `m` loses against a match of `kept` that comes no later in the order.
pub open spec fn beaten(kept: Seq<MatchPair>, m: MatchPair) -> bool {
    exists|k: int|
        0 <= k < kept.len() && conflicts(#[trigger] kept[k], m) && (precedes(kept[k], m)
            || same_rank(kept[k], m))
}

/// `out` is the greedy choice among the accepted matches: going through them
/// in order, a match is kept when it conflicts with no match kept before it.
pub open spec fn is_greedy_choice(
    out: Seq<MatchPair>,
    features: Seq<BlockFeature>,
    pairs: Seq<ScoredPair>,
    block_size: u32,
    min_distance: int,
    threshold: int,
) -> bool {
    &&& strictly_ordered(out)
    &&& conflict_free(out)
    &&& forall|k: int|
        0 <= k < out.len() ==> accepted(
            features,
            pairs,
            block_size,
            min_distance,
            threshold,
            #[trigger] out[k],
        )
    &&& forall|m: MatchPair| #[trigger]
        accepted(features, pairs, block_size, min_distance, threshold, m) ==> out.contains(m)
            || beaten(out, m)
}

fn same_hash_group(a: u64, b: u64) -> (r: bool)
    ensures
        r == same_group(a, b),
{
    a / 4 == b / 4
}

fn far_enough(a: &BlockFeature, b: &BlockFeature, min_distance: u32) -> (r: bool)
    ensures
        r == (distance_squared(a.x as int, a.y as int, b.x as int, b.y as int) >= min_distance
            * min_distance),
{
    let dx: u128 = if a.x >= b.x { (a.x - b.x) as u128 } else { (b.x - a.x) as u128 };
    let dy: u128 = if a.y >= b.y { (a.y - b.y) as u128 } else { (b.y - a.y) as u128 };
    let md: u128 = min_distance as u128;
    assert(dx * dx <= 0xFFFF_FFFF * 0xFFFF_FFFF && dy * dy <= 0xFFFF_FFFF * 0xFFFF_FFFF && md * md
        <= 0xFFFF_FFFF * 0xFFFF_FFFF) by (nonlinear_arith)
        requires
            0 <= dx <= 0xFFFF_FFFF,
            0 <= dy <= 0xFFFF_FFFF,
            0 <= md <= 0xFFFF_FFFF,
    ;
    assert(dx * dx == (a.x - b.x) * (a.x - b.x)) by (nonlinear_arith)
        requires
            dx == a.x - b.x || dx == b.x - a.x,
    ;
    assert(dy * dy == (a.y - b.y) * (a.y - b.y)) by (nonlinear_arith)
        requires
            dy == a.y - b.y || dy == b.y - a.y,
    ;
    dx * dx + dy * dy >= md * md
}

fn comes_before(a: &MatchPair, b: &MatchPair) -> (r: bool)
    ensures
        r == precedes(*a, *b),
{
    let sa = a.similarity.ppm();
    let sb = b.similarity.ppm();
    if sa != sb {
        sa > sb
    } else if a.source.y != b.source.y {
        a.source.y < b.source.y
    } else if a.source.x != b.source.x {
        a.source.x < b.source.x
    } else if a.target.y != b.target.y {
        a.target.y < b.target.y
    } else {
        a.target.x < b.target.x
    }
}

fn in_conflict(a: &MatchPair, b: &MatchPair) -> (r: bool)
    ensures
        r == conflicts(*a, *b),
{
    a.source.regions_overlap(&b.source) || a.target.regions_overlap(&b.source)
        || a.source.regions_overlap(&b.target) || a.target.regions_overlap(&b.target)
}

/// The hash of a feature vector from the comparison of each coefficient with
/// the vector's mean: bit `i` is set exactly when `above_mean[i]` holds, for
/// the first 64 coefficients.
pub open spec fn hash_of(above_mean: Seq<bool>) -> u64
    decreases above_mean.len(),
{
    if above_mean.len() == 0 {
        0
    } else {
        let rest = hash_of(above_mean.drop_last());
        let i = above_mean.len() - 1;
        if above_mean.last() && i < 64 {
            rest | (1u64 << (i as u64))
        } else {
            rest
        }
    }
}

/// Packs the comparisons of the coefficients with their mean into a hash.
pub fn compute_hash(above_mean: &Vec<bool>) -> (hash: u64)
    ensures
        hash == hash_of(above_mean@),
{
    let mut hash: u64 = 0;
    let n = above_mean.len();
    let mut i: usize = 0;
    assert(above_mean@.take(0) =~= Seq::<bool>::empty());
    while i < n
        invariant
            0 <= i <= n,
            n == above_mean@.len(),
            hash == hash_of(above_mean@.take(i as int)),
        decreases n - i,
    {
        proof {
            assert(above_mean@.take(i + 1).drop_last() =~= above_mean@.take(i as int));
            assert(above_mean@.take(i + 1).last() == above_mean@[i as int]);
        }
        if above_mean[i] && i < 64 {
            hash = hash | (1u64 << (i as u64));
        }
        i += 1;
    }
    assert(above_mean@.take(n as int) =~= above_mean@);
    hash
}

/// A match that counts has two different blocks of the given side, far
/// enough apart, and reaches the threshold.
pub proof fn lemma_accepted_is_wf(
    features: Seq<BlockFeature>,
    pairs: Seq<ScoredPair>,
    block_size: u32,
    min_distance: int,
    threshold: int,
    m: MatchPair,
)
    requires
        accepted(features, pairs, block_size, min_distance, threshold, m),
    ensures
        match_wf(m, block_size, min_distance),
        m.similarity@ >= threshold,
{
}

/// Puts `m` at its place in the ordered `sorted`, unless it is there already.
fn insert_in_order(
    sorted: &mut Vec<MatchPair>,
    m: MatchPair,
    Ghost(block_size): Ghost<u32>,
    Ghost(min_distance): Ghost<int>,
)
    requires
        strictly_ordered(old(sorted)@),
        match_wf(m, block_size, min_distance),
        forall|t: int|
            0 <= t < old(sorted)@.len() ==> match_wf(
                #[trigger] old(sorted)@[t],
                block_size,
                min_distance,
            ),
    ensures
        strictly_ordered(final(sorted)@),
        forall|x: MatchPair|
            final(sorted)@.contains(x) <==> (old(sorted)@.contains(x) || x == m),
{
    let ghost before = sorted@;
    let mut p: usize = 0;
    while p < sorted.len() && comes_before(&sorted[p], &m)
        invariant
            0 <= p <= sorted@.len(),
            sorted@ == before,
            forall|t: int| 0 <= t < p ==> precedes(#[trigger] sorted@[t], m),
        decreases sorted@.len() - p,
    {
        p += 1;
    }
    if p < sorted.len() && !comes_before(&m, &sorted[p]) {
        assert(same_rank(before[p as int], m));
        proof {
            lemma_score_determined(before[p as int].similarity, m.similarity);
        }
        assert(before[p as int] == m);
        assert forall|x: MatchPair| sorted@.contains(x) <==> (before.contains(x) || x == m) by {
            if x == m {
                assert(sorted@[p as int] == x);
            }
        }
    } else {
        sorted.insert(p, m);
        proof {
            assert forall|t: int| 0 <= t < sorted@.len() && t != p implies sorted@[t] == before[if t
                < p {
                t
            } else {
                t - 1
            }] by {}
            assert(sorted@[p as int] == m);
            assert forall|a: int, b: int| 0 <= a < b < sorted@.len() implies precedes(
                #[trigger] sorted@[a],
                #[trigger] sorted@[b],
            ) by {
                let a0 = if a < p { a } else { a - 1 };
                let b0 = if b < p { b } else { b - 1 };
                if a == p {
                    assert(precedes(m, before[p as int]));
                    if b0 > p {
                        assert(precedes(before[p as int], before[b0]));
                    }
                } else if b == p {
                    assert(precedes(before[a0], m));
                } else {
                    assert(precedes(before[a0], before[b0]));
                }
            }
            assert forall|x: MatchPair| sorted@.contains(x) <==> (before.contains(x) || x == m) by {
                if sorted@.contains(x) {
                    let t = choose|t: int| 0 <= t < sorted@.len() && sorted@[t] == x;
                    if t != p {
                        assert(before[if t < p { t } else { t - 1 }] == x);
                    }
                }
                if before.contains(x) {
                    let t = choose|t: int| 0 <= t < before.len() && before[t] == x;
                    assert(sorted@[if t < p { t } else { t + 1 }] == x);
                }
                if x == m {
                    assert(sorted@[p as int] == x);
                }
            }
        }
    }
}

/// What the copy-move detector found.
#[derive(Debug, Clone)]
pub struct CopyMoveResult {
    pub matches: Vec<MatchPair>,
    pub confidence: Score,
}

/// The similarities of the given matches, in order.
pub open spec fn similarities(ms: Seq<MatchPair>) -> Seq<Score> {
    Seq::new(ms.len(), |i: int| ms[i].similarity)
}

/// The configuration of the copy-move detector.
#[derive(Debug, Clone, Copy)]
pub struct CopyMoveDetector {
    block_size: u32,
    similarity_threshold: Score,
    min_distance: u32,
}

impl CopyMoveDetector {
    #[verifier::type_invariant]
    spec fn inv(self) -> bool {
        4 <= self.block_size <= 64
    }

    pub closed spec fn spec_block_size(&self) -> u32 {
        self.block_size
    }

    pub closed spec fn spec_similarity_threshold(&self) -> Score {
        self.similarity_threshold
    }

    pub closed spec fn spec_min_distance(&self) -> u32 {
        self.min_distance
    }

    /// A detector for blocks of side `block_size`, which must lie in
    /// `[4, 64]`.
    pub fn new(block_size: u32, similarity_threshold: Score, min_distance: u32) -> (r: Result<
        CopyMoveDetector,
        ForensicsError,
    >)
        ensures
            4 <= block_size <= 64 ==> (r matches Ok(d) && d.spec_block_size() == block_size
                && d.spec_similarity_threshold() == similarity_threshold && d.spec_min_distance()
                == min_distance),
            !(4 <= block_size <= 64) ==> (r matches Err(ForensicsError::InvalidParameter(msg))
                && msg@ == "Block size must be between 4 and 64"@),
    {
        if block_size < 4 || block_size > 64 {
            return Err(
                ForensicsError::InvalidParameter("Block size must be between 4 and 64".to_owned()),
            );
        }
        Ok(CopyMoveDetector { block_size, similarity_threshold, min_distance })
    }

    #[verifier::when_used_as_spec(spec_block_size)]
    pub fn block_size(&self) -> (b: u32)
        ensures
            b == self.spec_block_size(),
            4 <= b <= 64,
    {
        proof {
            use_type_invariant(self);
        }
        self.block_size
    }

    #[verifier::when_used_as_spec(spec_similarity_threshold)]
    pub fn similarity_threshold(&self) -> (t: Score)
        ensures
            t == self.spec_similarity_threshold(),
    {
        self.similarity_threshold
    }

    #[verifier::when_used_as_spec(spec_min_distance)]
    pub fn min_distance(&self) -> (d: u32)
        ensures
            d == self.spec_min_distance(),
    {
        self.min_distance
    }

    /// The smallest side an image may have: twice the block size.
    pub fn min_dimension(&self) -> (m: u32)
        ensures
            m == 2 * self.block_size(),
    {
        proof {
            use_type_invariant(self);
        }
        2 * self.block_size
    }

    /// Detects copied regions in an image of the given size from the
    /// features of its blocks and the similarities of pairs of them. An
    /// image with a side below twice the block size is rejected; of any
    /// other the greedy choice among the accepted matches is reported, with
    /// the mean similarity as the confidence.
    pub fn detect(
        &self,
        width: u32,
        height: u32,
        features: &Vec<BlockFeature>,
        pairs: &Vec<ScoredPair>,
    ) -> (r: Result<CopyMoveResult, ForensicsError>)
        ensures
            too_small(width as int, height as int, 2 * self.block_size()) ==> r == Err::<
                CopyMoveResult,
                ForensicsError,
            >(ForensicsError::ImageTooSmall((2 * self.block_size()) as u32)),
            !too_small(width as int, height as int, 2 * self.block_size()) ==> (r matches Ok(
                result,
            ) && is_detection(result, *self, width as int, height as int, features@, pairs@)),
    {
        match self.check_image(width, height) {
            Ok(()) => {},
            Err(e) => {
                return Err(e);
            },
        }
        let result = self.find_matches(features, pairs);
        let confidence = result.confidence.ppm();
        proof {
            use_type_invariant(self);
            if forall|i: int|
                0 <= i < features@.len() ==> (#[trigger] features@[i]).x + self.block_size()
                    <= width && features@[i].y + self.block_size() <= height {
                matches_stay_within(
                    result.matches@,
                    features@,
                    pairs@,
                    self.block_size(),
                    self.min_distance() as int,
                    self.similarity_threshold()@,
                    width as int,
                    height as int,
                );
            }
        }
        Ok(result)
    }

    /// Accepts an image whose sides are both at least twice the block size.
    pub fn check_image(&self, width: u32, height: u32) -> (r: Result<(), ForensicsError>)
        ensures
            too_small(width as int, height as int, 2 * self.block_size()) ==> r == Err::<
                (),
                ForensicsError,
            >(ForensicsError::ImageTooSmall((2 * self.block_size()) as u32)),
            !too_small(width as int, height as int, 2 * self.block_size()) ==> r is Ok,
    {
        check_min_dimension(width, height, self.min_dimension())
    }

    /// The step between two neighbouring blocks: half the block size.
    pub fn step(&self) -> (s: u32)
        ensures
            s == self.block_size() / 2,
            2 <= s <= 32,
    {
        proof {
            use_type_invariant(self);
        }
        self.block_size / 2
    }

    /// The corners of the blocks that are examined in a `width` by `height`
    /// image: every half block size, as long as the corner lies more than a
    /// block away from the right and lower edge.
    pub fn block_positions(&self, width: u32, height: u32) -> (positions: Vec<(u32, u32)>)
        requires
            width >= self.block_size(),
            height >= self.block_size(),
        ensures
            is_grid(
                positions@,
                width - self.block_size(),
                height - self.block_size(),
                (self.block_size() / 2) as int,
            ),
    {
        proof {
            use_type_invariant(self);
        }
        let step = self.step();
        grid_positions(width - self.block_size, height - self.block_size, step)
    }

    /// The pairs of blocks that may be compared, each pair once, in the
    /// order of the first and then of the second block.
    pub fn candidate_pairs(&self, features: &Vec<BlockFeature>) -> (out: Vec<(usize, usize)>)
        ensures
            forall|k: int|
                0 <= k < out@.len() ==> is_candidate(
                    features@,
                    (#[trigger] out@[k]).0 as int,
                    out@[k].1 as int,
                    self.min_distance() as int,
                ),
            forall|i: int, j: int|
                is_candidate(features@, i, j, self.min_distance() as int) ==> out@.contains(
                    (i as usize, j as usize),
                ),
            forall|a: int, b: int|
                0 <= a < b < out@.len() ==> (#[trigger] out@[a]).0 < (#[trigger] out@[b]).0 || (
                out@[a].0 == out@[b].0 && out@[a].1 < out@[b].1),
    {
        let n = features.len();
        let md = self.min_distance;
        let mut out: Vec<(usize, usize)> = Vec::new();
        let mut i: usize = 0;
        while i < n
            invariant
                0 <= i <= n,
                n == features@.len(),
                md == self.min_distance(),
                forall|k: int|
                    0 <= k < out@.len() ==> is_candidate(
                        features@,
                        (#[trigger] out@[k]).0 as int,
                        out@[k].1 as int,
                        md as int,
                    ) && out@[k].0 < i,
                forall|a: int, b: int|
                    0 <= a < i && is_candidate(features@, a, b, md as int) ==> out@.contains(
                        (a as usize, b as usize),
                    ),
                forall|a: int, b: int|
                    0 <= a < b < out@.len() ==> (#[trigger] out@[a]).0 < (#[trigger] out@[b]).0
                        || (out@[a].0 == out@[b].0 && out@[a].1 < out@[b].1),
            decreases n - i,
        {
            let mut j: usize = i + 1;
            while j < n
                invariant
                    0 <= i < n,
                    i < j <= n,
                    n == features@.len(),
                    md == self.min_distance(),
                    forall|k: int|
                        0 <= k < out@.len() ==> is_candidate(
                            features@,
                            (#[trigger] out@[k]).0 as int,
                            out@[k].1 as int,
                            md as int,
                        ) && (out@[k].0 < i || (out@[k].0 == i && out@[k].1 < j)),
                    forall|a: int, b: int|
                        0 <= a < i && is_candidate(features@, a, b, md as int) ==> out@.contains(
                            (a as usize, b as usize),
                        ),
                    forall|b: int|
                        0 <= b < j && is_candidate(features@, i as int, b, md as int)
                            ==> out@.contains((i, b as usize)),
                    forall|a: int, b: int|
                        0 <= a < b < out@.len() ==> (#[trigger] out@[a]).0 < (#[trigger] out@[b]).0
                            || (out@[a].0 == out@[b].0 && out@[a].1 < out@[b].1),
                decreases n - j,
            {
                let ghost before = out@;
                if (features[i].x != features[j].x || features[i].y != features[j].y)
                    && same_hash_group(features[i].hash, features[j].hash) && far_enough(
                    &features[i],
                    &features[j],
                    md,
                ) {
                    out.push((i, j));
                    proof {
                        assert(out@[before.len() as int] == (i, j));
                        assert forall|a: int, b: int|
                            0 <= a < i && is_candidate(
                                features@,
                                a,
                                b,
                                md as int,
                            ) implies out@.contains((a as usize, b as usize)) by {
                            let k = choose|k: int|
                                0 <= k < before.len() && before[k] == (a as usize, b as usize);
                            assert(out@[k] == (a as usize, b as usize));
                        }
                        assert forall|b: int|
                            0 <= b < j + 1 && is_candidate(
                                features@,
                                i as int,
                                b,
                                md as int,
                            ) implies out@.contains((i, b as usize)) by {
                            if b < j {
                                let k = choose|k: int|
                                    0 <= k < before.len() && before[k] == (i, b as usize);
                                assert(out@[k] == (i, b as usize));
                            }
                        }
                    }
                }
                j += 1;
            }
            i += 1;
        }
        out
    }

    /// Chooses the matches among the scored pairs. A pair counts when it is
    /// a candidate and its similarity reaches the threshold. The pairs that
    /// count are taken by falling similarity, ties by the place of source and
    /// target, and one is kept when none of its two regions overlaps a
    /// region of a match kept before. The confidence is the mean similarity
    /// of the kept matches.
    pub fn find_matches(&self, features: &Vec<BlockFeature>, pairs: &Vec<ScoredPair>) -> (result:
        CopyMoveResult)
        ensures
            is_greedy_choice(
                result.matches@,
                features@,
                pairs@,
                self.block_size(),
                self.min_distance() as int,
                self.similarity_threshold()@,
            ),
            forall|k: int|
                0 <= k < result.matches@.len() ==> match_wf(
                    #[trigger] result.matches@[k],
                    self.block_size(),
                    self.min_distance() as int,
                ) && result.matches@[k].similarity@ >= self.similarity_threshold()@,
            result.confidence@ == mean_ppm(similarities(result.matches@)),
    {
        proof {
            use_type_invariant(self);
        }
        let sorted = self.accepted_in_order(features, pairs);
        let matches = self.filter_matches(&sorted, Ghost(features@), Ghost(pairs@));
        let n = matches.len();
        let mut scores: Vec<Score> = Vec::new();
        let mut i: usize = 0;
        while i < n
            invariant
                0 <= i <= n,
                n == matches@.len(),
                scores@.len() == i,
                forall|k: int| 0 <= k < i ==> scores@[k] == matches@[k].similarity,
            decreases n - i,
        {
            scores.push(matches[i].similarity);
            i += 1;
        }
        assert(scores@ =~= similarities(matches@));
        let confidence = mean_score(&scores);
        proof {
            assert forall|k: int| 0 <= k < matches@.len() implies match_wf(
                #[trigger] matches@[k],
                self.block_size(),
                self.min_distance() as int,
            ) && matches@[k].similarity@ >= self.similarity_threshold()@ by {
                lemma_accepted_is_wf(
                    features@,
                    pairs@,
                    self.block_size(),
                    self.min_distance() as int,
                    self.similarity_threshold()@,
                    matches@[k],
                );
            }
        }
        CopyMoveResult { matches, confidence }
    }

    /// The matches of the pairs that count, in order, each once.
    fn accepted_in_order(&self, features: &Vec<BlockFeature>, pairs: &Vec<ScoredPair>) -> (sorted:
        Vec<MatchPair>)
        ensures
            strictly_ordered(sorted@),
            forall|k: int|
                0 <= k < sorted@.len() ==> accepted(
                    features@,
                    pairs@,
                    self.block_size(),
                    self.min_distance() as int,
                    self.similarity_threshold()@,
                    #[trigger] sorted@[k],
                ),
            forall|m: MatchPair| #[trigger]
                accepted(
                    features@,
                    pairs@,
                    self.block_size(),
                    self.min_distance() as int,
                    self.similarity_threshold()@,
                    m,
                ) ==> sorted@.contains(m),
    {
        proof {
            use_type_invariant(self);
        }
        let bs = self.block_size;
        let md = self.min_distance;
        let threshold = self.similarity_threshold.ppm();
        let n = features.len();
        let mut sorted: Vec<MatchPair> = Vec::new();
        let mut k: usize = 0;
        while k < pairs.len()
            invariant
                0 <= k <= pairs@.len(),
                n == features@.len(),
                bs == self.block_size(),
                md == self.min_distance(),
                threshold == self.similarity_threshold()@,
                strictly_ordered(sorted@),
                forall|t: int|
                    0 <= t < sorted@.len() ==> accepted(
                        features@,
                        pairs@.take(k as int),
                        bs,
                        md as int,
                        threshold as int,
                        #[trigger] sorted@[t],
                    ),
                forall|m: MatchPair| #[trigger]
                    accepted(features@, pairs@.take(k as int), bs, md as int, threshold as int, m)
                        ==> sorted@.contains(m),
            decreases pairs@.len() - k,
        {
            let p = pairs[k];
            let ghost before = sorted@;
            let counts = p.first < p.second && p.second < n && (features[p.first].x
                != features[p.second].x || features[p.first].y != features[p.second].y)
                && same_hash_group(features[p.first].hash, features[p.second].hash) && far_enough(
                &features[p.first],
                &features[p.second],
                md,
            ) && p.similarity.ppm() >= threshold;
            if counts {
                let m = MatchPair {
                    source: SRegion {
                        x: features[p.first].x,
                        y: features[p.first].y,
                        width: bs,
                        height: bs,
                    },
                    target: SRegion {
                        x: features[p.second].x,
                        y: features[p.second].y,
                        width: bs,
                        height: bs,
                    },
                    similarity: p.similarity,
                };
                assert(m == match_of(features@, p, bs));
                proof {
                    assert forall|t: int| 0 <= t < before.len() implies match_wf(
                        #[trigger] before[t],
                        bs,
                        md as int,
                    ) by {
                        lemma_accepted_is_wf(
                            features@,
                            pairs@.take(k as int),
                            bs,
                            md as int,
                            threshold as int,
                            before[t],
                        );
                    }
                }
                insert_in_order(&mut sorted, m, Ghost(bs), Ghost(md as int));
            }
            proof {
                let prefix = pairs@.take(k as int);
                let longer = pairs@.take(k + 1);
                assert(longer[k as int] == p);
                assert forall|t: int| 0 <= t < sorted@.len() implies accepted(
                    features@,
                    longer,
                    bs,
                    md as int,
                    threshold as int,
                    #[trigger] sorted@[t],
                ) by {
                    let x = sorted@[t];
                    assert(sorted@.contains(x));
                    if before.contains(x) {
                        let w = choose|w: int| 0 <= w < before.len() && before[w] == x;
                        assert(accepted(features@, prefix, bs, md as int, threshold as int, before[w]));
                        let q = choose|q: int|
                            0 <= q < prefix.len() && is_candidate(
                                features@,
                                (#[trigger] prefix[q]).first as int,
                                prefix[q].second as int,
                                md as int,
                            ) && prefix[q].similarity@ >= threshold as int && x == match_of(
                                features@,
                                prefix[q],
                                bs,
                            );
                        assert(longer[q] == prefix[q]);
                    } else {
                        assert(counts && x == match_of(features@, longer[k as int], bs));
                    }
                }
                assert forall|m: MatchPair| #[trigger]
                    accepted(
                        features@,
                        longer,
                        bs,
                        md as int,
                        threshold as int,
                        m,
                    ) implies sorted@.contains(m) by {
                    let q = choose|q: int|
                        0 <= q < longer.len() && is_candidate(
                            features@,
                            (#[trigger] longer[q]).first as int,
                            longer[q].second as int,
                            md as int,
                        ) && longer[q].similarity@ >= threshold as int && m == match_of(
                            features@,
                            longer[q],
                            bs,
                        );
                    if q < k {
                        assert(prefix[q] == longer[q]);
                        assert(accepted(features@, prefix, bs, md as int, threshold as int, m));
                        assert(before.contains(m));
                    } else {
                        assert(counts);
                    }
                }
            }
            k += 1;
        }
        assert(pairs@.take(k as int) =~= pairs@);
        sorted
    }

    /// Goes through the matches in order and keeps each one that conflicts
    /// with none kept before.
    fn filter_matches(
        &self,
        sorted: &Vec<MatchPair>,
        Ghost(features): Ghost<Seq<BlockFeature>>,
        Ghost(pairs): Ghost<Seq<ScoredPair>>,
    ) -> (kept: Vec<MatchPair>)
        requires
            strictly_ordered(sorted@),
            forall|k: int|
                0 <= k < sorted@.len() ==> accepted(
                    features,
                    pairs,
                    self.block_size(),
                    self.min_distance() as int,
                    self.similarity_threshold()@,
                    #[trigger] sorted@[k],
                ),
            forall|m: MatchPair| #[trigger]
                accepted(
                    features,
                    pairs,
                    self.block_size(),
                    self.min_distance() as int,
                    self.similarity_threshold()@,
                    m,
                ) ==> sorted@.contains(m),
        ensures
            is_greedy_choice(
                kept@,
                features,
                pairs,
                self.block_size(),
                self.min_distance() as int,
                self.similarity_threshold()@,
            ),
    {
        let mut kept: Vec<MatchPair> = Vec::new();
        let mut t: usize = 0;
        while t < sorted.len()
            invariant
                0 <= t <= sorted@.len(),
                strictly_ordered(sorted@),
                strictly_ordered(kept@),
                conflict_free(kept@),
                forall|k: int|
                    0 <= k < kept@.len() ==> exists|u: int|
                        0 <= u < t && sorted@[u] == #[trigger] kept@[k],
                forall|u: int|
                    0 <= u < t ==> kept@.contains(#[trigger] sorted@[u]) || beaten(
                        kept@,
                        sorted@[u],
                    ),
            decreases sorted@.len() - t,
        {
            let m = sorted[t];
            let ghost before = kept@;
            let mut clash = false;
            let mut c: usize = 0;
            while c < kept.len()
                invariant
                    0 <= c <= kept@.len(),
                    kept@ == before,
                    clash ==> exists|w: int| 0 <= w < c && conflicts(#[trigger] kept@[w], m),
                    !clash ==> forall|w: int| 0 <= w < c ==> !conflicts(#[trigger] kept@[w], m),
                decreases kept@.len() - c,
            {
                if in_conflict(&kept[c], &m) {
                    clash = true;
                }
                c += 1;
            }
            if !clash {
                kept.push(m);
            }
            proof {
                assert forall|k: int| 0 <= k < before.len() implies precedes(
                    #[trigger] before[k],
                    m,
                ) by {
                    let u = choose|u: int| 0 <= u < t && sorted@[u] == before[k];
                    assert(precedes(sorted@[u], sorted@[t as int]));
                }
                if clash {
                    let w = choose|w: int| 0 <= w < before.len() && conflicts(#[trigger] before[w], m);
                    assert(precedes(before[w], m));
                    assert(beaten(kept@, m));
                } else {
                    assert(kept@[before.len() as int] == m);
                    assert(kept@.contains(m));
                    assert forall|a: int, b: int| 0 <= a < b < kept@.len() implies !conflicts(
                        #[trigger] kept@[a],
                        #[trigger] kept@[b],
                    ) by {
                        if b == before.len() {
                            assert(!conflicts(before[a], m));
                        } else {
                            assert(!conflicts(before[a], before[b]));
                        }
                    }
                    assert forall|a: int, b: int| 0 <= a < b < kept@.len() implies precedes(
                        #[trigger] kept@[a],
                        #[trigger] kept@[b],
                    ) by {
                        if b == before.len() {
                            assert(precedes(before[a], m));
                        } else {
                            assert(precedes(before[a], before[b]));
                        }
                    }
                }
                assert forall|k: int| 0 <= k < kept@.len() implies exists|u: int|
                    0 <= u < t + 1 && sorted@[u] == #[trigger] kept@[k] by {
                    if k < before.len() {
                        let u = choose|u: int| 0 <= u < t && sorted@[u] == before[k];
                        assert(sorted@[u] == kept@[k]);
                    } else {
                        assert(sorted@[t as int] == kept@[k]);
                    }
                }
                assert forall|u: int| 0 <= u < t + 1 implies kept@.contains(#[trigger] sorted@[u])
                    || beaten(kept@, sorted@[u]) by {
                    if u < t {
                        if before.contains(sorted@[u]) {
                            let w = choose|w: int| 0 <= w < before.len() && before[w] == sorted@[u];
                            assert(kept@[w] == sorted@[u]);
                        } else {
                            assert(beaten(before, sorted@[u]));
                            let w = choose|w: int|
                                0 <= w < before.len() && conflicts(
                                    #[trigger] before[w],
                                    sorted@[u],
                                ) && (precedes(before[w], sorted@[u]) || same_rank(
                                    before[w],
                                    sorted@[u],
                                ));
                            assert(kept@[w] == before[w]);
                        }
                    }
                }
            }
            t += 1;
        }
        proof {
            assert forall|k: int| 0 <= k < kept@.len() implies accepted(
                features,
                pairs,
                self.block_size(),
                self.min_distance() as int,
                self.similarity_threshold()@,
                #[trigger] kept@[k],
            ) by {
                let u = choose|u: int| 0 <= u < t && sorted@[u] == kept@[k];
                assert(accepted(
                    features,
                    pairs,
                    self.block_size(),
                    self.min_distance() as int,
                    self.similarity_threshold()@,
                    sorted@[u],
                ));
            }
            assert forall|m: MatchPair| #[trigger]
                accepted(
                    features,
                    pairs,
                    self.block_size(),
                    self.min_distance() as int,
                    self.similarity_threshold()@,
                    m,
                ) implies kept@.contains(m) || beaten(kept@, m) by {
                assert(sorted@.contains(m));
                let u = choose|u: int| 0 <= u < sorted@.len() && sorted@[u] == m;
                assert(kept@.contains(sorted@[u]) || beaten(kept@, sorted@[u]));
            }
        }
        kept
    }
}

/// A member of one greedy choice is a member of any other.
proof fn lemma_choice_member(
    a: Seq<MatchPair>,
    b: Seq<MatchPair>,
    features: Seq<BlockFeature>,
    pairs: Seq<ScoredPair>,
    block_size: u32,
    min_distance: int,
    threshold: int,
    i: int,
)
    requires
        is_greedy_choice(a, features, pairs, block_size, min_distance, threshold),
        is_greedy_choice(b, features, pairs, block_size, min_distance, threshold),
        0 <= i < a.len(),
    ensures
        b.contains(a[i]),
    decreases i,
{
    if !b.contains(a[i]) {
        assert(accepted(features, pairs, block_size, min_distance, threshold, a[i]));
        assert(beaten(b, a[i]));
        let k = choose|k: int|
            0 <= k < b.len() && conflicts(#[trigger] b[k], a[i]) && (precedes(b[k], a[i])
                || same_rank(b[k], a[i]));
        assert(accepted(features, pairs, block_size, min_distance, threshold, b[k]));
        lemma_accepted_is_wf(features, pairs, block_size, min_distance, threshold, a[i]);
        lemma_accepted_is_wf(features, pairs, block_size, min_distance, threshold, b[k]);
        if same_rank(b[k], a[i]) {
            lemma_score_determined(b[k].similarity, a[i].similarity);
            assert(b[k] == a[i]);
        }
        assert(precedes(b[k], a[i]));
        if a.contains(b[k]) {
            let j = choose|j: int| 0 <= j < a.len() && a[j] == b[k];
            if j < i {
                assert(!conflicts(a[j], a[i]));
            } else if j > i {
                assert(precedes(a[i], a[j]));
            }
            assert(false);
        }
        assert(beaten(a, b[k]));
        let j = choose|j: int|
            0 <= j < a.len() && conflicts(#[trigger] a[j], b[k]) && (precedes(a[j], b[k])
                || same_rank(a[j], b[k]));
        assert(accepted(features, pairs, block_size, min_distance, threshold, a[j]));
        lemma_accepted_is_wf(features, pairs, block_size, min_distance, threshold, a[j]);
        if same_rank(a[j], b[k]) {
            lemma_score_determined(a[j].similarity, b[k].similarity);
            assert(a[j] == b[k]);
        }
        assert(precedes(a[j], a[i]));
        if j >= i {
            if j > i {
                assert(precedes(a[i], a[j]));
            }
            assert(false);
        }
        lemma_choice_member(a, b, features, pairs, block_size, min_distance, threshold, j);
        let m = choose|m: int| 0 <= m < b.len() && b[m] == a[j];
        if m < k {
            assert(!conflicts(b[m], b[k]));
        } else if m > k {
            assert(!conflicts(b[k], b[m]));
        }
        assert(false);
    }
}

proof fn lemma_choice_prefix(
    a: Seq<MatchPair>,
    b: Seq<MatchPair>,
    features: Seq<BlockFeature>,
    pairs: Seq<ScoredPair>,
    block_size: u32,
    min_distance: int,
    threshold: int,
    n: int,
)
    requires
        is_greedy_choice(a, features, pairs, block_size, min_distance, threshold),
        is_greedy_choice(b, features, pairs, block_size, min_distance, threshold),
        0 <= n <= a.len(),
    ensures
        n <= b.len(),
        forall|i: int| 0 <= i < n ==> a[i] == b[i],
    decreases n,
{
    if n > 0 {
        let i = n - 1;
        lemma_choice_prefix(a, b, features, pairs, block_size, min_distance, threshold, i);
        lemma_choice_member(a, b, features, pairs, block_size, min_distance, threshold, i);
        let m = choose|m: int| 0 <= m < b.len() && b[m] == a[i];
        if m < i {
            assert(precedes(a[m], a[i]));
            assert(false);
        }
        if m > i {
            lemma_choice_member(b, a, features, pairs, block_size, min_distance, threshold, i);
            let t = choose|t: int| 0 <= t < a.len() && a[t] == b[i];
            assert(precedes(b[i], b[m]));
            if t < i {
                assert(precedes(b[t], b[i]));
            } else if t > i {
                assert(precedes(a[i], a[t]));
            }
            assert(false);
        }
    }
}

/// The greedy choice is determined by the blocks, the scored pairs and the
/// configuration: two greedy choices are the same sequence.
pub proof fn greedy_choice_is_unique(
    a: Seq<MatchPair>,
    b: Seq<MatchPair>,
    features: Seq<BlockFeature>,
    pairs: Seq<ScoredPair>,
    block_size: u32,
    min_distance: int,
    threshold: int,
)
    requires
        is_greedy_choice(a, features, pairs, block_size, min_distance, threshold),
        is_greedy_choice(b, features, pairs, block_size, min_distance, threshold),
    ensures
        a == b,
{
    lemma_choice_prefix(a, b, features, pairs, block_size, min_distance, threshold, a.len() as int);
    lemma_choice_prefix(b, a, features, pairs, block_size, min_distance, threshold, b.len() as int);
    assert(a =~= b);
}

/// `result` is what the detector reports of an image of the given size,
/// given the features of its blocks and the scored pairs: the greedy choice
/// among the accepted matches, each of two different blocks of the block
/// size at least the minimum distance apart and of a similarity that
/// reaches the threshold, inside the image when the blocks of the features
/// are, with the mean similarity as the confidence, which is at most one.
pub open spec fn is_detection(
    result: CopyMoveResult,
    detector: CopyMoveDetector,
    width: int,
    height: int,
    features: Seq<BlockFeature>,
    pairs: Seq<ScoredPair>,
) -> bool {
    let block_size = detector.spec_block_size();
    let min_distance = detector.spec_min_distance() as int;
    let threshold = detector.spec_similarity_threshold()@;
    &&& is_greedy_choice(result.matches@, features, pairs, block_size, min_distance, threshold)
    &&& forall|k: int|
        0 <= k < result.matches@.len() ==> match_wf(
            #[trigger] result.matches@[k],
            block_size,
            min_distance,
        ) && threshold <= result.matches@[k].similarity@
    &&& (forall|i: int|
        0 <= i < features.len() ==> (#[trigger] features[i]).x + block_size <= width
            && features[i].y + block_size <= height) ==> (forall|k: int|
        0 <= k < result.matches@.len() ==> (#[trigger] result.matches@[k]).source.within(
            width,
            height,
        ) && result.matches@[k].target.within(width, height))
    &&& result.confidence@ == mean_ppm(similarities(result.matches@))
    &&& 0 <= result.confidence@ <= 1_000_000
}

/// What the detector reports is determined by its input: two detections on
/// one image size, the same features and the same scored pairs hold the
/// same matches in the same order and the same confidence.
pub proof fn detection_is_determined(
    a: CopyMoveResult,
    b: CopyMoveResult,
    detector: CopyMoveDetector,
    width: int,
    height: int,
    features: Seq<BlockFeature>,
    pairs: Seq<ScoredPair>,
)
    requires
        is_detection(a, detector, width, height, features, pairs),
        is_detection(b, detector, width, height, features, pairs),
    ensures
        a.matches@ == b.matches@,
        a.confidence@ == b.confidence@,
{
    greedy_choice_is_unique(
        a.matches@,
        b.matches@,
        features,
        pairs,
        detector.spec_block_size(),
        detector.spec_min_distance() as int,
        detector.spec_similarity_threshold()@,
    );
}

/// The order in which the scored pairs are given does not matter: the
/// greedy choices among two lists that hold the same pairs are the same
/// sequence.
pub proof fn matches_ignore_pair_order(
    a: Seq<MatchPair>,
    b: Seq<MatchPair>,
    features: Seq<BlockFeature>,
    first: Seq<ScoredPair>,
    second: Seq<ScoredPair>,
    block_size: u32,
    min_distance: int,
    threshold: int,
)
    requires
        forall|p: ScoredPair| first.contains(p) <==> second.contains(p),
        is_greedy_choice(a, features, first, block_size, min_distance, threshold),
        is_greedy_choice(b, features, second, block_size, min_distance, threshold),
    ensures
        a == b,
{
    assert forall|m: MatchPair| #[trigger]
        accepted(features, second, block_size, min_distance, threshold, m) implies accepted(
        features,
        first,
        block_size,
        min_distance,
        threshold,
        m,
    ) by {
        lemma_accepted_elsewhere(features, second, first, block_size, min_distance, threshold, m);
    }
    assert forall|m: MatchPair| #[trigger]
        accepted(features, first, block_size, min_distance, threshold, m) implies accepted(
        features,
        second,
        block_size,
        min_distance,
        threshold,
        m,
    ) by {
        lemma_accepted_elsewhere(features, first, second, block_size, min_distance, threshold, m);
    }
    assert(is_greedy_choice(b, features, first, block_size, min_distance, threshold));
    greedy_choice_is_unique(a, b, features, first, block_size, min_distance, threshold);
}

/// A match accepted from one list of pairs is accepted from any list that
/// holds those pairs.
proof fn lemma_accepted_elsewhere(
    features: Seq<BlockFeature>,
    from: Seq<ScoredPair>,
    to: Seq<ScoredPair>,
    block_size: u32,
    min_distance: int,
    threshold: int,
    m: MatchPair,
)
    requires
        forall|p: ScoredPair| from.contains(p) ==> to.contains(p),
        accepted(features, from, block_size, min_distance, threshold, m),
    ensures
        accepted(features, to, block_size, min_distance, threshold, m),
{
    let k = choose|k: int|
        0 <= k < from.len() && is_candidate(
            features,
            (#[trigger] from[k]).first as int,
            from[k].second as int,
            min_distance,
        ) && from[k].similarity@ >= threshold && m == match_of(features, from[k], block_size);
    assert(from.contains(from[k]));
    let j = choose|j: int| 0 <= j < to.len() && to[j] == from[k];
    assert(to[j].first == from[k].first);
}

/// Twice the column of the center of a region.
pub open spec fn center_x2(r: SRegion) -> int {
    2 * r.x + r.width
}

/// Twice the row of the center of a region.
pub open spec fn center_y2(r: SRegion) -> int {
    2 * r.y + r.height
}

/// The square of the Euclidean distance between the centers of two regions
/// of one size.
pub open spec fn center_distance_squared(a: SRegion, b: SRegion) -> int {
    ((center_x2(a) - center_x2(b)) * (center_x2(a) - center_x2(b)) + (center_y2(a) - center_y2(b))
        * (center_y2(a) - center_y2(b))) / 4
}

/// The centers of the two blocks of a reported match are at least the
/// minimum distance apart: the squared distance between them is at least the
/// square of the minimum distance.
pub proof fn matches_keep_their_distance(
    out: Seq<MatchPair>,
    features: Seq<BlockFeature>,
    pairs: Seq<ScoredPair>,
    block_size: u32,
    min_distance: int,
    threshold: int,
    k: int,
)
    requires
        is_greedy_choice(out, features, pairs, block_size, min_distance, threshold),
        0 <= k < out.len(),
    ensures
        center_distance_squared(out[k].source, out[k].target) >= min_distance * min_distance,
{
    lemma_accepted_is_wf(features, pairs, block_size, min_distance, threshold, out[k]);
    let s = out[k].source;
    let t = out[k].target;
    let dx = s.x - t.x;
    let dy = s.y - t.y;
    assert((2 * dx) * (2 * dx) + (2 * dy) * (2 * dy) == 4 * (dx * dx + dy * dy))
        by (nonlinear_arith);
    assert(center_x2(s) - center_x2(t) == 2 * dx);
    assert(center_y2(s) - center_y2(t) == 2 * dy);
}

/// The blocks of a reported match lie inside the image when the blocks of
/// the features do.
pub proof fn matches_stay_within(
    out: Seq<MatchPair>,
    features: Seq<BlockFeature>,
    pairs: Seq<ScoredPair>,
    block_size: u32,
    min_distance: int,
    threshold: int,
    width: int,
    height: int,
)
    requires
        is_greedy_choice(out, features, pairs, block_size, min_distance, threshold),
        block_size > 0,
        forall|i: int|
            0 <= i < features.len() ==> (#[trigger] features[i]).x + block_size <= width
                && features[i].y + block_size <= height,
    ensures
        forall|k: int|
            0 <= k < out.len() ==> (#[trigger] out[k]).source.within(width, height)
                && out[k].target.within(width, height),
{
    assert forall|k: int| 0 <= k < out.len() implies (#[trigger] out[k]).source.within(
        width,
        height,
    ) && out[k].target.within(width, height) by {
        assert(accepted(features, pairs, block_size, min_distance, threshold, out[k]));
    }
}

/// The blocks at the positions of the grid lie inside the image.
pub proof fn grid_blocks_stay_within(
    positions: Seq<(u32, u32)>,
    width: int,
    height: int,
    block_size: int,
    k: int,
)
    requires
        2 <= block_size,
        block_size <= width,
        block_size <= height,
        is_grid(positions, width - block_size, height - block_size, block_size / 2),
        0 <= k < positions.len(),
    ensures
        positions[k].0 + block_size <= width,
        positions[k].1 + block_size <= height,
{
    let step = block_size / 2;
    let nx = steps_below(width - block_size, step);
    let ny = steps_below(height - block_size, step);
    assert(nx >= 0 && ny >= 0) by {
        if width - block_size > 0 {
            assert(0 <= (width - block_size - 1) / step) by (nonlinear_arith)
                requires
                    0 <= width - block_size - 1,
                    0 < step,
            ;
        }
        if height - block_size > 0 {
            assert(0 <= (height - block_size - 1) / step) by (nonlinear_arith)
                requires
                    0 <= height - block_size - 1,
                    0 < step,
            ;
        }
    }
    crate::raster::lemma_position_of_offset(k, nx, ny);
    let i = k % nx;
    let j = k / nx;
    assert(positions[j * nx + i].0 == i * step);
    lemma_step_in_range(i, width - block_size, step);
    lemma_step_in_range(j, height - block_size, step);
}

} // verus!
