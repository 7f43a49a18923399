//! Scores, confidences and probabilities as fixed-point fractions of one.

use vstd::prelude::*;

verus! {

/// The fixed-point value of one: scores count millionths.
pub const SCORE_ONE: u32 = 1_000_000;

/// A score in `[0, 1]`, held in millionths.
#[derive(Debug, Clone, Copy, PartialEq, Eq, Structural)]
pub struct Score {
    ppm: u32,
}

impl View for Score {
    type V = int;

    /// The score in millionths.
    closed spec fn view(&self) -> int {
        self.ppm as int
    }
}

/// The number of whole millionths in `numerator / denominator`, capped at one.
pub open spec fn ratio_ppm(numerator: int, denominator: int) -> int {
    if denominator <= 0 {
        0
    } else if numerator >= denominator {
        SCORE_ONE as int
    } else {
        (numerator * SCORE_ONE) / denominator
    }
}

/// The mean of the scores of `s` in millionths, rounded down; zero for the
/// empty sequence.
pub open spec fn mean_ppm(s: Seq<Score>) -> int {
    if s.len() == 0 {
        0
    } else {
        total_ppm(s) / (s.len() as int)
    }
}

/// The sum of the scores of `s` in millionths.
pub open spec fn total_ppm(s: Seq<Score>) -> int
    decreases s.len(),
{
    if s.len() == 0 {
        0
    } else {
        total_ppm(s.drop_last()) + s.last()@
    }
}

/// A sum of scores is at most one per score.
pub proof fn lemma_total_bound(s: Seq<Score>)
    requires
        forall|i: int| 0 <= i < s.len() ==> 0 <= (#[trigger] s[i])@ <= SCORE_ONE,
    ensures
        0 <= total_ppm(s) <= s.len() * SCORE_ONE,
    decreases s.len(),
{
    if s.len() > 0 {
        lemma_total_bound(s.drop_last());
        assert(s.len() * SCORE_ONE == (s.len() - 1) * SCORE_ONE + SCORE_ONE) by (nonlinear_arith);
    }
}

/// Two scores of the same number of millionths are the same score.
pub proof fn lemma_score_determined(a: Score, b: Score)
    requires
        a@ == b@,
    ensures
        a == b,
{
}

impl Score {
    #[verifier::type_invariant]
    spec fn inv(self) -> bool {
        self.ppm <= SCORE_ONE
    }

    /// The score zero.
    pub fn zero() -> (s: Score)
        ensures
            s@ == 0,
    {
        Score { ppm: 0 }
    }

    /// The score one.
    pub fn one() -> (s: Score)
        ensures
            s@ == SCORE_ONE,
    {
        Score { ppm: SCORE_ONE }
    }

    /// The score of `ppm` millionths, or `None` above one.
    pub fn from_ppm(ppm: u32) -> (s: Option<Score>)
        ensures
            s is Some <==> ppm <= SCORE_ONE,
            s matches Some(v) ==> v@ == ppm,
    {
        if ppm <= SCORE_ONE {
            Some(Score { ppm })
        } else {
            None
        }
    }

    /// The score of `ppm` millionths, capped at one.
    pub fn saturating(ppm: u32) -> (s: Score)
        ensures
            s@ == if ppm <= SCORE_ONE { ppm as int } else { SCORE_ONE as int },
    {
        if ppm <= SCORE_ONE {
            Score { ppm }
        } else {
            Score { ppm: SCORE_ONE }
        }
    }

    /// The fraction `numerator / denominator` in whole millionths, capped at
    /// one; zero when the denominator is zero.
    pub fn from_ratio(numerator: u64, denominator: u64) -> (s: Score)
        ensures
            s@ == ratio_ppm(numerator as int, denominator as int),
    {
        if denominator == 0 {
            Score { ppm: 0 }
        } else if numerator >= denominator {
            Score { ppm: SCORE_ONE }
        } else {
            assert(numerator * SCORE_ONE <= 0xFFFF_FFFF_FFFF_FFFF * 1_000_000) by (nonlinear_arith)
                requires
                    numerator <= 0xFFFF_FFFF_FFFF_FFFF,
                    SCORE_ONE == 1_000_000,
            ;
            let scaled: u128 = (numerator as u128) * (SCORE_ONE as u128);
            let q: u128 = scaled / (denominator as u128);
            assert(q < SCORE_ONE) by (nonlinear_arith)
                requires
                    q == (numerator * SCORE_ONE) / (denominator as int),
                    0 <= numerator < denominator,
            ;
            Score { ppm: q as u32 }
        }
    }

    /// The score in millionths.
    pub fn ppm(&self) -> (v: u32)
        ensures
            v == self@,
            0 <= self@ <= SCORE_ONE,
    {
        proof {
            use_type_invariant(self);
        }
        self.ppm
    }

    /// The distance from one.
    pub fn complement(&self) -> (s: Score)
        ensures
            s@ == SCORE_ONE - self@,
    {
        proof {
            use_type_invariant(self);
        }
        Score { ppm: SCORE_ONE - self.ppm }
    }

    /// The larger of the two scores.
    pub fn max(self, other: Score) -> (s: Score)
        ensures
            s@ == if self@ >= other@ { self@ } else { other@ },
    {
        if self.ppm >= other.ppm {
            self
        } else {
            other
        }
    }
}

/// The mean of the given scores, rounded down to a millionth; zero when
/// there are none.
pub fn mean_score(scores: &Vec<Score>) -> (m: Score)
    ensures
        m@ == mean_ppm(scores@),
{
    let n = scores.len();
    if n == 0 {
        return Score::zero();
    }
    let mut total: u128 = 0;
    let mut i: usize = 0;
    assert(scores@.take(0) =~= Seq::<Score>::empty());
    while i < n
        invariant
            0 <= i <= n,
            n == scores@.len(),
            total == total_ppm(scores@.take(i as int)),
            total <= i * SCORE_ONE,
        decreases n - i,
    {
        let v = scores[i].ppm();
        proof {
            assert(scores@.take(i + 1).drop_last() =~= scores@.take(i as int));
            assert(scores@.take(i + 1).last() == scores@[i as int]);
            assert((i + 1) * SCORE_ONE == i * SCORE_ONE + SCORE_ONE) by (nonlinear_arith);
            assert(i * SCORE_ONE <= 0xFFFF_FFFF_FFFF_FFFF * 1_000_000) by (nonlinear_arith)
                requires
                    i <= 0xFFFF_FFFF_FFFF_FFFF,
                    SCORE_ONE == 1_000_000,
            ;
        }
        total = total + v as u128;
        i += 1;
    }
    assert(scores@.take(n as int) =~= scores@);
    let mean: u128 = total / (n as u128);
    assert(mean <= SCORE_ONE) by (nonlinear_arith)
        requires
            mean == total as int / n as int,
            total <= n * SCORE_ONE,
            n > 0,
    ;
    Score { ppm: mean as u32 }
}

} // verus!
