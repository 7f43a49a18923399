//! The composite tampering detector: what its parts found, put together as
//! one list of manipulations.

use vstd::prelude::*;
use vstd::string::StringExecFns;
use crate::analysis::copy_move::MatchPair;
use crate::detection::{DetectedManipulation, DetectionResult, ManipulationType};
use crate::error::ForensicsError;
use crate::raster::RgbRaster;
use crate::region::SRegion;
use crate::score::Score;
use crate::text::{decimal, decimal_string, texts};

verus! {

/// A region that stands out, with the score of how much.
#[derive(Debug, Clone, Copy, PartialEq, Eq, Structural)]
pub struct Anomaly {
    pub region: SRegion,
    pub score: Score,
}

/// A share given in millionths as a percentage with one decimal, rounded to
/// the nearest tenth.
pub open spec fn percent_text(ppm: int) -> Seq<char> {
    let tenths = (ppm + 500) / 1000;
    decimal((tenths / 10) as nat) + "."@ + decimal((tenths % 10) as nat) + "%"@
}

/// A share as a percentage with one decimal.
pub fn percent_string(share: Score) -> (s: String)
    ensures
        s@ == percent_text(share@),
{
    let tenths: u64 = (share.ppm() as u64 + 500) / 1000;
    decimal_string(tenths / 10).concat(".").concat(decimal_string(tenths % 10).as_str()).concat("%")
}

/// What is reported of the source of a copy-move match.
pub open spec fn is_source_report(m: DetectedManipulation, pair: MatchPair) -> bool {
    &&& m.wf()
    &&& m.manipulation_type == ManipulationType::CopyMove
    &&& m.region == pair.source
    &&& m.confidence == pair.similarity
    &&& m.description@ == "Copy-move detected: region copied from ("@ + decimal(
        pair.source.x as nat,
    ) + ", "@ + decimal(pair.source.y as nat) + ") to ("@ + decimal(pair.target.x as nat) + ", "@
        + decimal(pair.target.y as nat) + ")"@
    &&& texts(m.evidence@) == seq!["Similarity: "@ + percent_text(pair.similarity@)]
}

/// What is reported of the target of a copy-move match.
pub open spec fn is_target_report(m: DetectedManipulation, pair: MatchPair) -> bool {
    &&& m.wf()
    &&& m.manipulation_type == ManipulationType::CopyMove
    &&& m.region == pair.target
    &&& m.confidence == pair.similarity
    &&& m.description@ == "Copy-move target region"@
    &&& m.evidence@.len() == 0
}

/// What is reported of a retouching anomaly, under the given description
/// and evidence.
pub open spec fn is_retouching_report(
    m: DetectedManipulation,
    a: Anomaly,
    description: Seq<char>,
    evidence: Seq<char>,
) -> bool {
    &&& m.wf()
    &&& m.manipulation_type == ManipulationType::Retouching
    &&& m.region == a.region
    &&& m.confidence == a.score
    &&& m.description@ == description
    &&& texts(m.evidence@) == seq![evidence]
}

/// What is reported of a double compression with the given likelihood in an
/// image of the given size.
pub open spec fn is_compression_report(
    m: DetectedManipulation,
    likelihood: Score,
    quality: u8,
    width: u32,
    height: u32,
) -> bool {
    &&& m.wf()
    &&& m.manipulation_type == ManipulationType::Unknown
    &&& m.region == (SRegion { x: 0, y: 0, width, height })
    &&& m.confidence == likelihood
    &&& m.description@ == "Image shows signs of double JPEG compression"@
    &&& texts(m.evidence@) == seq![
        "Estimated quality: "@ + decimal(quality as nat),
        "Double compression likelihood: "@ + percent_text(likelihood@),
    ]
}

/// The report of the source of a copy-move match.
pub fn source_report(pair: &MatchPair) -> (m: DetectedManipulation)
    ensures
        is_source_report(m, *pair),
{
    let description = String::from_str("Copy-move detected: region copied from (").concat(
        decimal_string(pair.source.x as u64).as_str(),
    ).concat(", ").concat(decimal_string(pair.source.y as u64).as_str()).concat(") to (").concat(
        decimal_string(pair.target.x as u64).as_str(),
    ).concat(", ").concat(decimal_string(pair.target.y as u64).as_str()).concat(")");
    let mut evidence: Vec<String> = Vec::new();
    evidence.push(String::from_str("Similarity: ").concat(percent_string(pair.similarity).as_str()));
    assert(texts(evidence@) =~= seq!["Similarity: "@ + percent_text(pair.similarity@)]);
    DetectedManipulation::new(
        ManipulationType::CopyMove,
        pair.source,
        pair.similarity,
        description,
        evidence,
    )
}

/// The report of the target of a copy-move match.
pub fn target_report(pair: &MatchPair) -> (m: DetectedManipulation)
    ensures
        is_target_report(m, *pair),
{
    DetectedManipulation::new(
        ManipulationType::CopyMove,
        pair.target,
        pair.similarity,
        String::from_str("Copy-move target region"),
        Vec::new(),
    )
}

/// The report of a texture anomaly.
pub fn texture_report(a: &Anomaly) -> (m: DetectedManipulation)
    ensures
        is_retouching_report(
            m,
            *a,
            "Texture inconsistency suggesting retouching"@,
            "Abnormal texture pattern"@,
        ),
{
    let mut evidence: Vec<String> = Vec::new();
    evidence.push(String::from_str("Abnormal texture pattern"));
    assert(texts(evidence@) =~= seq!["Abnormal texture pattern"@]);
    DetectedManipulation::new(
        ManipulationType::Retouching,
        a.region,
        a.score,
        String::from_str("Texture inconsistency suggesting retouching"),
        evidence,
    )
}

/// The report of a blur anomaly.
pub fn blur_report(a: &Anomaly) -> (m: DetectedManipulation)
    ensures
        is_retouching_report(
            m,
            *a,
            "Blur inconsistency suggesting retouching"@,
            "Abnormal blur pattern"@,
        ),
{
    let mut evidence: Vec<String> = Vec::new();
    evidence.push(String::from_str("Abnormal blur pattern"));
    assert(texts(evidence@) =~= seq!["Abnormal blur pattern"@]);
    DetectedManipulation::new(
        ManipulationType::Retouching,
        a.region,
        a.score,
        String::from_str("Blur inconsistency suggesting retouching"),
        evidence,
    )
}

/// The report of a double compression.
pub fn compression_report(likelihood: Score, quality: u8, width: u32, height: u32) -> (m:
    DetectedManipulation)
    ensures
        is_compression_report(m, likelihood, quality, width, height),
{
    let mut evidence: Vec<String> = Vec::new();
    evidence.push(
        String::from_str("Estimated quality: ").concat(decimal_string(quality as u64).as_str()),
    );
    evidence.push(
        String::from_str("Double compression likelihood: ").concat(
            percent_string(likelihood).as_str(),
        ),
    );
    assert(texts(evidence@) =~= seq![
        "Estimated quality: "@ + decimal(quality as nat),
        "Double compression likelihood: "@ + percent_text(likelihood@),
    ]);
    DetectedManipulation::new(
        ManipulationType::Unknown,
        SRegion { x: 0, y: 0, width, height },
        likelihood,
        String::from_str("Image shows signs of double JPEG compression"),
        evidence,
    )
}

/// The anomalies of `anomalies` whose score reaches `min_confidence`, in
/// order.
pub open spec fn confident(anomalies: Seq<Anomaly>, min_confidence: Score) -> Seq<Anomaly>
    decreases anomalies.len(),
{
    if anomalies.len() == 0 {
        Seq::empty()
    } else {
        let rest = confident(anomalies.drop_last(), min_confidence);
        if anomalies.last().score@ >= min_confidence@ {
            rest.push(anomalies.last())
        } else {
            rest
        }
    }
}

/// The double compression counts: its likelihood is above 0.6.
pub open spec fn compression_counts(likelihood: Score) -> bool {
    likelihood@ > 600_000
}

/// What the parts of the tampering detector found in one image. A part that
/// was switched off found nothing.
#[derive(Debug)]
pub struct TamperingFindings {
    pub matches: Vec<MatchPair>,
    pub splices: Vec<DetectedManipulation>,
    pub texture_anomalies: Vec<Anomaly>,
    pub blur_anomalies: Vec<Anomaly>,
    pub double_compression_likelihood: Score,
    pub quality_estimate: u8,
}

/// The manipulations of `ms` are the reports of the findings, in the order
/// copy-move (source then target of each match), splices, texture
/// anomalies, blur anomalies, double compression.
pub open spec fn is_report_of(
    ms: Seq<DetectedManipulation>,
    f: TamperingFindings,
    min_confidence: Score,
    width: u32,
    height: u32,
) -> bool {
    let n_matches = f.matches@.len() as int;
    let n_splices = f.splices@.len() as int;
    let texture = confident(f.texture_anomalies@, min_confidence);
    let blur = confident(f.blur_anomalies@, min_confidence);
    let base_splices = 2 * n_matches;
    let base_texture = base_splices + n_splices;
    let base_blur = base_texture + texture.len();
    let base_compression = base_blur + blur.len();
    &&& ms.len() == base_compression + if compression_counts(f.double_compression_likelihood) {
        1int
    } else {
        0int
    }
    &&& forall|k: int|
        0 <= k < n_matches ==> is_source_report(#[trigger] ms[2 * k], f.matches@[k])
            && is_target_report(ms[2 * k + 1], f.matches@[k])
    &&& forall|k: int| 0 <= k < n_splices ==> #[trigger] ms[base_splices + k] == f.splices@[k]
    &&& forall|k: int|
        0 <= k < texture.len() ==> is_retouching_report(
            #[trigger] ms[base_texture + k],
            texture[k],
            "Texture inconsistency suggesting retouching"@,
            "Abnormal texture pattern"@,
        )
    &&& forall|k: int|
        0 <= k < blur.len() ==> is_retouching_report(
            #[trigger] ms[base_blur + k],
            blur[k],
            "Blur inconsistency suggesting retouching"@,
            "Abnormal blur pattern"@,
        )
    &&& compression_counts(f.double_compression_likelihood) ==> is_compression_report(
        ms[base_compression],
        f.double_compression_likelihood,
        f.quality_estimate,
        width,
        height,
    )
}

/// Adds the reports of the anomalies that reach the confidence to the
/// result.
fn add_anomalies(
    result: &mut DetectionResult,
    anomalies: &Vec<Anomaly>,
    min_confidence: Score,
    blur: bool,
)
    requires
        old(result).consistent(),
    ensures
        final(result).consistent(),
        final(result).visualization == old(result).visualization,
        final(result).manipulations@.len() == old(result).manipulations@.len() + confident(
            anomalies@,
            min_confidence,
        ).len(),
        forall|k: int|
            0 <= k < old(result).manipulations@.len() ==> #[trigger] final(result).manipulations@[k]
                == old(result).manipulations@[k],
        forall|k: int|
            0 <= k < confident(anomalies@, min_confidence).len() ==> is_retouching_report(
                #[trigger] final(result).manipulations@[old(result).manipulations@.len() + k],
                confident(anomalies@, min_confidence)[k],
                if blur {
                    "Blur inconsistency suggesting retouching"@
                } else {
                    "Texture inconsistency suggesting retouching"@
                },
                if blur {
                    "Abnormal blur pattern"@
                } else {
                    "Abnormal texture pattern"@
                },
            ),
{
    let ghost start = result.manipulations@;
    let ghost base = start.len() as int;
    let threshold = min_confidence.ppm();
    let n = anomalies.len();
    let mut i: usize = 0;
    assert(anomalies@.take(0) =~= Seq::<Anomaly>::empty());
    while i < n
        invariant
            0 <= i <= n,
            n == anomalies@.len(),
            threshold == min_confidence@,
            base == start.len(),
            result.consistent(),
            result.visualization == old(result).visualization,
            result.manipulations@.len() == base + confident(
                anomalies@.take(i as int),
                min_confidence,
            ).len(),
            forall|k: int| 0 <= k < base ==> #[trigger] result.manipulations@[k] == start[k],
            forall|k: int|
                0 <= k < confident(anomalies@.take(i as int), min_confidence).len()
                    ==> is_retouching_report(
                    #[trigger] result.manipulations@[base + k],
                    confident(anomalies@.take(i as int), min_confidence)[k],
                    if blur {
                        "Blur inconsistency suggesting retouching"@
                    } else {
                        "Texture inconsistency suggesting retouching"@
                    },
                    if blur {
                        "Abnormal blur pattern"@
                    } else {
                        "Abnormal texture pattern"@
                    },
                ),
        decreases n - i,
    {
        proof {
            assert(anomalies@.take(i + 1).drop_last() =~= anomalies@.take(i as int));
            assert(anomalies@.take(i + 1).last() == anomalies@[i as int]);
        }
        let a = anomalies[i];
        if a.score.ppm() >= threshold {
            let ghost before = result.manipulations@;
            let m = if blur { blur_report(&a) } else { texture_report(&a) };
            result.add_manipulation(m);
            proof {
                let shorter = confident(anomalies@.take(i as int), min_confidence);
                let longer = confident(anomalies@.take(i + 1), min_confidence);
                assert(longer == shorter.push(a));
                assert forall|k: int| 0 <= k < longer.len() implies is_retouching_report(
                    #[trigger] result.manipulations@[base + k],
                    longer[k],
                    if blur {
                        "Blur inconsistency suggesting retouching"@
                    } else {
                        "Texture inconsistency suggesting retouching"@
                    },
                    if blur {
                        "Abnormal blur pattern"@
                    } else {
                        "Abnormal texture pattern"@
                    },
                ) by {
                    if k < shorter.len() {
                        assert(result.manipulations@[base + k] == before[base + k]);
                        assert(longer[k] == shorter[k]);
                    }
                }
                assert forall|k: int| 0 <= k < base implies #[trigger] result.manipulations@[k]
                    == start[k] by {
                    assert(result.manipulations@[k] == before[k]);
                }
            }
        }
        i += 1;
    }
    assert(anomalies@.take(n as int) =~= anomalies@);
}

/// Puts the findings together as the result of the detection over `image`.
/// The overall score is the mean confidence of the reported manipulations.
pub fn assemble(image: &RgbRaster, findings: TamperingFindings, min_confidence: Score) -> (result:
    DetectionResult)
    ensures
        result.consistent(),
        result.visualization@ == image@,
        is_report_of(
            result.manipulations@,
            findings,
            min_confidence,
            image@.width as u32,
            image@.height as u32,
        ),
{
    let (width, height) = image.dimensions();
    let mut result = DetectionResult::new(image);
    let ghost given = findings;
    let TamperingFindings {
        matches,
        splices,
        texture_anomalies,
        blur_anomalies,
        double_compression_likelihood,
        quality_estimate,
    } = findings;
    let mut splices = splices;
    let n_matches = matches.len();
    let mut i: usize = 0;
    while i < n_matches
        invariant
            0 <= i <= n_matches,
            n_matches == matches@.len(),
            result.consistent(),
            result.visualization@ == image@,
            result.manipulations@.len() == 2 * i,
            forall|k: int|
                0 <= k < i ==> is_source_report(
                    #[trigger] result.manipulations@[2 * k],
                    matches@[k],
                ) && is_target_report(result.manipulations@[2 * k + 1], matches@[k]),
        decreases n_matches - i,
    {
        let pair = matches[i];
        let ghost before = result.manipulations@;
        result.add_manipulation(source_report(&pair));
        result.add_manipulation(target_report(&pair));
        proof {
            assert forall|k: int| 0 <= k < i + 1 implies is_source_report(
                #[trigger] result.manipulations@[2 * k],
                matches@[k],
            ) && is_target_report(result.manipulations@[2 * k + 1], matches@[k]) by {
                if k < i {
                    assert(result.manipulations@[2 * k] == before[2 * k]);
                    assert(result.manipulations@[2 * k + 1] == before[2 * k + 1]);
                }
            }
        }
        i += 1;
    }
    let ghost after_matches = result.manipulations@;
    let n_splices = splices.len();
    let mut j: usize = 0;
    assert(splices@ =~= given.splices@.subrange(0, n_splices as int));
    while j < n_splices
        invariant
            0 <= j <= n_splices,
            n_splices == given.splices@.len(),
            splices@ == given.splices@.subrange(j as int, n_splices as int),
            n_matches == matches@.len(),
            result.consistent(),
            result.visualization@ == image@,
            after_matches.len() == 2 * n_matches,
            result.manipulations@.len() == 2 * n_matches + j,
            forall|k: int|
                0 <= k < 2 * n_matches ==> #[trigger] result.manipulations@[k] == after_matches[k],
            forall|k: int|
                0 <= k < j ==> #[trigger] result.manipulations@[2 * n_matches + k]
                    == given.splices@[k],
        decreases n_splices - j,
    {
        let ghost before = result.manipulations@;
        let ghost rest = splices@;
        let splice = splices.remove(0);
        assert(splice == given.splices@[j as int]) by {
            assert(rest[0] == given.splices@[j as int]);
        }
        assert(splices@ =~= given.splices@.subrange(j + 1, n_splices as int));
        result.add_manipulation(splice);
        proof {
            assert forall|k: int| 0 <= k < 2 * n_matches implies #[trigger] result.manipulations@[k]
                == after_matches[k] by {
                assert(result.manipulations@[k] == before[k]);
            }
            assert forall|k: int| 0 <= k < j + 1 implies #[trigger] result.manipulations@[2
                * n_matches + k] == given.splices@[k] by {
                if k < j {
                    assert(result.manipulations@[2 * n_matches + k] == before[2 * n_matches + k]);
                }
            }
        }
        j += 1;
    }
    let ghost after_splices = result.manipulations@;
    add_anomalies(&mut result, &texture_anomalies, min_confidence, false);
    let ghost after_texture = result.manipulations@;
    add_anomalies(&mut result, &blur_anomalies, min_confidence, true);
    let ghost after_blur = result.manipulations@;
    if double_compression_likelihood.ppm() > 600_000 {
        result.add_manipulation(
            compression_report(
                double_compression_likelihood,
                quality_estimate,
                width,
                height,
            ),
        );
    }
    proof {
        let ms = result.manipulations@;
        let texture = confident(texture_anomalies@, min_confidence);
        let blur = confident(blur_anomalies@, min_confidence);
        let base_splices = 2 * n_matches as int;
        let base_texture = base_splices + n_splices;
        let base_blur = base_texture + texture.len();
        assert forall|k: int| 0 <= k < after_blur.len() implies ms[k] == after_blur[k] by {}
        assert forall|k: int| 0 <= k < after_texture.len() implies ms[k] == after_texture[k] by {
            assert(after_blur[k] == after_texture[k]);
        }
        assert forall|k: int| 0 <= k < after_splices.len() implies ms[k] == after_splices[k] by {
            assert(after_texture[k] == after_splices[k]);
        }
        assert forall|k: int| 0 <= k < n_matches implies is_source_report(
            #[trigger] ms[2 * k],
            matches@[k],
        ) && is_target_report(ms[2 * k + 1], matches@[k]) by {
            assert(after_splices[2 * k] == after_matches[2 * k]);
            assert(after_splices[2 * k + 1] == after_matches[2 * k + 1]);
        }
        assert forall|k: int| 0 <= k < n_splices implies #[trigger] ms[base_splices + k]
            == given.splices@[k] by {
            assert(after_splices[2 * n_matches + k] == given.splices@[k]);
        }
        assert forall|k: int| 0 <= k < texture.len() implies is_retouching_report(
            #[trigger] ms[base_texture + k],
            texture[k],
            "Texture inconsistency suggesting retouching"@,
            "Abnormal texture pattern"@,
        ) by {
            assert(ms[base_texture + k] == after_texture[after_splices.len() + k]);
        }
        assert forall|k: int| 0 <= k < blur.len() implies is_retouching_report(
            #[trigger] ms[base_blur + k],
            blur[k],
            "Blur inconsistency suggesting retouching"@,
            "Abnormal blur pattern"@,
        ) by {
            assert(ms[base_blur + k] == after_blur[after_texture.len() + k]);
        }
    }
    result
}

/// What one part of the detector came to: it was switched off, it found
/// something, or it failed.
#[derive(Debug)]
pub enum PartOutcome<T> {
    Off,
    Found(T),
    Failed(ForensicsError),
}

/// The first failure among the parts, in the order copy-move, splicing,
/// retouching, double compression.
pub open spec fn first_failure(
    copy_move: PartOutcome<Vec<MatchPair>>,
    splices: PartOutcome<Vec<DetectedManipulation>>,
    retouching: PartOutcome<(Vec<Anomaly>, Vec<Anomaly>)>,
    compression: PartOutcome<(Score, u8)>,
) -> Option<ForensicsError> {
    if let PartOutcome::Failed(e) = copy_move {
        Some(e)
    } else if let PartOutcome::Failed(e) = splices {
        Some(e)
    } else if let PartOutcome::Failed(e) = retouching {
        Some(e)
    } else if let PartOutcome::Failed(e) = compression {
        Some(e)
    } else {
        None
    }
}

/// Every part that ran failed, and at least one ran.
pub open spec fn all_failed(
    copy_move: PartOutcome<Vec<MatchPair>>,
    splices: PartOutcome<Vec<DetectedManipulation>>,
    retouching: PartOutcome<(Vec<Anomaly>, Vec<Anomaly>)>,
    compression: PartOutcome<(Score, u8)>,
) -> bool {
    &&& !(copy_move is Found) && !(splices is Found) && !(retouching is Found) && !(compression is Found)
    &&& first_failure(copy_move, splices, retouching, compression) is Some
}

/// The findings are those of the parts that found something; a part that
/// was off or failed counts as one that found nothing.
pub open spec fn is_findings_of(
    f: TamperingFindings,
    copy_move: PartOutcome<Vec<MatchPair>>,
    splices: PartOutcome<Vec<DetectedManipulation>>,
    retouching: PartOutcome<(Vec<Anomaly>, Vec<Anomaly>)>,
    compression: PartOutcome<(Score, u8)>,
) -> bool {
    &&& f.matches@ == match copy_move {
        PartOutcome::Found(m) => m@,
        _ => Seq::<MatchPair>::empty(),
    }
    &&& f.splices@ == match splices {
        PartOutcome::Found(m) => m@,
        _ => Seq::<DetectedManipulation>::empty(),
    }
    &&& f.texture_anomalies@ == match retouching {
        PartOutcome::Found(a) => a.0@,
        _ => Seq::<Anomaly>::empty(),
    }
    &&& f.blur_anomalies@ == match retouching {
        PartOutcome::Found(a) => a.1@,
        _ => Seq::<Anomaly>::empty(),
    }
    &&& match compression {
        PartOutcome::Found(c) => f.double_compression_likelihood == c.0 && f.quality_estimate == c.1,
        _ => f.double_compression_likelihood@ == 0 && f.quality_estimate == 0,
    }
}

/// The manipulations are the reports of the findings of the parts that
/// found something.
pub open spec fn is_fused_report(
    ms: Seq<DetectedManipulation>,
    copy_move: PartOutcome<Vec<MatchPair>>,
    splices: PartOutcome<Vec<DetectedManipulation>>,
    retouching: PartOutcome<(Vec<Anomaly>, Vec<Anomaly>)>,
    compression: PartOutcome<(Score, u8)>,
    min_confidence: Score,
    width: u32,
    height: u32,
) -> bool {
    exists|f: TamperingFindings| #[trigger]
        is_findings_of(f, copy_move, splices, retouching, compression) && is_report_of(
            ms,
            f,
            min_confidence,
            width,
            height,
        )
}

/// Puts together what the parts of the detector came to. A part that failed
/// counts as one that found nothing; when every part that ran failed, the
/// first failure is the result.
pub fn fuse(
    image: &RgbRaster,
    copy_move: PartOutcome<Vec<MatchPair>>,
    splices: PartOutcome<Vec<DetectedManipulation>>,
    retouching: PartOutcome<(Vec<Anomaly>, Vec<Anomaly>)>,
    compression: PartOutcome<(Score, u8)>,
    min_confidence: Score,
) -> (r: Result<DetectionResult, ForensicsError>)
    ensures
        all_failed(copy_move, splices, retouching, compression) ==> r == Err::<
            DetectionResult,
            ForensicsError,
        >(first_failure(copy_move, splices, retouching, compression)->Some_0),
        !all_failed(copy_move, splices, retouching, compression) ==> (r matches Ok(result)
            && result.consistent() && result.visualization@ == image@ && is_fused_report(
            result.manipulations@,
            copy_move,
            splices,
            retouching,
            compression,
            min_confidence,
            image@.width as u32,
            image@.height as u32,
        )),
{
    let mut failure: Option<ForensicsError> = None;
    let mut any_found = false;
    let matches = match copy_move {
        PartOutcome::Found(m) => {
            any_found = true;
            m
        },
        PartOutcome::Failed(e) => {
            failure = Some(e);
            Vec::new()
        },
        PartOutcome::Off => Vec::new(),
    };
    let found_splices = match splices {
        PartOutcome::Found(m) => {
            any_found = true;
            m
        },
        PartOutcome::Failed(e) => {
            failure = keep_first(failure, e);
            Vec::new()
        },
        PartOutcome::Off => Vec::new(),
    };
    let (texture_anomalies, blur_anomalies) = match retouching {
        PartOutcome::Found(a) => {
            any_found = true;
            a
        },
        PartOutcome::Failed(e) => {
            failure = keep_first(failure, e);
            (Vec::new(), Vec::new())
        },
        PartOutcome::Off => (Vec::new(), Vec::new()),
    };
    let (double_compression_likelihood, quality_estimate) = match compression {
        PartOutcome::Found(c) => {
            any_found = true;
            c
        },
        PartOutcome::Failed(e) => {
            failure = keep_first(failure, e);
            (Score::zero(), 0u8)
        },
        PartOutcome::Off => (Score::zero(), 0u8),
    };
    assert(failure == first_failure(copy_move, splices, retouching, compression));
    if !any_found {
        match failure {
            Some(e) => {
                return Err(e);
            },
            None => {},
        }
    }
    let findings = TamperingFindings {
        matches,
        splices: found_splices,
        texture_anomalies,
        blur_anomalies,
        double_compression_likelihood,
        quality_estimate,
    };
    let ghost given = findings;
    let result = assemble(image, findings, min_confidence);
    proof {
        assert(is_findings_of(given, copy_move, splices, retouching, compression));
    }
    Ok(result)
}

/// The earlier failure, or the new one when there is none.
fn keep_first(earlier: Option<ForensicsError>, e: ForensicsError) -> (r: Option<ForensicsError>)
    ensures
        r == if earlier is Some {
            earlier
        } else {
            Some(e)
        },
{
    match earlier {
        Some(first) => Some(first),
        None => Some(e),
    }
}

} // verus!
