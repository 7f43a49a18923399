//! Fusion of the splicing signals: a colour-suspicious region counts when
//! another signal overlaps it; the regions that count are merged where they
//! overlap, and the merged regions that are large enough are reported.

use vstd::prelude::*;
use vstd::string::StringExecFns;
use crate::analysis::ela::{evidence_from, is_ela_evidence, too_large, ElaEvidence};
use crate::analysis::jpeg_analysis::{recompress, valid_quality};
use crate::analysis::noise::{is_noise_result, NoiseAnalyzer, NoiseResult};
use crate::detection::signals::{
    analyze_color_consistency,
    departing_are_blocks,
    departing_of,
    find_unnatural_edges,
    regular_of,
};
use crate::detection::{DetectedManipulation, DetectionResult, Detector, ManipulationType};
use crate::error::ForensicsError;
use crate::grid::{tiling, tiling_stays_within};
use crate::image_utils::{edge_map_of, gradient_magnitude_map, gray_of, rgb_to_gray};
use crate::raster::{Rgb, RgbRaster, RgbView};
use crate::report::visualization::{draw_region_border, framed};
use crate::merging::{
    all_nonempty,
    all_wf,
    all_within,
    is_merge_of,
    lemma_earlier_witness,
    merge_overlapping_regions,
    merged_regions_stay_within,
};
use crate::region::SRegion;
use crate::score::Score;
use crate::text::{decimal, decimal_string, texts};

verus! {

/// A suspicious region with the score of the signals that speak for it.
#[derive(Debug, Clone, Copy, PartialEq, Eq, Structural)]
pub struct Detection {
    pub region: SRegion,
    pub score: Score,
}

/// The regions of the given detections, in order.
pub open spec fn regions_of(ds: Seq<Detection>) -> Seq<SRegion> {
    Seq::new(ds.len(), |i: int| ds[i].region)
}

/// `r` overlaps some region of `regions`.
pub open spec fn overlaps_any(r: SRegion, regions: Seq<SRegion>) -> bool {
    exists|i: int| 0 <= i < regions.len() && r.overlaps(#[trigger] regions[i])
}

/// Whether `r` overlaps some region of `regions`.
pub fn overlaps_some(r: &SRegion, regions: &Vec<SRegion>) -> (b: bool)
    ensures
        b == overlaps_any(*r, regions@),
{
    let mut i: usize = 0;
    while i < regions.len()
        invariant
            0 <= i <= regions@.len(),
            forall|k: int| 0 <= k < i ==> !r.overlaps(#[trigger] regions@[k]),
        decreases regions@.len() - i,
    {
        if r.regions_overlap(&regions[i]) {
            return true;
        }
        i += 1;
    }
    false
}

/// How many of the edge, noise and ELA signals have a region that overlaps
/// `r`.
pub open spec fn corroboration(
    r: SRegion,
    edge: Seq<SRegion>,
    noise: Seq<SRegion>,
    ela: Seq<SRegion>,
) -> int {
    (if overlaps_any(r, edge) {
        1int
    } else {
        0int
    }) + (if overlaps_any(r, noise) {
        1int
    } else {
        0int
    }) + (if overlaps_any(r, ela) {
        1int
    } else {
        0int
    })
}

/// The score of a colour-suspicious region in millionths: a quarter for the
/// colour signal and a quarter for each signal that corroborates it.
pub open spec fn fused_ppm(
    r: SRegion,
    edge: Seq<SRegion>,
    noise: Seq<SRegion>,
    ela: Seq<SRegion>,
) -> int {
    250_000 * (1 + corroboration(r, edge, noise, ela))
}

/// The colour-suspicious region `r` counts at the given level: it has a
/// pixel and representable edges, and exactly `level` signals corroborate
/// it.
pub open spec fn counts_at(
    r: SRegion,
    edge: Seq<SRegion>,
    noise: Seq<SRegion>,
    ela: Seq<SRegion>,
    level: int,
) -> bool {
    r.wf() && r.width > 0 && r.height > 0 && corroboration(r, edge, noise, ela) == level
}

/// The colour-suspicious regions that count at the given level, in order.
pub open spec fn level_regions(
    color: Seq<SRegion>,
    edge: Seq<SRegion>,
    noise: Seq<SRegion>,
    ela: Seq<SRegion>,
    level: int,
) -> Seq<SRegion>
    decreases color.len(),
{
    if color.len() == 0 {
        Seq::empty()
    } else {
        let rest = level_regions(color.drop_last(), edge, noise, ela, level);
        if counts_at(color.last(), edge, noise, ela, level) {
            rest.push(color.last())
        } else {
            rest
        }
    }
}

/// The colour-suspicious regions with at least two signals in all, by
/// falling score and, at one score, in their given order.
pub open spec fn candidate_regions(
    color: Seq<SRegion>,
    edge: Seq<SRegion>,
    noise: Seq<SRegion>,
    ela: Seq<SRegion>,
) -> Seq<SRegion> {
    level_regions(color, edge, noise, ela, 3) + level_regions(color, edge, noise, ela, 2)
        + level_regions(color, edge, noise, ela, 1)
}

/// The score of the cluster `c` is the highest among the detections of `ds`
/// that lie inside it.
pub open spec fn is_best_score(c: Detection, ds: Seq<Detection>) -> bool {
    &&& exists|i: int|
        0 <= i < ds.len() && c.region.contains((#[trigger] ds[i]).region) && ds[i].score@
            == c.score@
    &&& forall|i: int|
        0 <= i < ds.len() && c.region.contains((#[trigger] ds[i]).region) ==> ds[i].score@
            <= c.score@
}

/// The detections of `ds` whose region has at least `min_region_size`
/// pixels, in order.
pub open spec fn large_ones(ds: Seq<Detection>, min_region_size: int) -> Seq<Detection>
    decreases ds.len(),
{
    if ds.len() == 0 {
        Seq::empty()
    } else {
        let rest = large_ones(ds.drop_last(), min_region_size);
        if ds.last().region.area() >= min_region_size {
            rest.push(ds.last())
        } else {
            rest
        }
    }
}

/// The steps of the fusion: the regions that count with their scores, the
/// clusters they merge into, and the clusters that are large enough.
#[derive(Debug, Clone)]
pub struct SplicingFusion {
    pub candidates: Vec<Detection>,
    pub clusters: Vec<Detection>,
    pub detections: Vec<Detection>,
}

/// The colour-suspicious regions that count at one level, with their score.
fn collect_level(
    color: &Vec<SRegion>,
    edge: &Vec<SRegion>,
    noise: &Vec<SRegion>,
    ela: &Vec<SRegion>,
    level: u8,
    out: &mut Vec<Detection>,
)
    requires
        1 <= level <= 3,
        all_wf(regions_of(old(out)@)),
        all_nonempty(regions_of(old(out)@)),
        forall|i: int|
            0 <= i < old(out)@.len() ==> (#[trigger] old(out)@[i]).score@ == fused_ppm(
                old(out)@[i].region,
                edge@,
                noise@,
                ela@,
            ),
    ensures
        regions_of(final(out)@) == regions_of(old(out)@) + level_regions(
            color@,
            edge@,
            noise@,
            ela@,
            level as int,
        ),
        all_wf(regions_of(final(out)@)),
        all_nonempty(regions_of(final(out)@)),
        forall|i: int|
            0 <= i < final(out)@.len() ==> (#[trigger] final(out)@[i]).score@ == fused_ppm(
                final(out)@[i].region,
                edge@,
                noise@,
                ela@,
            ),
{
    let ghost start = regions_of(out@);
    let mut i: usize = 0;
    assert(color@.take(0) =~= Seq::<SRegion>::empty());
    assert(regions_of(out@) =~= start + level_regions(color@.take(0), edge@, noise@, ela@, level as int));
    while i < color.len()
        invariant
            0 <= i <= color@.len(),
            1 <= level <= 3,
            regions_of(out@) == start + level_regions(
                color@.take(i as int),
                edge@,
                noise@,
                ela@,
                level as int,
            ),
            all_wf(regions_of(out@)),
            all_nonempty(regions_of(out@)),
            forall|k: int|
                0 <= k < out@.len() ==> (#[trigger] out@[k]).score@ == fused_ppm(
                    out@[k].region,
                    edge@,
                    noise@,
                    ela@,
                ),
        decreases color@.len() - i,
    {
        proof {
            assert(color@.take(i + 1).drop_last() =~= color@.take(i as int));
            assert(color@.take(i + 1).last() == color@[i as int]);
        }
        let r = color[i];
        if r.is_wf() && r.width > 0 && r.height > 0 {
            let mut found: u8 = 0;
            if overlaps_some(&r, edge) {
                found = found + 1;
            }
            if overlaps_some(&r, noise) {
                found = found + 1;
            }
            if overlaps_some(&r, ela) {
                found = found + 1;
            }
            if found == level {
                let ghost before = out@;
                let score = Score::saturating(250_000 * (1 + found as u32));
                out.push(Detection { region: r, score });
                proof {
                    assert(regions_of(out@) =~= regions_of(before).push(r));
                    assert forall|k: int| 0 <= k < out@.len() implies (#[trigger] out@[k]).score@
                        == fused_ppm(out@[k].region, edge@, noise@, ela@) by {
                        if k < before.len() {
                            assert(out@[k] == before[k]);
                        }
                    }
                    assert forall|k: int| 0 <= k < regions_of(out@).len() implies (
                    #[trigger] regions_of(out@)[k]).wf() && regions_of(out@)[k].width > 0
                        && regions_of(out@)[k].height > 0 by {
                        if k < before.len() {
                            assert(regions_of(out@)[k] == regions_of(before)[k]);
                        }
                    }
                }
            }
        }
        proof {
            assert(regions_of(out@) =~= start + level_regions(
                color@.take(i + 1),
                edge@,
                noise@,
                ela@,
                level as int,
            ));
        }
        i += 1;
    }
    assert(color@.take(color@.len() as int) =~= color@);
}

/// Merges the detections whose regions overlap. A cluster takes the highest
/// score of the detections inside it; the clusters come in the order in
/// which the detections first reach them.
pub fn merge_overlapping_detections(detections: &Vec<Detection>) -> (clusters: Vec<Detection>)
    requires
        all_wf(regions_of(detections@)),
        all_nonempty(regions_of(detections@)),
    ensures
        is_merge_of(regions_of(clusters@), regions_of(detections@), -1),
        forall|j: int| 0 <= j < clusters@.len() ==> is_best_score(#[trigger] clusters@[j], detections@),
{
    let n = detections.len();
    let mut regions: Vec<SRegion> = Vec::new();
    let mut i: usize = 0;
    while i < n
        invariant
            0 <= i <= n,
            n == detections@.len(),
            regions@.len() == i,
            forall|k: int| 0 <= k < i ==> regions@[k] == detections@[k].region,
        decreases n - i,
    {
        regions.push(detections[i].region);
        i += 1;
    }
    assert(regions@ =~= regions_of(detections@));
    let merged = merge_overlapping_regions(&regions);
    let mut clusters: Vec<Detection> = Vec::new();
    let mut j: usize = 0;
    while j < merged.len()
        invariant
            0 <= j <= merged@.len(),
            n == detections@.len(),
            regions@ == regions_of(detections@),
            is_merge_of(merged@, regions@, -1),
            clusters@.len() == j,
            forall|k: int| 0 <= k < j ==> (#[trigger] clusters@[k]).region == merged@[k],
            forall|k: int| 0 <= k < j ==> is_best_score(#[trigger] clusters@[k], detections@),
        decreases merged@.len() - j,
    {
        let m = merged[j];
        let mut best = Score::zero();
        let mut found = false;
        let mut k: usize = 0;
        while k < n
            invariant
                0 <= k <= n,
                n == detections@.len(),
                found ==> exists|t: int|
                    0 <= t < k && m.contains((#[trigger] detections@[t]).region)
                        && detections@[t].score@ == best@,
                !found ==> forall|t: int|
                    0 <= t < k ==> !m.contains((#[trigger] detections@[t]).region),
                forall|t: int|
                    0 <= t < k && m.contains((#[trigger] detections@[t]).region)
                        ==> detections@[t].score@ <= best@,
            decreases n - k,
        {
            let d = detections[k];
            if m.x <= d.region.x && m.y <= d.region.y && d.region.x as u64 + d.region.width as u64
                <= m.x as u64 + m.width as u64 && d.region.y as u64 + d.region.height as u64
                <= m.y as u64 + m.height as u64 {
                if !found || d.score.ppm() > best.ppm() {
                    best = d.score;
                }
                found = true;
            }
            k += 1;
        }
        proof {
            let q = lemma_earlier_witness(m, regions@, regions@.len() as int);
            assert(m.contains(detections@[q].region));
        }
        let ghost before = clusters@;
        clusters.push(Detection { region: m, score: best });
        proof {
            assert forall|t: int| 0 <= t < j + 1 implies is_best_score(
                #[trigger] clusters@[t],
                detections@,
            ) by {
                if t < j {
                    assert(clusters@[t] == before[t]);
                }
            }
        }
        j += 1;
    }
    assert(regions_of(clusters@) =~= merged@);
    clusters
}

/// The detections whose region has at least `min_region_size` pixels.
pub fn keep_large(detections: &Vec<Detection>, min_region_size: u32) -> (out: Vec<Detection>)
    ensures
        out@ == large_ones(detections@, min_region_size as int),
{
    let n = detections.len();
    let mut out: Vec<Detection> = Vec::new();
    let mut i: usize = 0;
    assert(detections@.take(0) =~= Seq::<Detection>::empty());
    while i < n
        invariant
            0 <= i <= n,
            n == detections@.len(),
            out@ == large_ones(detections@.take(i as int), min_region_size as int),
        decreases n - i,
    {
        proof {
            assert(detections@.take(i + 1).drop_last() =~= detections@.take(i as int));
            assert(detections@.take(i + 1).last() == detections@[i as int]);
        }
        let d = detections[i];
        assert(d.region.width * d.region.height <= 0xFFFF_FFFF * 0xFFFF_FFFF) by (nonlinear_arith)
            requires
                d.region.width <= 0xFFFF_FFFF,
                d.region.height <= 0xFFFF_FFFF,
        ;
        let area: u64 = (d.region.width as u64) * (d.region.height as u64);
        if area >= min_region_size as u64 {
            out.push(d);
        }
        i += 1;
    }
    assert(detections@.take(n as int) =~= detections@);
    out
}

/// `fusion` is the fusion of the four signals.
pub open spec fn is_fusion_of(
    fusion: SplicingFusion,
    color: Seq<SRegion>,
    edge: Seq<SRegion>,
    noise: Seq<SRegion>,
    ela: Seq<SRegion>,
    min_region_size: int,
) -> bool {
    &&& regions_of(fusion.candidates@) == candidate_regions(color, edge, noise, ela)
    &&& forall|i: int|
        0 <= i < fusion.candidates@.len() ==> (#[trigger] fusion.candidates@[i]).score@
            == fused_ppm(fusion.candidates@[i].region, edge, noise, ela)
    &&& is_merge_of(regions_of(fusion.clusters@), regions_of(fusion.candidates@), -1)
    &&& forall|j: int|
        0 <= j < fusion.clusters@.len() ==> is_best_score(
            #[trigger] fusion.clusters@[j],
            fusion.candidates@,
        )
    &&& fusion.detections@ == large_ones(fusion.clusters@, min_region_size)
}

/// Fuses the four signals: the colour-suspicious regions that another
/// signal corroborates, ordered by score, are merged where they overlap, and
/// the merged regions of at least `min_region_size` pixels are kept.
pub fn combine_analyses(
    color: &Vec<SRegion>,
    edge: &Vec<SRegion>,
    noise: &Vec<SRegion>,
    ela: &Vec<SRegion>,
    min_region_size: u32,
) -> (fusion: SplicingFusion)
    ensures
        is_fusion_of(fusion, color@, edge@, noise@, ela@, min_region_size as int),
{
    let mut candidates: Vec<Detection> = Vec::new();
    assert(regions_of(candidates@) =~= Seq::<SRegion>::empty());
    collect_level(color, edge, noise, ela, 3, &mut candidates);
    collect_level(color, edge, noise, ela, 2, &mut candidates);
    collect_level(color, edge, noise, ela, 1, &mut candidates);
    assert(regions_of(candidates@) =~= candidate_regions(color@, edge@, noise@, ela@));
    let clusters = merge_overlapping_detections(&candidates);
    let detections = keep_large(&clusters, min_region_size);
    SplicingFusion { candidates, clusters, detections }
}

/// The signals that overlap `r`, by name and in the order colour, edge,
/// noise, ELA.
pub open spec fn evidence_of(
    r: SRegion,
    color: Seq<SRegion>,
    edge: Seq<SRegion>,
    noise: Seq<SRegion>,
    ela: Seq<SRegion>,
) -> Seq<Seq<char>> {
    (if overlaps_any(r, color) {
        seq!["Color histogram inconsistency"@]
    } else {
        Seq::<Seq<char>>::empty()
    }) + (if overlaps_any(r, edge) {
        seq!["Unnatural edge patterns"@]
    } else {
        Seq::<Seq<char>>::empty()
    }) + (if overlaps_any(r, noise) {
        seq!["Noise pattern mismatch"@]
    } else {
        Seq::<Seq<char>>::empty()
    }) + (if overlaps_any(r, ela) {
        seq!["ELA inconsistency"@]
    } else {
        Seq::<Seq<char>>::empty()
    })
}

/// The description of a spliced region.
pub open spec fn splice_description(r: SRegion) -> Seq<char> {
    "Potential spliced region at ("@ + decimal(r.x as nat) + ", "@ + decimal(r.y as nat)
        + ") with "@ + decimal(r.width as nat) + "x"@ + decimal(r.height as nat) + " size"@
}

/// `m` is what the detection `d` is reported as.
pub open spec fn is_splice_report(
    m: DetectedManipulation,
    d: Detection,
    color: Seq<SRegion>,
    edge: Seq<SRegion>,
    noise: Seq<SRegion>,
    ela: Seq<SRegion>,
) -> bool {
    &&& m.wf()
    &&& m.manipulation_type == ManipulationType::Splicing
    &&& m.region == d.region
    &&& m.confidence == d.score
    &&& m.description@ == splice_description(d.region)
    &&& texts(m.evidence@) == evidence_of(d.region, color, edge, noise, ela)
}

/// The manipulation that a detection of the fusion is reported as.
pub fn splicing_manipulation(
    d: &Detection,
    color: &Vec<SRegion>,
    edge: &Vec<SRegion>,
    noise: &Vec<SRegion>,
    ela: &Vec<SRegion>,
) -> (m: DetectedManipulation)
    ensures
        is_splice_report(m, *d, color@, edge@, noise@, ela@),
{
    let r = d.region;
    let mut evidence: Vec<String> = Vec::new();
    if overlaps_some(&r, color) {
        evidence.push(String::from_str("Color histogram inconsistency"));
    }
    if overlaps_some(&r, edge) {
        evidence.push(String::from_str("Unnatural edge patterns"));
    }
    if overlaps_some(&r, noise) {
        evidence.push(String::from_str("Noise pattern mismatch"));
    }
    if overlaps_some(&r, ela) {
        evidence.push(String::from_str("ELA inconsistency"));
    }
    assert(texts(evidence@) =~= evidence_of(r, color@, edge@, noise@, ela@));
    let description = String::from_str("Potential spliced region at (").concat(
        decimal_string(r.x as u64).as_str(),
    ).concat(", ").concat(decimal_string(r.y as u64).as_str()).concat(") with ").concat(
        decimal_string(r.width as u64).as_str(),
    ).concat("x").concat(decimal_string(r.height as u64).as_str()).concat(" size");
    DetectedManipulation::new(ManipulationType::Splicing, r, d.score, description, evidence)
}

/// The configuration of the splicing detector.
#[derive(Debug, Clone, Copy)]
pub struct SplicingConfig {
    pub block_size: u32,
    pub color_sensitivity: Score,
    pub noise_sensitivity: Score,
    pub edge_sensitivity: Score,
    pub min_region_size: u32,
    pub ela_quality: u8,
}

impl Default for SplicingConfig {
    fn default() -> (c: SplicingConfig)
        ensures
            c.block_size == 16,
            c.color_sensitivity@ == 500_000,
            c.noise_sensitivity@ == 500_000,
            c.edge_sensitivity@ == 500_000,
            c.min_region_size == 100,
            c.ela_quality == 95,
    {
        SplicingConfig {
            block_size: 16,
            color_sensitivity: Score::saturating(500_000),
            noise_sensitivity: Score::saturating(500_000),
            edge_sensitivity: Score::saturating(500_000),
            min_region_size: 100,
            ela_quality: 95,
        }
    }
}

/// The colour in which a detection of the given score is framed.
pub open spec fn splice_color(ppm: int) -> Rgb {
    let intensity = (ppm * 255) / 1_000_000;
    Rgb { r: intensity as u8, g: (255 - intensity / 2) as u8, b: 0 }
}

/// The image with a frame of thickness 2 around each of the first `k`
/// detections.
pub open spec fn overlay_of(v: RgbView, detections: Seq<Detection>, k: int) -> RgbView
    decreases k,
{
    if k <= 0 {
        v
    } else {
        framed(
            overlay_of(v, detections, k - 1),
            detections[k - 1].region,
            splice_color(detections[k - 1].score@),
            2,
        )
    }
}

/// What the splicing detector finds in one image: the regions of the four
/// signals, their fusion, and the detection result.
#[derive(Debug)]
pub struct SplicingReport {
    pub color_regions: Vec<SRegion>,
    pub edge_regions: Vec<SRegion>,
    pub noise: NoiseResult,
    pub ela: ElaEvidence,
    pub fusion: SplicingFusion,
    pub result: DetectionResult,
}

/// `report` is what the detector with the given configuration finds in the
/// image, once the error level analysis has found `report.ela`.
pub open spec fn is_splicing_report(report: SplicingReport, v: RgbView, config: SplicingConfig) -> bool {
    let blocks = tiling(v.width as int, v.height as int, config.block_size as int);
    let noise = report.noise.anomalous_regions@;
    let ela = report.ela.suspicious_regions@;
    &&& report.color_regions@ == departing_of(v, blocks, config.color_sensitivity@)
    &&& report.edge_regions@ == regular_of(edge_map_of(gray_of(v)), blocks)
    &&& is_noise_result(report.noise, gray_of(v), 16)
    &&& is_ela_evidence(report.ela, v, 10_000)
    &&& is_fusion_of(
        report.fusion,
        report.color_regions@,
        report.edge_regions@,
        noise,
        ela,
        config.min_region_size as int,
    )
    &&& report.result.consistent()
    &&& report.result.manipulations@.len() == report.fusion.detections@.len()
    &&& forall|k: int|
        0 <= k < report.fusion.detections@.len() ==> is_splice_report(
            #[trigger] report.result.manipulations@[k],
            report.fusion.detections@[k],
            report.color_regions@,
            report.edge_regions@,
            noise,
            ela,
        )
    &&& report.result.visualization@ == overlay_of(
        v,
        report.fusion.detections@,
        report.fusion.detections@.len() as int,
    )
}

/// The splicing detector.
#[derive(Debug, Clone, Copy)]
pub struct SplicingDetector {
    config: SplicingConfig,
}

impl Default for SplicingDetector {
    fn default() -> (d: SplicingDetector)
        ensures
            d.config().block_size == 16,
            d.config().min_region_size == 100,
            d.config().ela_quality == 95,
    {
        SplicingDetector::new()
    }
}

impl Detector for SplicingDetector {
    fn detect(&self, image: &RgbRaster) -> (r: Result<DetectionResult, ForensicsError>)
        ensures
            self.config().block_size == 0 || !valid_quality(self.config().ela_quality) ==> r matches Err(
                ForensicsError::InvalidParameter(_),
            ),
            self.config().block_size >= 1 && valid_quality(self.config().ela_quality) ==> !(r matches Err(
                ForensicsError::InvalidParameter(_),
            )),
            self.config().block_size >= 1 && valid_quality(self.config().ela_quality) && too_large(
                image@,
            ) ==> (r matches Err(ForensicsError::AnalysisFailed(msg)) && msg@
                == "Image is too large"@),
            r matches Ok(result) ==> result.consistent() && exists|report: SplicingReport|
                report.result == result && #[trigger] is_splicing_report(
                    report,
                    image@,
                    self.config(),
                ),
    {
        match self.analyze(image) {
            Ok(report) => {
                proof {
                    assert(is_splicing_report(report, image@, self.config()));
                }
                Ok(report.result)
            },
            Err(e) => Err(e),
        }
    }

    fn name(&self) -> (name: &str)
        ensures
            name@ == "Splicing Detector"@,
    {
        "Splicing Detector"
    }

    fn description(&self) -> (text: &str)
        ensures
            text@
                == "Detects regions that appear to be spliced from another image using color histogram analysis, edge detection, noise analysis, and ELA"@,
    {
        "Detects regions that appear to be spliced from another image using color histogram analysis, edge detection, noise analysis, and ELA"
    }
}

impl SplicingDetector {
    /// The configuration of the detector.
    pub closed spec fn config(&self) -> SplicingConfig {
        self.config
    }

    /// The detector with the default configuration.
    pub fn new() -> (d: SplicingDetector)
        ensures
            d.config().block_size == 16,
            d.config().color_sensitivity@ == 500_000,
            d.config().min_region_size == 100,
            d.config().ela_quality == 95,
    {
        SplicingDetector { config: SplicingConfig::default() }
    }

    /// The detector with the given configuration.
    pub fn with_config(config: SplicingConfig) -> (d: SplicingDetector)
        ensures
            d.config() == config,
    {
        SplicingDetector { config }
    }

    /// Looks for spliced regions: the image is recompressed at the error
    /// level quality and the report is made from the recompression. A block
    /// size of zero, an error level quality outside `1..=100` and an image
    /// with a side above 65535 are rejected before the codec is called.
    pub fn analyze(&self, image: &RgbRaster) -> (r: Result<SplicingReport, ForensicsError>)
        ensures
            self.config().block_size == 0 ==> (r matches Err(ForensicsError::InvalidParameter(msg))
                && msg@ == "Block size must be positive"@),
            self.config().block_size >= 1 && !valid_quality(self.config().ela_quality) ==> (r matches Err(
                ForensicsError::InvalidParameter(msg),
            ) && msg@ == "JPEG quality must be between 1 and 100"@),
            self.config().block_size >= 1 && valid_quality(self.config().ela_quality) ==> !(r matches Err(
                ForensicsError::InvalidParameter(_),
            )),
            self.config().block_size >= 1 && valid_quality(self.config().ela_quality) && (too_large(
                image@,
            ) || image@.width * image@.height > 0x1_0000_0000) ==> (r matches Err(
                ForensicsError::AnalysisFailed(msg),
            ) && msg@ == "Image is too large"@),
            self.config().block_size >= 1 && valid_quality(self.config().ela_quality) && !too_large(
                image@,
            ) ==> (r is Ok || r matches Err(ForensicsError::ImageDecode(_)) || (r matches Err(
                ForensicsError::AnalysisFailed(msg),
            ) && msg@ == "Recompressed image has another size"@)),
            r matches Ok(report) ==> is_splicing_report(report, image@, self.config()),
    {
        let config = self.config;
        if config.block_size == 0 {
            return Err(ForensicsError::InvalidParameter("Block size must be positive".to_owned()));
        }
        if config.ela_quality < 1 || config.ela_quality > 100 {
            return Err(
                ForensicsError::InvalidParameter(
                    "JPEG quality must be between 1 and 100".to_owned(),
                ),
            );
        }
        let (width, height) = image.dimensions();
        if width > 65535 || height > 65535 {
            return Err(ForensicsError::AnalysisFailed("Image is too large".to_owned()));
        }
        assert(width * height <= 0x1_0000_0000) by (nonlinear_arith)
            requires
                0 <= width <= 65535,
                0 <= height <= 65535,
        ;
        match recompress(image, config.ela_quality) {
            Ok(recompressed) => self.report_from(image, recompressed),
            Err(e) => Err(e),
        }
    }

    /// What the detector finds in an image, given its recompression at the
    /// error level quality: the colour, edge, noise and error level signals
    /// are computed and fused, and each detection of the fusion is reported
    /// as a manipulation and framed in the overlay. A block size of zero and
    /// an image with a side above 65535 are rejected.
    pub fn report_from(&self, image: &RgbRaster, recompressed: RgbRaster) -> (r: Result<
        SplicingReport,
        ForensicsError,
    >)
        requires
            recompressed@.width == image@.width,
            recompressed@.height == image@.height,
        ensures
            self.config().block_size == 0 ==> (r matches Err(ForensicsError::InvalidParameter(msg))
                && msg@ == "Block size must be positive"@),
            self.config().block_size >= 1 && too_large(image@) ==> (r matches Err(
                ForensicsError::AnalysisFailed(msg),
            ) && msg@ == "Image is too large"@),
            self.config().block_size >= 1 && !too_large(image@) ==> (r matches Ok(report)
                && report.ela.recompressed@ == recompressed@ && is_splicing_report(
                report,
                image@,
                self.config(),
            )),
    {
        let config = self.config;
        proof {
            if !too_large(image@) {
                assert(image@.width * image@.height <= 0x1_0000_0000) by (nonlinear_arith)
                    requires
                        0 <= image@.width <= 65535,
                        0 <= image@.height <= 65535,
                ;
            }
        }
        let colour = match analyze_color_consistency(
            image,
            config.block_size,
            config.color_sensitivity,
        ) {
            Ok(colour) => colour,
            Err(e) => {
                return Err(e);
            },
        };
        let color_regions = colour.suspicious_regions;
        let gray = rgb_to_gray(image);
        let edge_map = gradient_magnitude_map(&gray);
        let edge_regions = find_unnatural_edges(&edge_map, config.block_size);
        let noise = match NoiseAnalyzer::new().analyze(image) {
            Ok(noise) => noise,
            Err(e) => {
                return Err(e);
            },
        };
        let ela = match evidence_from(image, recompressed, 10_000) {
            Ok(ela) => ela,
            Err(e) => {
                return Err(e);
            },
        };
        let fusion = combine_analyses(
            &color_regions,
            &edge_regions,
            &noise.anomalous_regions,
            &ela.suspicious_regions,
            config.min_region_size,
        );
        let mut result = DetectionResult::new(image);
        let n = fusion.detections.len();
        let mut overlay = image.duplicate();
        let mut k: usize = 0;
        while k < n
            invariant
                0 <= k <= n,
                n == fusion.detections@.len(),
                result.consistent(),
                result.manipulations@.len() == k,
                forall|j: int|
                    0 <= j < k ==> is_splice_report(
                        #[trigger] result.manipulations@[j],
                        fusion.detections@[j],
                        color_regions@,
                        edge_regions@,
                        noise.anomalous_regions@,
                        ela.suspicious_regions@,
                    ),
                overlay@ == overlay_of(image@, fusion.detections@, k as int),
            decreases n - k,
        {
            let d = fusion.detections[k];
            let ghost before = result.manipulations@;
            result.add_manipulation(
                splicing_manipulation(
                    &d,
                    &color_regions,
                    &edge_regions,
                    &noise.anomalous_regions,
                    &ela.suspicious_regions,
                ),
            );
            proof {
                assert forall|j: int| 0 <= j < k + 1 implies is_splice_report(
                    #[trigger] result.manipulations@[j],
                    fusion.detections@[j],
                    color_regions@,
                    edge_regions@,
                    noise.anomalous_regions@,
                    ela.suspicious_regions@,
                ) by {
                    if j < k {
                        assert(result.manipulations@[j] == before[j]);
                    }
                }
            }
            let ppm: u64 = d.score.ppm() as u64;
            let intensity: u64 = (ppm * 255) / 1_000_000;
            let color = Rgb { r: intensity as u8, g: (255 - intensity / 2) as u8, b: 0 };
            overlay = draw_region_border(&overlay, &d.region, color, 2);
            k += 1;
        }
        result.visualization = overlay;
        Ok(
            SplicingReport { color_regions, edge_regions, noise, ela, fusion, result },
        )
    }
}

/// A region that counts at some level is one of the colour regions.
proof fn lemma_level_regions_are_colour(
    color: Seq<SRegion>,
    edge: Seq<SRegion>,
    noise: Seq<SRegion>,
    ela: Seq<SRegion>,
    level: int,
    k: int,
)
    requires
        0 <= k < level_regions(color, edge, noise, ela, level).len(),
    ensures
        color.contains(level_regions(color, edge, noise, ela, level)[k]),
    decreases color.len(),
{
    if color.len() > 0 {
        let rest = level_regions(color.drop_last(), edge, noise, ela, level);
        if k < rest.len() {
            lemma_level_regions_are_colour(color.drop_last(), edge, noise, ela, level, k);
            let j = choose|j: int| 0 <= j < color.drop_last().len() && color.drop_last()[j] == rest[k];
            assert(color[j] == rest[k]);
        } else {
            assert(color[color.len() - 1] == color.last());
        }
    }
}

/// A detection that is large enough is one of the clusters.
proof fn lemma_large_ones_are_clusters(ds: Seq<Detection>, min_region_size: int, k: int)
    requires
        0 <= k < large_ones(ds, min_region_size).len(),
    ensures
        ds.contains(large_ones(ds, min_region_size)[k]),
    decreases ds.len(),
{
    if ds.len() > 0 {
        let rest = large_ones(ds.drop_last(), min_region_size);
        if k < rest.len() {
            lemma_large_ones_are_clusters(ds.drop_last(), min_region_size, k);
            let j = choose|j: int| 0 <= j < ds.drop_last().len() && ds.drop_last()[j] == rest[k];
            assert(ds[j] == rest[k]);
        } else {
            assert(ds[ds.len() - 1] == ds.last());
        }
    }
}

/// Every region that the splicing detector reports is non-empty and lies
/// inside the image.
pub proof fn splices_stay_within(report: SplicingReport, v: RgbView, config: SplicingConfig)
    requires
        is_splicing_report(report, v, config),
        config.block_size >= 1,
        v.width <= u32::MAX,
        v.height <= u32::MAX,
    ensures
        forall|k: int|
            0 <= k < report.result.manipulations@.len() ==> (
            #[trigger] report.result.manipulations@[k]).region.within(
                v.width as int,
                v.height as int,
            ),
{
    let w = v.width as int;
    let h = v.height as int;
    let blocks = tiling(w, h, config.block_size as int);
    let color = report.color_regions@;
    let edge = report.edge_regions@;
    let noise = report.noise.anomalous_regions@;
    let ela = report.ela.suspicious_regions@;
    let candidates = regions_of(report.fusion.candidates@);
    let clusters = regions_of(report.fusion.clusters@);
    assert forall|i: int| 0 <= i < color.len() implies (#[trigger] color[i]).within(w, h) by {
        departing_are_blocks(v, blocks, config.color_sensitivity@, i);
        let j = choose|j: int| 0 <= j < blocks.len() && blocks[j] == color[i];
        tiling_stays_within(w, h, config.block_size as int, j);
    }
    let three = level_regions(color, edge, noise, ela, 3);
    let two = level_regions(color, edge, noise, ela, 2);
    let one = level_regions(color, edge, noise, ela, 1);
    assert(candidates == three + two + one);
    assert forall|i: int| 0 <= i < candidates.len() implies (#[trigger] candidates[i]).within(
        w,
        h,
    ) by {
        if i < three.len() {
            lemma_level_regions_are_colour(color, edge, noise, ela, 3, i);
            let j = choose|j: int| 0 <= j < color.len() && color[j] == three[i];
            assert(color[j].within(w, h));
        } else if i < three.len() + two.len() {
            lemma_level_regions_are_colour(color, edge, noise, ela, 2, i - three.len());
            let j = choose|j: int| 0 <= j < color.len() && color[j] == two[i - three.len()];
            assert(color[j].within(w, h));
        } else {
            let t = i - three.len() - two.len();
            lemma_level_regions_are_colour(color, edge, noise, ela, 1, t);
            let j = choose|j: int| 0 <= j < color.len() && color[j] == one[t];
            assert(color[j].within(w, h));
        }
    }
    assert(all_within(candidates, w, h));
    merged_regions_stay_within(candidates, clusters, -1, v.width as u32, v.height as u32);
    assert forall|k: int| 0 <= k < report.result.manipulations@.len() implies (
    #[trigger] report.result.manipulations@[k]).region.within(w, h) by {
        let d = report.fusion.detections@[k];
        lemma_large_ones_are_clusters(report.fusion.clusters@, config.min_region_size as int, k);
        let j = choose|j: int|
            0 <= j < report.fusion.clusters@.len() && report.fusion.clusters@[j] == d;
        assert(clusters[j] == d.region);
        assert(clusters[j].within(w, h));
    }
}

} // verus!
