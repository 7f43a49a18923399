use image_forensics::analysis::copy_move::{
    compute_hash, BlockFeature, CopyMoveDetector, ScoredPair,
};
use image_forensics::image_utils::extract_block;
use image_forensics::raster::GrayRaster;
use image_forensics::score::Score;
use num_complex::Complex;
use rustfft::FftPlanner;

const SIDE: u32 = 128;
const BLOCK: u32 = 16;

fn textured_image_with_a_copy() -> GrayRaster {
    let mut state = 0x2545_f491u32;
    let mut data = Vec::new();
    for _ in 0..SIDE * SIDE {
        state = state.wrapping_mul(1_664_525).wrapping_add(1_013_904_223);
        data.push((state >> 24) as u8);
    }
    // A 32 x 32 patch at (16, 16) is pasted at (80, 64).
    for dy in 0..32 {
        for dx in 0..32 {
            let from = ((16 + dy) * SIDE + 16 + dx) as usize;
            let to = ((64 + dy) * SIDE + 80 + dx) as usize;
            data[to] = data[from];
        }
    }
    GrayRaster::from_raw(SIDE, SIDE, data).unwrap()
}

fn variance(block: &[u8]) -> f64 {
    let mean = block.iter().map(|&v| v as f64).sum::<f64>() / block.len() as f64;
    block.iter().map(|&v| (v as f64 - mean).powi(2)).sum::<f64>() / block.len() as f64
}

fn spectrum(block: &[u8]) -> Vec<f64> {
    let mut input: Vec<Complex<f64>> = block.iter().map(|&v| Complex::new(v as f64, 0.0)).collect();
    let mut planner = FftPlanner::new();
    let fft = planner.plan_fft_forward(input.len());
    fft.process(&mut input);
    input.iter().take(16).map(|c| c.norm()).collect()
}

fn correlation(a: &[f64], b: &[f64]) -> f64 {
    let mean_a = a.iter().sum::<f64>() / a.len() as f64;
    let mean_b = b.iter().sum::<f64>() / b.len() as f64;
    let mut numerator = 0.0;
    let mut denom_a = 0.0;
    let mut denom_b = 0.0;
    for (x, y) in a.iter().zip(b.iter()) {
        numerator += (x - mean_a) * (y - mean_b);
        denom_a += (x - mean_a).powi(2);
        denom_b += (y - mean_b).powi(2);
    }
    let denom = (denom_a * denom_b).sqrt();
    if denom < 1e-10 {
        0.0
    } else {
        (numerator / denom).max(0.0)
    }
}

#[test]
fn a_planted_copy_is_found() {
    let image = textured_image_with_a_copy();
    let threshold = Score::from_ppm(900_000).unwrap();
    let detector = CopyMoveDetector::new(BLOCK, threshold, 20).unwrap();
    assert!(detector.check_image(SIDE, SIDE).is_ok());

    let mut places = Vec::new();
    let mut spectra = Vec::new();
    for (x, y) in detector.block_positions(SIDE, SIDE) {
        let block = extract_block(&image, x, y, BLOCK);
        if variance(&block) < 100.0 {
            continue;
        }
        let coefficients = spectrum(&block);
        let mean = coefficients.iter().sum::<f64>() / coefficients.len() as f64;
        let above: Vec<bool> = coefficients.iter().map(|&c| c > mean).collect();
        places.push(BlockFeature { x, y, hash: compute_hash(&above) });
        spectra.push(coefficients);
    }
    assert!(!places.is_empty());

    let scored: Vec<ScoredPair> = detector
        .candidate_pairs(&places)
        .into_iter()
        .map(|(first, second)| {
            let similarity = correlation(&spectra[first], &spectra[second]).clamp(0.0, 1.0);
            ScoredPair {
                first,
                second,
                similarity: Score::saturating((similarity * 1_000_000.0) as u32),
            }
        })
        .collect();

    let result = detector.find_matches(&places, &scored);
    let planted: Vec<_> = result
        .matches
        .iter()
        .filter(|m| {
            m.source.x >= 16
                && m.source.x + BLOCK <= 48
                && m.source.y >= 16
                && m.source.y + BLOCK <= 48
                && m.target.x == m.source.x + 64
                && m.target.y == m.source.y + 48
        })
        .collect();
    assert!(planted.len() >= 4);
    for m in &planted {
        assert!(m.similarity.ppm() >= 900_000);
    }
    for m in &result.matches {
        let dx = m.source.x as f64 - m.target.x as f64;
        let dy = m.source.y as f64 - m.target.y as f64;
        assert!((dx * dx + dy * dy).sqrt() >= 20.0);
        assert!(m.source.is_within(SIDE, SIDE) && m.target.is_within(SIDE, SIDE));
    }
    assert!(result.confidence.ppm() >= 900_000);
}
