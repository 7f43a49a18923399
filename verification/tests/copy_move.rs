use image_forensics::analysis::copy_move::{
    compute_hash, BlockFeature, CopyMoveDetector, MatchPair, ScoredPair,
};
use image_forensics::analysis::{check_dimensions, min_dimension, AnalyzerKind};
use image_forensics::error::ForensicsError;
use image_forensics::score::Score;
use image_forensics::SRegion;

fn score(ppm: u32) -> Score {
    Score::from_ppm(ppm).unwrap()
}

fn detector(block_size: u32, threshold: u32, min_distance: u32) -> CopyMoveDetector {
    CopyMoveDetector::new(block_size, score(threshold), min_distance).unwrap()
}

fn feature(x: u32, y: u32, hash: u64) -> BlockFeature {
    BlockFeature { x, y, hash }
}

fn pair(first: usize, second: usize, similarity: u32) -> ScoredPair {
    ScoredPair { first, second, similarity: score(similarity) }
}

fn block(x: u32, y: u32, side: u32) -> SRegion {
    SRegion { x, y, width: side, height: side }
}

#[test]
fn block_size_must_lie_between_4_and_64() {
    for bad in [0u32, 3, 65, 1000] {
        match CopyMoveDetector::new(bad, score(900_000), 50) {
            Err(ForensicsError::InvalidParameter(msg)) => {
                assert_eq!(msg, "Block size must be between 4 and 64")
            }
            _ => panic!("block size {} was accepted", bad),
        }
    }
    for good in [4u32, 16, 64] {
        let d = CopyMoveDetector::new(good, score(900_000), 50).unwrap();
        assert_eq!(d.block_size(), good);
        assert_eq!(d.min_distance(), 50);
        assert_eq!(d.similarity_threshold().ppm(), 900_000);
        assert_eq!(d.min_dimension(), 2 * good);
        assert_eq!(d.step(), good / 2);
    }
}

#[test]
fn a_50_by_50_image_is_too_small_for_blocks_of_32() {
    let d = detector(32, 950_000, 50);
    assert!(matches!(d.check_image(50, 50), Err(ForensicsError::ImageTooSmall(64))));
    assert!(matches!(d.check_image(64, 63), Err(ForensicsError::ImageTooSmall(64))));
    assert!(matches!(d.check_image(63, 640), Err(ForensicsError::ImageTooSmall(64))));
    assert!(d.check_image(64, 64).is_ok());
}

#[test]
fn every_analyzer_rejects_an_image_below_its_minimum() {
    let kinds = [
        (AnalyzerKind::Ela, 0u32),
        (AnalyzerKind::Noise, 0),
        (AnalyzerKind::Jpeg, 0),
        (AnalyzerKind::Dct, 16),
        (AnalyzerKind::Benford, 24),
        (AnalyzerKind::CopyMove, 48),
        (AnalyzerKind::Cfa, 48),
        (AnalyzerKind::ChromaticAberration, 48),
        (AnalyzerKind::Prnu, 48),
        (AnalyzerKind::Resampling, 48),
        (AnalyzerKind::Shadow, 48),
        (AnalyzerKind::Pca, 48),
    ];
    for (kind, min) in kinds {
        assert_eq!(min_dimension(kind, 24), Some(min));
        if min > 0 {
            match check_dimensions(kind, 24, min - 1, 1000) {
                Err(ForensicsError::ImageTooSmall(m)) => assert_eq!(m, min),
                _ => panic!("a narrow image was accepted"),
            }
            match check_dimensions(kind, 24, 1000, min - 1) {
                Err(ForensicsError::ImageTooSmall(m)) => assert_eq!(m, min),
                _ => panic!("a low image was accepted"),
            }
        }
        assert!(check_dimensions(kind, 24, min, min).is_ok());
        assert!(check_dimensions(kind, 24, 1000, 1000).is_ok());
    }
    assert_eq!(min_dimension(AnalyzerKind::Shadow, u32::MAX), None);
    match check_dimensions(AnalyzerKind::Shadow, u32::MAX, 100, 100) {
        Err(ForensicsError::InvalidParameter(msg)) => assert_eq!(msg, "Block size is too large"),
        _ => panic!("an oversized block was accepted"),
    }
    assert!(check_dimensions(AnalyzerKind::Ela, u32::MAX, 0, 0).is_ok());
}

#[test]
fn blocks_are_taken_every_half_block() {
    let d = detector(16, 950_000, 50);
    let positions = d.block_positions(40, 33);
    // Corners below 40 - 16 = 24 and 33 - 16 = 17, every 8 pixels.
    assert_eq!(
        positions,
        vec![(0, 0), (8, 0), (16, 0), (0, 8), (8, 8), (16, 8), (0, 16), (8, 16), (16, 16)]
    );
    assert!(d.block_positions(16, 100).is_empty());
    assert_eq!(d.block_positions(17, 17), vec![(0, 0)]);
    for (x, y) in d.block_positions(100, 70) {
        assert!(x + 16 <= 100 && y + 16 <= 70);
    }
}

#[test]
fn the_hash_sets_a_bit_for_each_coefficient_above_the_mean() {
    assert_eq!(compute_hash(&vec![]), 0);
    assert_eq!(compute_hash(&vec![true, false, true, true]), 0b1101);
    let mut many = vec![false; 70];
    many[63] = true;
    many[64] = true;
    assert_eq!(compute_hash(&many), 1u64 << 63);
}

#[test]
fn candidates_share_a_hash_group_and_keep_their_distance() {
    let d = detector(16, 900_000, 50);
    let features = vec![
        feature(0, 0, 0b1000),
        feature(30, 40, 0b1011),
        feature(30, 39, 0b1001),
        feature(200, 0, 0b1100),
        feature(300, 300, 0b1010),
    ];
    // 0-1: distance exactly 50; 0-2: just below 50; 3: another group.
    assert_eq!(d.candidate_pairs(&features), vec![(0, 1), (0, 4), (1, 4), (2, 4)]);
    let close = detector(16, 900_000, 0);
    let twins = vec![feature(5, 5, 7), feature(5, 5, 7), feature(5, 6, 4)];
    assert_eq!(close.candidate_pairs(&twins), vec![(0, 2), (1, 2)]);
}

#[test]
fn matches_are_chosen_greedily_by_falling_similarity() {
    let d = detector(16, 900_000, 50);
    let features = vec![
        feature(0, 0, 8),
        feature(100, 0, 8),
        feature(8, 0, 9),
        feature(108, 0, 9),
        feature(0, 200, 10),
        feature(100, 200, 11),
        feature(300, 300, 64),
    ];
    let pairs = vec![
        pair(2, 3, 990_000),
        pair(0, 1, 950_000),
        pair(4, 5, 950_000),
        pair(0, 6, 999_000),
        pair(1, 0, 1_000_000),
        pair(0, 9, 1_000_000),
        pair(4, 5, 899_999),
        pair(4, 5, 950_000),
    ];
    let result = d.find_matches(&features, &pairs);
    assert_eq!(
        result.matches,
        vec![
            MatchPair {
                source: block(8, 0, 16),
                target: block(108, 0, 16),
                similarity: score(990_000)
            },
            MatchPair {
                source: block(0, 200, 16),
                target: block(100, 200, 16),
                similarity: score(950_000)
            },
        ]
    );
    // The mean of 0.99 and 0.95.
    assert_eq!(result.confidence.ppm(), 970_000);
}

#[test]
fn ties_are_broken_by_the_place_of_the_source() {
    let d = detector(4, 0, 0);
    let features = vec![
        feature(50, 10, 0),
        feature(90, 10, 0),
        feature(10, 10, 0),
        feature(10, 2, 0),
        feature(70, 2, 0),
    ];
    let pairs = vec![pair(0, 1, 500_000), pair(2, 4, 500_000), pair(3, 4, 500_000)];
    let result = d.find_matches(&features, &pairs);
    // (10, 2) comes before (10, 10) and takes the target at (70, 2) first.
    assert_eq!(result.matches.len(), 2);
    assert_eq!(result.matches[0].source, block(10, 2, 4));
    assert_eq!(result.matches[1].source, block(50, 10, 4));
}

#[test]
fn no_match_gives_no_confidence() {
    let d = detector(16, 900_000, 50);
    let result = d.find_matches(&Vec::new(), &Vec::new());
    assert!(result.matches.is_empty());
    assert_eq!(result.confidence.ppm(), 0);
}

#[test]
fn reported_matches_keep_the_minimum_distance_and_do_not_overlap() {
    let d = detector(8, 800_000, 20);
    let mut features = Vec::new();
    for j in 0..6u32 {
        for i in 0..6u32 {
            features.push(feature(i * 4, j * 4, ((i + j) % 3) as u64));
        }
    }
    let candidates = d.candidate_pairs(&features);
    let mut pairs = Vec::new();
    for (n, (a, b)) in candidates.iter().enumerate() {
        pairs.push(pair(*a, *b, 700_000 + ((n as u32 * 7919) % 300_001)));
    }
    let result = d.find_matches(&features, &pairs);
    assert!(!result.matches.is_empty());
    for (n, m) in result.matches.iter().enumerate() {
        let dx = m.source.x as f64 - m.target.x as f64;
        let dy = m.source.y as f64 - m.target.y as f64;
        assert!((dx * dx + dy * dy).sqrt() >= 20.0);
        assert!(m.similarity.ppm() >= 800_000);
        assert_eq!((m.source.width, m.source.height), (8, 8));
        assert_eq!((m.target.width, m.target.height), (8, 8));
        assert!(m.source != m.target);
        for other in &result.matches[n + 1..] {
            assert!(m.similarity.ppm() >= other.similarity.ppm());
            for a in [m.source, m.target] {
                for b in [other.source, other.target] {
                    assert!(!a.regions_overlap(&b));
                }
            }
        }
    }
    let again = d.find_matches(&features, &pairs);
    assert_eq!(result.matches, again.matches);
}
