use auris::fingerprint::hasher::CombinatorialHash;
use auris::fingerprint::matcher::{enrich_matches, find_matches, FingerprintRow, MatchResult};

fn confidence(count: usize, total: usize) -> f32 {
    let result = MatchResult { track_id: 1, offset_ms: 0, match_count: count, total_hashes: total };
    let (num, den) = result.confidence_fraction();
    num as f32 / den as f32
}

#[test]
fn test_confidence_calculation() {
    let sample_hashes_len = 50000;

    let count = 1000;
    let confidence_a = confidence(count, sample_hashes_len);
    assert!((confidence_a - 1.0).abs() < 0.001);

    let count = 100;
    let confidence_b = confidence(count, sample_hashes_len);
    assert!((confidence_b - 0.1).abs() < 0.001);

    let count = 5000;
    let confidence_c = confidence(count, sample_hashes_len);
    assert_eq!(confidence_c, 1.0);
}

fn h(hash: u32, offset_ms: u32) -> CombinatorialHash {
    CombinatorialHash { hash, offset_ms }
}

fn row(hash: u32, track_id: u128, offset_ms: i32) -> FingerprintRow {
    FingerprintRow { hash: hash as i64, track_id, offset_ms }
}

#[test]
fn matches_peak_of_offset_histogram() {
    // sample taken 1000 ms into track 7
    let sample = vec![h(1, 0), h(2, 10), h(3, 20), h(4, 30)];
    let rows = vec![
        row(1, 7, 1000),
        row(2, 7, 1010),
        row(3, 7, 1020),
        row(4, 7, 5000), // a stray alignment
        row(1, 9, 40),
        row(3, 9, 300),
    ];
    let results = find_matches(&sample, &rows, 2);
    assert_eq!(
        results,
        vec![MatchResult { track_id: 7, offset_ms: 1000, match_count: 3, total_hashes: 4 }]
    );
    // with a threshold of 1 track 9 appears too, after track 7
    let results = find_matches(&sample, &rows, 1);
    assert_eq!(results.len(), 2);
    assert_eq!(results[0].track_id, 7);
    assert_eq!(results[1].track_id, 9);
    assert_eq!(results[1].match_count, 1);
}

#[test]
fn matches_keep_at_most_five_strongest() {
    let sample = vec![h(1, 0), h(2, 0), h(3, 0), h(4, 0), h(5, 0), h(6, 0), h(7, 0)];
    let mut rows = Vec::new();
    // track t gets t votes at offset 0
    for t in 1..=7u128 {
        for k in 1..=t as u32 {
            rows.push(row(k, t, 0));
        }
    }
    let results = find_matches(&sample, &rows, 1);
    let tracks: Vec<u128> = results.iter().map(|r| r.track_id).collect();
    assert_eq!(tracks, vec![7, 6, 5, 4, 3]);
    let counts: Vec<usize> = results.iter().map(|r| r.match_count).collect();
    assert_eq!(counts, vec![7, 6, 5, 4, 3]);
}

#[test]
fn matches_empty_sample_or_below_threshold() {
    assert!(find_matches(&[], &[row(1, 1, 0)], 0).is_empty());
    let sample = vec![h(1, 0)];
    assert!(find_matches(&sample, &[row(1, 1, 0)], 2).is_empty());
    assert!(find_matches(&sample, &[row(2, 1, 0)], 0).is_empty());
}

#[test]
fn repeated_sample_hashes_vote_for_each_offset() {
    // the same hash twice in the sample: the row votes for two alignments
    let sample = vec![h(1, 0), h(1, 100)];
    let rows = vec![row(1, 3, 500)];
    let results = find_matches(&sample, &rows, 1);
    assert_eq!(results.len(), 1);
    assert_eq!(results[0].match_count, 1);
    assert!(results[0].offset_ms == 500 || results[0].offset_ms == 400);
}

#[test]
fn stored_sample_is_identified() {
    // the sample's hashes stored for track 9 at 2500 ms later, among other rows
    let sample = vec![h(11, 0), h(12, 40), h(13, 80), h(14, 120)];
    let mut rows = vec![row(11, 3, 700), row(12, 3, 900)];
    for s in &sample {
        rows.push(row(s.hash, 9, s.offset_ms as i32 + 2500));
    }
    rows.push(row(13, 4, 50));
    let results = find_matches(&sample, &rows, 4);
    assert_eq!(results.len(), 1);
    assert_eq!(results[0], MatchResult { track_id: 9, offset_ms: 2500, match_count: 4, total_hashes: 4 });
}

#[test]
fn enrich_keeps_matches_whose_track_was_found() {
    let matches = vec![
        MatchResult { track_id: 5, offset_ms: 10, match_count: 30, total_hashes: 100 },
        MatchResult { track_id: 6, offset_ms: 20, match_count: 20, total_hashes: 100 },
        MatchResult { track_id: 7, offset_ms: 30, match_count: 10, total_hashes: 100 },
    ];
    let found = vec![7u128, 5u128];
    let enriched = enrich_matches(&matches, &found);
    assert_eq!(enriched, vec![(1, matches[0]), (0, matches[2])]);
}
