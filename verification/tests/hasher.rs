use auris::fingerprint::hasher::{generate_hashes, hashes_from_sorted, hashes_to_db_records, pack_hash, unpack_hash, CombinatorialHash};
use auris::models::fingerprints::HashRecord;

#[test]
fn test_hash_pack_unpack() {
    let f1 = 440; // A4 note
    let f2 = 880; // A5 note
    let dt = 50; // 50ms

    let packed = pack_hash(f1, f2, dt);
    let (uf1, uf2, udt) = unpack_hash(packed);

    // Should be close due to quantization (divide by 4)
    assert!((uf1 as i32 - f1 as i32).abs() <= 4);
    assert!((uf2 as i32 - f2 as i32).abs() <= 4);
    assert_eq!(udt, dt);
}

#[test]
fn test_generate_hashes() {
    let points = vec![
        (0, 100),   // t=0ms, f=100Hz
        (10, 200),  // t=10ms, f=200Hz
        (20, 150),  // t=20ms, f=150Hz
        (100, 300), // t=100ms, f=300Hz (outside time zone)
    ];

    let hashes = generate_hashes(&points, 50, 120, 6);
    println!("{:?}", hashes);

    // Should have hashes for pairs within 50ms
    assert!(!hashes.is_empty());

    // First anchor (0ms) should pair with 10ms and 20ms points
    let first_anchor_hashes: Vec<_> = hashes.iter().filter(|h| h.offset_ms == 0).collect();
    println!("{:?}", first_anchor_hashes);
    assert_eq!(first_anchor_hashes.len(), 2);
}

#[test]
fn pack_hash_exact_layout() {
    // 440/4 = 110, 880/4 = 220: (110 << 22) | (220 << 12) | 50
    assert_eq!(pack_hash(440, 880, 50), (110 << 22) | (220 << 12) | 50);
    // clamping of every field
    assert_eq!(pack_hash(100_000, 100_000, 10_000), (1023 << 22) | (1023 << 12) | 4095);
    assert_eq!(unpack_hash(pack_hash(100_000, 7, 10_000)), (4092, 4, 4095));
}

#[test]
fn generate_hashes_exact_values() {
    let points = vec![(0u32, 100u16), (10, 200), (20, 150), (100, 300)];
    let hashes = generate_hashes(&points, 50, 120, 6);
    let expected = vec![
        CombinatorialHash { hash: pack_hash(100, 200, 10), offset_ms: 0 },
        CombinatorialHash { hash: pack_hash(100, 150, 20), offset_ms: 0 },
        CombinatorialHash { hash: pack_hash(200, 150, 10), offset_ms: 10 },
    ];
    assert_eq!(hashes, expected);
}

#[test]
fn generate_hashes_frequency_band_and_fan_out() {
    // anchor at 1000 Hz with a 100 Hz band: 1200 Hz is out of band
    let points = vec![(0u32, 1000u16), (5, 1200), (6, 1050), (7, 950), (8, 1000)];
    let hashes = generate_hashes(&points, 50, 100, 2);
    let first: Vec<_> = hashes.iter().filter(|h| h.offset_ms == 0).cloned().collect();
    assert_eq!(
        first,
        vec![
            CombinatorialHash { hash: pack_hash(1000, 1050, 6), offset_ms: 0 },
            CombinatorialHash { hash: pack_hash(1000, 950, 7), offset_ms: 0 },
        ]
    );
}

#[test]
fn generate_hashes_degenerate_inputs() {
    assert!(generate_hashes(&[(0, 100)], 50, 100, 10).is_empty());
    assert!(generate_hashes(&[(0, 100), (1, 100)], 50, 100, 0).is_empty());
    assert!(generate_hashes(&[], 50, 100, 10).is_empty());
}

#[test]
fn generate_hashes_sorts_unordered_points() {
    let sorted = vec![(0u32, 100u16), (10, 200), (20, 150)];
    let unsorted = vec![(20u32, 150u16), (0, 100), (10, 200)];
    assert_eq!(generate_hashes(&unsorted, 50, 120, 6), generate_hashes(&sorted, 50, 120, 6));
    assert_eq!(hashes_from_sorted(&sorted, 50, 120, 6), generate_hashes(&sorted, 50, 120, 6));
}

#[test]
fn hashes_are_shift_invariant() {
    let points = vec![(0u32, 100u16), (10, 200), (20, 150), (100, 300)];
    let shifted: Vec<(u32, u16)> = points.iter().map(|&(t, f)| (t + 1000, f)).collect();
    let a = generate_hashes(&points, 50, 120, 6);
    let b = generate_hashes(&shifted, 50, 120, 6);
    assert_eq!(a.len(), b.len());
    for (x, y) in a.iter().zip(b.iter()) {
        assert_eq!(x.hash, y.hash);
        assert_eq!(x.offset_ms + 1000, y.offset_ms);
    }
}

#[test]
fn db_records_keep_hashes_and_track() {
    let id = uuid::Uuid::from_u128(7);
    let hashes = vec![
        CombinatorialHash { hash: u32::MAX, offset_ms: 3 },
        CombinatorialHash { hash: 5, offset_ms: u32::MAX },
    ];
    let records = hashes_to_db_records(&hashes, id);
    assert_eq!(records, vec![(u32::MAX as i64, id, 3), (5, id, -1)]);
    let record = HashRecord { hash: u32::MAX, offset_ms: 12 };
    assert_eq!(record.to_db_record(id), (-1, id, 12));
}

#[test]
fn input_order_does_not_matter_with_distinct_times() {
    let points = vec![(0u32, 100u16), (10, 200), (20, 150), (30, 120), (45, 180)];
    let shuffled = vec![(30u32, 120u16), (0, 100), (45, 180), (20, 150), (10, 200)];
    let a = generate_hashes(&points, 50, 120, 3);
    let b = generate_hashes(&shuffled, 50, 120, 3);
    assert!(!a.is_empty());
    assert_eq!(a, b);
}

#[test]
fn hash_count_offsets_and_fan_out() {
    let points = vec![(0u32, 100u16), (5, 110), (10, 200), (20, 150), (30, 120), (45, 180), (60, 90)];
    for fan_out in 0..4usize {
        let small = generate_hashes(&points, 50, 120, fan_out);
        let large = generate_hashes(&points, 50, 120, fan_out + 1);
        assert!(small.len() <= points.len() * fan_out);
        assert!(small.windows(2).all(|w| w[0].offset_ms <= w[1].offset_ms));
        // small is a subsequence of large
        let mut k = 0;
        for h in &large {
            if k < small.len() && small[k] == *h {
                k += 1;
            }
        }
        assert_eq!(k, small.len());
        assert!(large.len() >= small.len());
    }
    assert_eq!(generate_hashes(&points, 50, 120, 1).len(), 6);
}
