use vstd::prelude::*;
use uuid::Uuid;

verus! {

/// One combinatorial hash: a packed (anchor frequency, target frequency,
/// time delta) triple, together with the time of its anchor point.
#[derive(Debug, Clone, Copy, PartialEq, Eq, Hash)]
pub struct CombinatorialHash {
    /// the actual hash value
    pub hash: u32,
    /// the absolute time of an anchor point in the track (ms)
    pub offset_ms: u32,
}

/// A frequency quantized to 10 bits: `min(f / 4, 1023)`.
pub open spec fn quantize_freq(f: u32) -> u32 {
    if f / 4 < 1023 { f / 4 } else { 1023 }
}

/// A time delta clamped to 12 bits: `min(dt, 4095)`.
pub open spec fn clamp_delta(dt: u32) -> u32 {
    if dt < 4095 { dt } else { 4095 }
}

/// The packed hash: `[10 bits f1][10 bits f2][12 bits dt]`.
pub open spec fn spec_pack_hash(f1: u32, f2: u32, dt: u32) -> u32 {
    (quantize_freq(f1) * 0x40_0000 + quantize_freq(f2) * 0x1000 + clamp_delta(dt)) as u32
}

/// The three fields of a packed hash, frequencies scaled back by 4.
pub open spec fn spec_unpack_hash(hash: u32) -> (u32, u32, u32) {
    ((((hash / 0x40_0000) % 1024) * 4) as u32, (((hash / 0x1000) % 1024) * 4) as u32, hash % 4096)
}

/// Pack frequency and time values into a single u32 hash.
/// Format: [10 bits f1][10 bits f2][12 bits delta_t]
pub fn pack_hash(f1: u32, f2: u32, delta_t: u32) -> (hash: u32)
    ensures
        hash == spec_pack_hash(f1, f2, delta_t),
{
    let f1_quant = (f1 / 4).min(1023);
    let f2_quant = (f2 / 4).min(1023);
    let dt_clamped = delta_t.min(4095);
    assert(f1_quant == quantize_freq(f1) && f2_quant == quantize_freq(f2) && dt_clamped == clamp_delta(delta_t));
    let h = (f1_quant << 22) | (f2_quant << 12) | dt_clamped;
    assert(h == f1_quant * 0x40_0000 + f2_quant * 0x1000 + dt_clamped) by (bit_vector)
        requires
            f1_quant <= 1023,
            f2_quant <= 1023,
            dt_clamped <= 4095,
            h == (f1_quant << 22) | (f2_quant << 12) | dt_clamped,
    ;
    h
}

/// Unpack a hash into (f1, f2, delta_t), frequencies multiplied back by 4.
pub fn unpack_hash(hash: u32) -> (fields: (u32, u32, u32))
    ensures
        fields == spec_unpack_hash(hash),
{
    let f1 = (hash >> 22) & 0x3FF;
    let f2 = (hash >> 12) & 0x3FF;
    let dt = hash & 0xFFF;
    assert(f1 == (hash / 0x40_0000) % 1024 && f2 == (hash / 0x1000) % 1024 && dt == hash % 4096)
        by (bit_vector)
        requires
            f1 == (hash >> 22) & 0x3FF,
            f2 == (hash >> 12) & 0x3FF,
            dt == hash & 0xFFF,
    ;
    (f1 * 4, f2 * 4, dt)
}

/// Unpacking a packed hash gives back the quantized frequencies (times 4)
/// and the clamped time delta.
pub proof fn lemma_unpack_pack(f1: u32, f2: u32, dt: u32)
    ensures
        spec_unpack_hash(spec_pack_hash(f1, f2, dt)) == (
            (quantize_freq(f1) * 4) as u32,
            (quantize_freq(f2) * 4) as u32,
            clamp_delta(dt),
        ),
{
    let a = quantize_freq(f1) as int;
    let b = quantize_freq(f2) as int;
    let c = clamp_delta(dt) as int;
    let h = a * 0x40_0000 + b * 0x1000 + c;
    assert(h / 0x40_0000 == a) by (nonlinear_arith)
        requires 0 <= a <= 1023, 0 <= b <= 1023, 0 <= c <= 4095, h == a * 0x40_0000 + b * 0x1000 + c;
    assert(h / 0x1000 == a * 1024 + b) by (nonlinear_arith)
        requires 0 <= a <= 1023, 0 <= b <= 1023, 0 <= c <= 4095, h == a * 0x40_0000 + b * 0x1000 + c;
    assert((a * 1024 + b) % 1024 == b) by (nonlinear_arith)
        requires 0 <= b <= 1023;
    assert(h % 4096 == c) by (nonlinear_arith)
        requires 0 <= a <= 1023, 0 <= b <= 1023, 0 <= c <= 4095, h == a * 0x40_0000 + b * 0x1000 + c;
}


/// A constellation point: (time in ms, frequency in Hz).
pub type Point = (u32, u16);

/// Points are in nondecreasing order of time.
pub open spec fn sorted_by_time(points: Seq<Point>) -> bool {
    forall|a: int, b: int| 0 <= a <= b < points.len() ==> points[a].0 <= points[b].0
}

/// Latest target time for an anchor at `t`: `t.saturating_add(zone_ms)`.
pub open spec fn zone_time_max(t: u32, zone_ms: u32) -> int {
    if t + zone_ms <= u32::MAX { t + zone_ms } else { u32::MAX as int }
}

/// Lowest target frequency for an anchor at `f`: `f.saturating_sub(zone_hz)`.
pub open spec fn zone_freq_min(f: u16, zone_hz: u16) -> int {
    if f >= zone_hz { f - zone_hz } else { 0 }
}

/// Highest target frequency for an anchor at `f`: `f.saturating_add(zone_hz)`.
pub open spec fn zone_freq_max(f: u16, zone_hz: u16) -> int {
    if f + zone_hz <= u16::MAX { f + zone_hz } else { u16::MAX as int }
}

/// The target frequency lies in the anchor's frequency band.
pub open spec fn in_band(f_anchor: u16, f_target: u16, zone_hz: u16) -> bool {
    zone_freq_min(f_anchor, zone_hz) <= f_target <= zone_freq_max(f_anchor, zone_hz)
}

/// The hash of an (anchor, target) pair.
pub open spec fn pair_hash(anchor: Point, target: Point) -> CombinatorialHash {
    CombinatorialHash {
        hash: spec_pack_hash(anchor.1 as u32, target.1 as u32, (target.0 - anchor.0) as u32),
        offset_ms: anchor.0,
    }
}

/// First index at or after `k` whose time is past the anchor's time zone
/// (or the length of `points`).
pub open spec fn zone_end(points: Seq<Point>, i: int, k: nat, zone_ms: u32) -> nat
    decreases points.len() - k,
{
    if k >= points.len() || points[k as int].0 > zone_time_max(points[i].0, zone_ms) {
        k
    } else {
        zone_end(points, i, k + 1, zone_ms)
    }
}

/// Hashes of anchor `i` with the targets in `k..end` that lie in its band,
/// at most `budget` of them, in index order.
pub open spec fn anchor_pairs(
    points: Seq<Point>,
    i: int,
    k: nat,
    end: nat,
    budget: nat,
    zone_hz: u16,
) -> Seq<CombinatorialHash>
    decreases end - k,
{
    if k >= end || budget == 0 {
        Seq::empty()
    } else if in_band(points[i].1, points[k as int].1, zone_hz) {
        seq![pair_hash(points[i], points[k as int])]
            + anchor_pairs(points, i, k + 1, end, (budget - 1) as nat, zone_hz)
    } else {
        anchor_pairs(points, i, k + 1, end, budget, zone_hz)
    }
}

/// The hashes of anchor `i`: its first `fan_out` in-band targets among the
/// points that follow it within the time zone.
pub open spec fn anchor_hashes(
    points: Seq<Point>,
    i: int,
    zone_ms: u32,
    zone_hz: u16,
    fan_out: nat,
) -> Seq<CombinatorialHash> {
    anchor_pairs(points, i, (i + 1) as nat, zone_end(points, i, (i + 1) as nat, zone_ms), fan_out, zone_hz)
}

/// The hashes of the first `n` anchors, anchor by anchor.
pub open spec fn hashes_upto(
    points: Seq<Point>,
    n: nat,
    zone_ms: u32,
    zone_hz: u16,
    fan_out: nat,
) -> Seq<CombinatorialHash>
    decreases n,
{
    if n == 0 {
        Seq::empty()
    } else {
        hashes_upto(points, (n - 1) as nat, zone_ms, zone_hz, fan_out)
            + anchor_hashes(points, n - 1, zone_ms, zone_hz, fan_out)
    }
}

/// All combinatorial hashes of a time-sorted constellation.
pub open spec fn spec_hashes(
    points: Seq<Point>,
    zone_ms: u32,
    zone_hz: u16,
    fan_out: nat,
) -> Seq<CombinatorialHash> {
    hashes_upto(points, points.len(), zone_ms, zone_hz, fan_out)
}

proof fn lemma_zone_end_skip(points: Seq<Point>, i: int, a: nat, b: nat, zone_ms: u32)
    requires
        0 <= i < points.len(),
        a <= b <= points.len(),
        forall|k: int| a <= k < b ==> points[k].0 <= zone_time_max(points[i].0, zone_ms),
    ensures
        zone_end(points, i, a, zone_ms) == zone_end(points, i, b, zone_ms),
    decreases b - a,
{
    if a < b {
        lemma_zone_end_skip(points, i, a + 1, b, zone_ms);
    }
}

/// Whether the points are already in nondecreasing order of time.
fn is_sorted_by_time(points: &[Point]) -> (sorted: bool)
    ensures
        sorted == sorted_by_time(points@),
{
    let n = points.len();
    if n < 2 {
        return true;
    }
    let mut j: usize = 1;
    while j < n
        invariant
            1 <= j <= n,
            n == points@.len(),
            forall|a: int, b: int| 0 <= a <= b < j ==> points@[a].0 <= points@[b].0,
        decreases n - j,
    {
        if points[j - 1].0 > points[j].0 {
            return false;
        }
        j += 1;
    }
    true
}

/// Sorts points by time with `slice::sort_unstable_by_key`.
/// Trusted: the standard library documents the result as a permutation of
/// the input in nondecreasing order of the key; which order equal keys end up
/// in is not stated.
#[verifier::external_body]
fn sort_points_by_time(points: &mut Vec<Point>)
    ensures
        final(points)@.to_multiset() == old(points)@.to_multiset(),
        sorted_by_time(final(points)@),
{
    points.sort_unstable_by_key(|p| p.0);
}

/// Generate the combinatorial hashes of a constellation that is sorted by
/// time: for each anchor, pair it with up to `fan_out` later points that lie
/// within `target_zone_time_ms` after it and within `target_zone_freq_hz` of
/// its frequency, in order.
pub fn hashes_from_sorted(
    points: &[Point],
    target_zone_time_ms: u32,
    target_zone_freq_hz: u16,
    fan_out: usize,
) -> (hashes: Vec<CombinatorialHash>)
    requires
        sorted_by_time(points@),
    ensures
        hashes@ == spec_hashes(points@, target_zone_time_ms, target_zone_freq_hz, fan_out as nat),
        forall|i: int, j: int|
            #![trigger points@[i], points@[j]]
            0 <= i < j < points@.len() && points@[j].0 <= points@[i].0 + target_zone_time_ms && freq_within(
                points@[i],
                points@[j],
                target_zone_freq_hz,
            ) && count_within(points@, i, i + 1, j, target_zone_freq_hz) < fan_out ==> hashes@.contains(
                CombinatorialHash {
                    hash: spec_pack_hash(points@[i].1 as u32, points@[j].1 as u32, (points@[j].0 - points@[i].0) as u32),
                    offset_ms: points@[i].0,
                },
            ),
{
    let ghost pts = points@;
    let n = points.len();
    let mut hashes: Vec<CombinatorialHash> = Vec::new();
    let mut end: usize = 1;
    let mut i: usize = 0;
    while i < n
        invariant
            n == pts.len(),
            pts == points@,
            sorted_by_time(pts),
            i <= n,
            end <= n || n == 0,
            i == 0 ==> end == 1,
            i > 0 ==> i <= end && forall|k: int|
                i <= k < end ==> #[trigger] pts[k].0 <= zone_time_max(pts[i - 1].0, target_zone_time_ms),
            hashes@ == hashes_upto(pts, i as nat, target_zone_time_ms, target_zone_freq_hz, fan_out as nat),
        decreases n - i,
    {
        let (t1, f1) = points[i];
        let t_max = t1.saturating_add(target_zone_time_ms);
        let f_min = f1.saturating_sub(target_zone_freq_hz);
        let f_max = f1.saturating_add(target_zone_freq_hz);
        assert(t_max == zone_time_max(t1, target_zone_time_ms));

        if end < i + 1 {
            end = i + 1;
        }
        assert forall|k: int| i + 1 <= k < end implies pts[k].0 <= t_max by {
            if i > 0 {
                assert(pts[i - 1].0 <= pts[i as int].0);
            }
        }
        while end < n && points[end].0 <= t_max
            invariant
                n == pts.len(),
                pts == points@,
                i < n,
                i + 1 <= end <= n,
                t_max == zone_time_max(pts[i as int].0, target_zone_time_ms),
                forall|k: int| i + 1 <= k < end ==> pts[k].0 <= t_max,
            decreases n - end,
        {
            end += 1;
        }
        proof {
            lemma_zone_end_skip(pts, i as int, (i + 1) as nat, end as nat, target_zone_time_ms);
        }
        assert(zone_end(pts, i as int, (i + 1) as nat, target_zone_time_ms) == end);

        let ghost base = hashes@;
        let ghost whole = anchor_pairs(pts, i as int, (i + 1) as nat, end as nat, fan_out as nat, target_zone_freq_hz);
        let mut pairs: usize = 0;
        let mut k: usize = i + 1;
        while k < end
            invariant
                n == pts.len(),
                pts == points@,
                sorted_by_time(pts),
                i < n,
                i + 1 <= k <= end <= n,
                pairs <= fan_out,
                t1 == pts[i as int].0,
                f1 == pts[i as int].1,
                f_min == zone_freq_min(f1, target_zone_freq_hz),
                f_max == zone_freq_max(f1, target_zone_freq_hz),
                whole == anchor_pairs(pts, i as int, (i + 1) as nat, end as nat, fan_out as nat, target_zone_freq_hz),
                base + whole == hashes@ + anchor_pairs(
                    pts, i as int, k as nat, end as nat, (fan_out - pairs) as nat, target_zone_freq_hz),
            ensures
                base + whole == hashes@,
            decreases end - k,
        {
            if pairs >= fan_out {
                assert(anchor_pairs(pts, i as int, k as nat, end as nat, 0, target_zone_freq_hz) =~= Seq::empty());
                break;
            }
            let (t2, f2) = points[k];
            if f2 < f_min || f2 > f_max {
                k += 1;
                continue;
            }
            assert(t1 <= t2);
            let ghost before = hashes@;
            hashes.push(CombinatorialHash { hash: pack_hash(f1 as u32, f2 as u32, t2 - t1), offset_ms: t1 });
            assert(hashes@ =~= before + seq![pair_hash(pts[i as int], pts[k as int])]);
            pairs += 1;
            k += 1;
            if pairs >= fan_out {
                assert(anchor_pairs(pts, i as int, k as nat, end as nat, 0, target_zone_freq_hz) =~= Seq::empty());
                break;
            }
        }
        assert(base + whole =~= hashes@);
        assert(hashes@ =~= hashes_upto(pts, (i + 1) as nat, target_zone_time_ms, target_zone_freq_hz, fan_out as nat));
        i += 1;
    }
    proof {
        assert forall|i: int, j: int|
            #![trigger pts[i], pts[j]]
            0 <= i < j < pts.len() && pts[j].0 <= pts[i].0 + target_zone_time_ms && freq_within(
                pts[i],
                pts[j],
                target_zone_freq_hz,
            ) && count_within(pts, i, i + 1, j, target_zone_freq_hz) < fan_out implies hashes@.contains(
                CombinatorialHash {
                    hash: spec_pack_hash(pts[i].1 as u32, pts[j].1 as u32, (pts[j].0 - pts[i].0) as u32),
                    offset_ms: pts[i].0,
                },
            ) by {
            lemma_hashes_complete(pts, target_zone_time_ms, target_zone_freq_hz, fan_out as nat, i, j);
        }
    }
    hashes
}


/// Lexicographic order on points, a total order.
pub open spec fn point_leq(a: Point, b: Point) -> bool {
    a.0 < b.0 || (a.0 == b.0 && a.1 <= b.1)
}

/// `point_leq` as a relation.
pub open spec fn point_order() -> spec_fn(Point, Point) -> bool {
    |a: Point, b: Point| point_leq(a, b)
}

/// The points sorted by time (ties by frequency).
pub open spec fn time_sorted(points: Seq<Point>) -> Seq<Point> {
    points.sort_by(point_order())
}

/// No two points are at the same time.
pub open spec fn distinct_times(points: Seq<Point>) -> bool {
    forall|i: int, j: int| 0 <= i < j < points.len() ==> points[i].0 != points[j].0
}

/// Points at the same time are the same point (as when times are distinct).
pub open spec fn times_identify_points(points: Seq<Point>) -> bool {
    forall|i: int, j: int|
        0 <= i < points.len() && 0 <= j < points.len() && #[trigger] points[i].0 == #[trigger] points[j].0 ==> points[i]
            == points[j]
}

/// `time_sorted` is a time-sorted permutation.
proof fn lemma_time_sorted(points: Seq<Point>)
    ensures
        time_sorted(points).to_multiset() == points.to_multiset(),
        time_sorted(points).len() == points.len(),
        sorted_by_time(time_sorted(points)),
{
    let leq = point_order();
    assert(vstd::relations::total_ordering(leq));
    points.lemma_sort_by_ensures(leq);
    let sorted = time_sorted(points);
    vstd::seq_lib::to_multiset_len(points);
    vstd::seq_lib::to_multiset_len(sorted);
    assert forall|a: int, b: int| 0 <= a <= b < sorted.len() implies sorted[a].0 <= sorted[b].0 by {
        if a < b {
            assert(leq(sorted[a], sorted[b]));
        }
    }
}

/// Distinct times identify points.
pub proof fn lemma_distinct_times_identify(points: Seq<Point>)
    requires
        distinct_times(points),
    ensures
        times_identify_points(points),
{
    assert forall|i: int, j: int|
        0 <= i < points.len() && 0 <= j < points.len() && #[trigger] points[i].0 == #[trigger] points[j].0 implies points[i]
            == points[j] by {
        if i < j {
            assert(points[i].0 != points[j].0);
        } else if j < i {
            assert(points[j].0 != points[i].0);
        }
    }
}

/// Whether points at equal times are equal is a property of the points, not
/// of their order.
proof fn lemma_identify_permutation(p: Seq<Point>, q: Seq<Point>)
    requires
        p.to_multiset() == q.to_multiset(),
        times_identify_points(p),
    ensures
        times_identify_points(q),
{
    assert forall|i: int, j: int|
        0 <= i < q.len() && 0 <= j < q.len() && #[trigger] q[i].0 == #[trigger] q[j].0 implies q[i] == q[j] by {
        vstd::seq_lib::to_multiset_contains(q, q[i]);
        vstd::seq_lib::to_multiset_contains(q, q[j]);
        vstd::seq_lib::to_multiset_contains(p, q[i]);
        vstd::seq_lib::to_multiset_contains(p, q[j]);
        assert(q.contains(q[i]));
        assert(q.contains(q[j]));
        let a = choose|a: int| 0 <= a < p.len() && p[a] == q[i];
        let b = choose|b: int| 0 <= b < p.len() && p[b] == q[j];
        assert(p[a].0 == p[b].0);
    }
}

/// Two time-sorted permutations of the same points are equal when points at
/// equal times are equal.
proof fn lemma_sorted_unique(a: Seq<Point>, b: Seq<Point>)
    requires
        sorted_by_time(a),
        sorted_by_time(b),
        a.to_multiset() == b.to_multiset(),
        times_identify_points(a),
    ensures
        a == b,
    decreases a.len(),
{
    vstd::seq_lib::to_multiset_len(a);
    vstd::seq_lib::to_multiset_len(b);
    if a.len() == 0 {
        assert(a =~= b);
    } else {
        vstd::seq_lib::to_multiset_contains(a, a[0]);
        vstd::seq_lib::to_multiset_contains(b, a[0]);
        vstd::seq_lib::to_multiset_contains(a, b[0]);
        vstd::seq_lib::to_multiset_contains(b, b[0]);
        assert(a.contains(a[0]));
        assert(b.contains(b[0]));
        let j = choose|j: int| 0 <= j < b.len() && b[j] == a[0];
        let k = choose|k: int| 0 <= k < a.len() && a[k] == b[0];
        assert(a[0].0 <= a[k].0);
        assert(b[0].0 <= b[j].0);
        assert(a[k].0 == a[0].0);
        assert(b[0] == a[0]);
        vstd::seq_lib::to_multiset_remove(a, 0);
        vstd::seq_lib::to_multiset_remove(b, 0);
        let ra = a.remove(0);
        let rb = b.remove(0);
        assert(ra =~= a.drop_first());
        assert(rb =~= b.drop_first());
        assert forall|x: int, y: int| 0 <= x <= y < ra.len() implies ra[x].0 <= ra[y].0 by {
            assert(ra[x] == a[x + 1] && ra[y] == a[y + 1]);
        }
        assert forall|x: int, y: int| 0 <= x <= y < rb.len() implies rb[x].0 <= rb[y].0 by {
            assert(rb[x] == b[x + 1] && rb[y] == b[y + 1]);
        }
        assert forall|x: int, y: int|
            0 <= x < ra.len() && 0 <= y < ra.len() && #[trigger] ra[x].0 == #[trigger] ra[y].0 implies ra[x] == ra[y] by {
            assert(ra[x] == a[x + 1] && ra[y] == a[y + 1]);
        }
        lemma_sorted_unique(ra, rb);
        assert forall|x: int| 0 <= x < a.len() implies a[x] == b[x] by {
            if x > 0 {
                assert(a[x] == ra[x - 1] && b[x] == rb[x - 1]);
            }
        }
        assert(a =~= b);
    }
}

/// Input order does not matter: two constellations made of the same points,
/// in which points at equal times are equal (in particular when all times
/// are distinct), have the same time-sorted form.
pub proof fn lemma_input_order_irrelevant(p: Seq<Point>, q: Seq<Point>)
    requires
        p.to_multiset() == q.to_multiset(),
        times_identify_points(p),
    ensures
        times_identify_points(q),
        time_sorted(p) == time_sorted(q),
{
    lemma_identify_permutation(p, q);
    lemma_time_sorted(p);
    lemma_time_sorted(q);
    lemma_identify_permutation(p, time_sorted(p));
    lemma_sorted_unique(time_sorted(p), time_sorted(q));
}

/// With fewer than two points, or no fan-out, there are no hashes.
proof fn lemma_no_hashes(points: Seq<Point>, zone_ms: u32, zone_hz: u16, fan_out: nat)
    requires
        points.len() < 2 || fan_out == 0,
    ensures
        spec_hashes(points, zone_ms, zone_hz, fan_out) == Seq::<CombinatorialHash>::empty(),
{
    lemma_no_hashes_upto(points, points.len(), zone_ms, zone_hz, fan_out);
}

proof fn lemma_no_hashes_upto(points: Seq<Point>, n: nat, zone_ms: u32, zone_hz: u16, fan_out: nat)
    requires
        points.len() < 2 || fan_out == 0,
        n <= points.len(),
    ensures
        hashes_upto(points, n, zone_ms, zone_hz, fan_out) == Seq::<CombinatorialHash>::empty(),
    decreases n,
{
    if n > 0 {
        lemma_no_hashes_upto(points, (n - 1) as nat, zone_ms, zone_hz, fan_out);
        let i = n - 1;
        if fan_out != 0 {
            assert(zone_end(points, i, (i + 1) as nat, zone_ms) == i + 1);
        }
        assert(anchor_hashes(points, i, zone_ms, zone_hz, fan_out) =~= Seq::empty());
        assert(hashes_upto(points, n, zone_ms, zone_hz, fan_out) =~= Seq::empty());
    }
}

/// Anchor times never decrease along the hashes.
pub open spec fn offsets_nondecreasing(hashes: Seq<CombinatorialHash>) -> bool {
    forall|i: int, j: int| 0 <= i <= j < hashes.len() ==> hashes[i].offset_ms <= hashes[j].offset_ms
}

/// Generate combinatorial hashes from a list of peaks (constellation points),
/// Shazam style: each anchor peak is paired with the peaks of its target zone
/// and each pair gives a hash of (anchor frequency, target frequency, time
/// delta). Points out of time order are first sorted by time.
pub fn generate_hashes(
    constellation: &[Point],
    target_zone_time_ms: u32,
    target_zone_freq_hz: u16,
    fan_out: usize,
) -> (hashes: Vec<CombinatorialHash>)
    ensures
        constellation@.len() < 2 || fan_out == 0 ==> hashes@.len() == 0,
        sorted_by_time(constellation@) ==> hashes@ == spec_hashes(
            constellation@,
            target_zone_time_ms,
            target_zone_freq_hz,
            fan_out as nat,
        ),
        times_identify_points(constellation@) ==> hashes@ == spec_hashes(
            time_sorted(constellation@),
            target_zone_time_ms,
            target_zone_freq_hz,
            fan_out as nat,
        ),
        exists|points: Seq<Point>|
            {
                &&& points.to_multiset() == constellation@.to_multiset()
                &&& sorted_by_time(points)
                &&& hashes@ == spec_hashes(points, target_zone_time_ms, target_zone_freq_hz, fan_out as nat)
            },
        hashes@.len() <= constellation@.len() * fan_out,
        offsets_nondecreasing(hashes@),
        sorted_by_time(constellation@) ==> forall|i: int, j: int|
            #![trigger constellation@[i], constellation@[j]]
            0 <= i < j < constellation@.len() && constellation@[j].0 <= constellation@[i].0 + target_zone_time_ms
                && freq_within(constellation@[i], constellation@[j], target_zone_freq_hz) && count_within(
                constellation@,
                i,
                i + 1,
                j,
                target_zone_freq_hz,
            ) < fan_out ==> hashes@.contains(
                CombinatorialHash {
                    hash: spec_pack_hash(
                        constellation@[i].1 as u32,
                        constellation@[j].1 as u32,
                        (constellation@[j].0 - constellation@[i].0) as u32,
                    ),
                    offset_ms: constellation@[i].0,
                },
            ),
{
    proof {
        lemma_time_sorted(constellation@);
    }
    if constellation.len() < 2 || fan_out == 0 {
        let empty: Vec<CombinatorialHash> = Vec::new();
        proof {
            let points = constellation@;
            let sorted = time_sorted(points);
            lemma_no_hashes(sorted, target_zone_time_ms, target_zone_freq_hz, fan_out as nat);
            lemma_no_hashes(points, target_zone_time_ms, target_zone_freq_hz, fan_out as nat);
            assert(empty@ =~= spec_hashes(sorted, target_zone_time_ms, target_zone_freq_hz, fan_out as nat));
            assert(0 <= constellation@.len() * fan_out) by (nonlinear_arith);
        }
        return empty;
    }
    let mut points: Vec<Point> = vstd::slice::slice_to_vec(constellation);
    if !is_sorted_by_time(points.as_slice()) {
        sort_points_by_time(&mut points);
    }
    let hashes = hashes_from_sorted(points.as_slice(), target_zone_time_ms, target_zone_freq_hz, fan_out);
    proof {
        let pts = points@;
        vstd::seq_lib::to_multiset_len(pts);
        vstd::seq_lib::to_multiset_len(constellation@);
        lemma_hash_count_bound(pts, target_zone_time_ms, target_zone_freq_hz, fan_out as nat);
        lemma_offsets_nondecreasing(pts, target_zone_time_ms, target_zone_freq_hz, fan_out as nat);
        if sorted_by_time(constellation@) {
            assert(pts =~= constellation@);
        }
        if times_identify_points(constellation@) {
            lemma_identify_permutation(constellation@, pts);
            lemma_sorted_unique(pts, time_sorted(constellation@));
        }
    }
    hashes
}

proof fn lemma_anchor_pairs_offsets(points: Seq<Point>, i: int, k: nat, end: nat, budget: nat, zone_hz: u16)
    ensures
        forall|m: int|
            0 <= m < anchor_pairs(points, i, k, end, budget, zone_hz).len() ==> (#[trigger] anchor_pairs(
                points,
                i,
                k,
                end,
                budget,
                zone_hz,
            )[m]).offset_ms == points[i].0,
{
    assert forall|m: int| 0 <= m < anchor_pairs(points, i, k, end, budget, zone_hz).len() implies (
    #[trigger] anchor_pairs(points, i, k, end, budget, zone_hz)[m]).offset_ms == points[i].0 by {
        lemma_anchor_pairs_members(points, i, k, end, budget, zone_hz, m);
    }
}

proof fn lemma_offsets_upto(points: Seq<Point>, n: nat, zone_ms: u32, zone_hz: u16, fan_out: nat)
    requires
        sorted_by_time(points),
        n <= points.len(),
    ensures
        offsets_nondecreasing(hashes_upto(points, n, zone_ms, zone_hz, fan_out)),
        n > 0 ==> forall|m: int|
            0 <= m < hashes_upto(points, n, zone_ms, zone_hz, fan_out).len() ==> (#[trigger] hashes_upto(
                points,
                n,
                zone_ms,
                zone_hz,
                fan_out,
            )[m]).offset_ms <= points[n - 1].0,
    decreases n,
{
    if n > 0 {
        let i = n - 1;
        lemma_offsets_upto(points, (n - 1) as nat, zone_ms, zone_hz, fan_out);
        let end = zone_end(points, i, (i + 1) as nat, zone_ms);
        lemma_anchor_pairs_offsets(points, i, (i + 1) as nat, end, fan_out, zone_hz);
        let prev = hashes_upto(points, (n - 1) as nat, zone_ms, zone_hz, fan_out);
        let block = anchor_hashes(points, i, zone_ms, zone_hz, fan_out);
        let all = hashes_upto(points, n, zone_ms, zone_hz, fan_out);
        assert(all == prev + block);
        assert forall|m: int| 0 <= m < prev.len() implies (#[trigger] prev[m]).offset_ms <= points[i].0 by {
            if i > 0 {
                assert(points[i - 1].0 <= points[i].0);
            }
        }
        assert forall|m: int| 0 <= m < all.len() implies (#[trigger] all[m]).offset_ms <= points[i].0 by {
            if m < prev.len() {
                assert(all[m] == prev[m]);
            } else {
                assert(all[m] == block[m - prev.len()]);
            }
        }
        assert forall|x: int, y: int| 0 <= x <= y < all.len() implies all[x].offset_ms <= all[y].offset_ms by {
            if y < prev.len() {
                assert(all[x] == prev[x] && all[y] == prev[y]);
            } else if x < prev.len() {
                assert(all[x] == prev[x]);
                assert(all[y] == block[y - prev.len()]);
            } else {
                assert(all[x] == block[x - prev.len()]);
                assert(all[y] == block[y - prev.len()]);
            }
        }
    }
}

/// The hashes of a time-sorted constellation come out in nondecreasing order
/// of anchor time.
pub proof fn lemma_offsets_nondecreasing(points: Seq<Point>, zone_ms: u32, zone_hz: u16, fan_out: nat)
    requires
        sorted_by_time(points),
    ensures
        offsets_nondecreasing(spec_hashes(points, zone_ms, zone_hz, fan_out)),
{
    lemma_offsets_upto(points, points.len(), zone_ms, zone_hz, fan_out);
}

/// The constellation with every time moved later by `shift` ms.
pub open spec fn shift_points(points: Seq<Point>, shift: u32) -> Seq<Point> {
    points.map_values(|p: Point| ((p.0 + shift) as u32, p.1))
}

/// The hashes with every anchor time moved later by `shift` ms.
pub open spec fn shift_hashes(hashes: Seq<CombinatorialHash>, shift: u32) -> Seq<CombinatorialHash> {
    hashes.map_values(
        |h: CombinatorialHash| CombinatorialHash { hash: h.hash, offset_ms: (h.offset_ms + shift) as u32 },
    )
}

/// No point's time zone reaches past `u32::MAX` once shifted.
pub open spec fn shift_fits(points: Seq<Point>, shift: u32, zone_ms: u32) -> bool {
    forall|i: int| 0 <= i < points.len() ==> #[trigger] points[i].0 + shift + zone_ms <= u32::MAX
}

proof fn lemma_shift_zone_end(points: Seq<Point>, shift: u32, i: int, k: nat, zone_ms: u32)
    requires
        0 <= i < points.len(),
        shift_fits(points, shift, zone_ms),
    ensures
        zone_end(shift_points(points, shift), i, k, zone_ms) == zone_end(points, i, k, zone_ms),
    decreases points.len() - k,
{
    let sp = shift_points(points, shift);
    assert(points[i].0 + shift + zone_ms <= u32::MAX);
    if k < points.len() {
        assert(points[k as int].0 + shift + zone_ms <= u32::MAX);
        lemma_shift_zone_end(points, shift, i, k + 1, zone_ms);
    }
}

proof fn lemma_shift_anchor_pairs(
    points: Seq<Point>,
    shift: u32,
    i: int,
    k: nat,
    end: nat,
    budget: nat,
    zone_ms: u32,
    zone_hz: u16,
)
    requires
        0 <= i < points.len(),
        end <= points.len(),
        shift_fits(points, shift, zone_ms),
    ensures
        anchor_pairs(shift_points(points, shift), i, k, end, budget, zone_hz) == shift_hashes(
            anchor_pairs(points, i, k, end, budget, zone_hz),
            shift,
        ),
    decreases end - k,
{
    let sp = shift_points(points, shift);
    if k >= end || budget == 0 {
        assert(shift_hashes(anchor_pairs(points, i, k, end, budget, zone_hz), shift) =~= Seq::empty());
    } else {
        assert(points[i].0 + shift + zone_ms <= u32::MAX);
        assert(points[k as int].0 + shift + zone_ms <= u32::MAX);
        if in_band(points[i].1, points[k as int].1, zone_hz) {
            lemma_shift_anchor_pairs(points, shift, i, k + 1, end, (budget - 1) as nat, zone_ms, zone_hz);
            let rest = anchor_pairs(points, i, k + 1, end, (budget - 1) as nat, zone_hz);
            assert(pair_hash(sp[i], sp[k as int]) == CombinatorialHash {
                hash: pair_hash(points[i], points[k as int]).hash,
                offset_ms: (pair_hash(points[i], points[k as int]).offset_ms + shift) as u32,
            });
            assert(shift_hashes(seq![pair_hash(points[i], points[k as int])] + rest, shift) =~= seq![
                pair_hash(sp[i], sp[k as int])] + shift_hashes(rest, shift));
        } else {
            lemma_shift_anchor_pairs(points, shift, i, k + 1, end, budget, zone_ms, zone_hz);
        }
    }
}

proof fn lemma_shift_hashes_upto(
    points: Seq<Point>,
    shift: u32,
    n: nat,
    zone_ms: u32,
    zone_hz: u16,
    fan_out: nat,
)
    requires
        n <= points.len(),
        shift_fits(points, shift, zone_ms),
    ensures
        hashes_upto(shift_points(points, shift), n, zone_ms, zone_hz, fan_out) == shift_hashes(
            hashes_upto(points, n, zone_ms, zone_hz, fan_out),
            shift,
        ),
    decreases n,
{
    let sp = shift_points(points, shift);
    if n == 0 {
        assert(shift_hashes(hashes_upto(points, n, zone_ms, zone_hz, fan_out), shift) =~= Seq::empty());
    } else {
        let i = n - 1;
        lemma_shift_hashes_upto(points, shift, (n - 1) as nat, zone_ms, zone_hz, fan_out);
        lemma_shift_zone_end(points, shift, i, (i + 1) as nat, zone_ms);
        lemma_zone_end_bound(points, i, (i + 1) as nat, zone_ms);
        lemma_shift_anchor_pairs(
            points,
            shift,
            i,
            (i + 1) as nat,
            zone_end(points, i, (i + 1) as nat, zone_ms),
            fan_out,
            zone_ms,
            zone_hz,
        );
        let a = hashes_upto(points, (n - 1) as nat, zone_ms, zone_hz, fan_out);
        let b = anchor_hashes(points, i, zone_ms, zone_hz, fan_out);
        assert(shift_hashes(a + b, shift) =~= shift_hashes(a, shift) + shift_hashes(b, shift));
    }
}

proof fn lemma_zone_end_bound(points: Seq<Point>, i: int, k: nat, zone_ms: u32)
    requires
        k <= points.len(),
    ensures
        k <= zone_end(points, i, k, zone_ms) <= points.len(),
    decreases points.len() - k,
{
    if k < points.len() {
        lemma_zone_end_bound(points, i, k + 1, zone_ms);
    }
}

/// Time-shift invariance: moving every point of a constellation later by the
/// same amount leaves the hash values unchanged and moves every anchor time by
/// that amount, as long as no time zone saturates at `u32::MAX`. This is what
/// lets a recording be matched against a track at any position.
pub proof fn lemma_hashes_shift_invariant(
    points: Seq<Point>,
    shift: u32,
    zone_ms: u32,
    zone_hz: u16,
    fan_out: nat,
)
    requires
        shift_fits(points, shift, zone_ms),
    ensures
        spec_hashes(shift_points(points, shift), zone_ms, zone_hz, fan_out) == shift_hashes(
            spec_hashes(points, zone_ms, zone_hz, fan_out),
            shift,
        ),
{
    lemma_shift_hashes_upto(points, shift, points.len(), zone_ms, zone_hz, fan_out);
}


/// `h` is the hash of anchor `i` and a later target `j` inside its time zone
/// and frequency band.
pub open spec fn is_zone_pair_hash(points: Seq<Point>, zone_ms: u32, zone_hz: u16, h: CombinatorialHash) -> bool {
    exists|i: int, j: int|
        0 <= i < j < points.len() && points[j].0 <= zone_time_max(points[i].0, zone_ms) && in_band(
            points[i].1,
            points[j].1,
            zone_hz,
        ) && h == #[trigger] pair_hash(points[i], points[j])
}

proof fn lemma_zone_end_within(points: Seq<Point>, i: int, k: nat, zone_ms: u32, j: int)
    requires
        k <= j < zone_end(points, i, k, zone_ms),
    ensures
        j < points.len(),
        points[j].0 <= zone_time_max(points[i].0, zone_ms),
    decreases points.len() - k,
{
    if k < points.len() && points[k as int].0 <= zone_time_max(points[i].0, zone_ms) && j > k {
        lemma_zone_end_within(points, i, k + 1, zone_ms, j);
    }
}

proof fn lemma_anchor_pairs_members(
    points: Seq<Point>,
    i: int,
    k: nat,
    end: nat,
    budget: nat,
    zone_hz: u16,
    m: int,
)
    requires
        0 <= m < anchor_pairs(points, i, k, end, budget, zone_hz).len(),
    ensures
        exists|j: int|
            k <= j < end && in_band(points[i].1, points[j].1, zone_hz) && anchor_pairs(points, i, k, end, budget, zone_hz)[m]
                == #[trigger] pair_hash(points[i], points[j]),
    decreases end - k,
{
    if k < end && budget > 0 {
        if in_band(points[i].1, points[k as int].1, zone_hz) {
            if m > 0 {
                lemma_anchor_pairs_members(points, i, k + 1, end, (budget - 1) as nat, zone_hz, m - 1);
                let j = choose|j: int|
                    k + 1 <= j < end && in_band(points[i].1, points[j].1, zone_hz) && anchor_pairs(
                        points, i, k + 1, end, (budget - 1) as nat, zone_hz)[m - 1] == #[trigger] pair_hash(points[i], points[j]);
                assert(anchor_pairs(points, i, k, end, budget, zone_hz)[m] == pair_hash(points[i], points[j]));
            } else {
                assert(anchor_pairs(points, i, k, end, budget, zone_hz)[0] == pair_hash(points[i], points[k as int]));
            }
        } else {
            lemma_anchor_pairs_members(points, i, k + 1, end, budget, zone_hz, m);
        }
    }
}

proof fn lemma_hashes_upto_members(points: Seq<Point>, n: nat, zone_ms: u32, zone_hz: u16, fan_out: nat, m: int)
    requires
        n <= points.len(),
        0 <= m < hashes_upto(points, n, zone_ms, zone_hz, fan_out).len(),
    ensures
        is_zone_pair_hash(points, zone_ms, zone_hz, hashes_upto(points, n, zone_ms, zone_hz, fan_out)[m]),
    decreases n,
{
    let prev = hashes_upto(points, (n - 1) as nat, zone_ms, zone_hz, fan_out);
    let i = n - 1;
    if m < prev.len() {
        lemma_hashes_upto_members(points, (n - 1) as nat, zone_ms, zone_hz, fan_out, m);
        assert(hashes_upto(points, n, zone_ms, zone_hz, fan_out)[m] == prev[m]);
    } else {
        let end = zone_end(points, i, (i + 1) as nat, zone_ms);
        lemma_anchor_pairs_members(points, i, (i + 1) as nat, end, fan_out, zone_hz, m - prev.len());
        let j = choose|j: int|
            i + 1 <= j < end && in_band(points[i].1, points[j].1, zone_hz) && anchor_pairs(
                points, i, (i + 1) as nat, end, fan_out, zone_hz)[m - prev.len()] == #[trigger] pair_hash(points[i], points[j]);
        lemma_zone_end_within(points, i, (i + 1) as nat, zone_ms, j);
        assert(hashes_upto(points, n, zone_ms, zone_hz, fan_out)[m] == pair_hash(points[i], points[j]));
    }
}

/// Every hash pairs an anchor with a later point of the constellation that
/// lies within the anchor's time zone and frequency band: its value packs
/// the two frequencies and their time difference, and its offset is the
/// anchor's time.
pub proof fn lemma_hashes_are_zone_pairs(points: Seq<Point>, zone_ms: u32, zone_hz: u16, fan_out: nat, m: int)
    requires
        0 <= m < spec_hashes(points, zone_ms, zone_hz, fan_out).len(),
    ensures
        is_zone_pair_hash(points, zone_ms, zone_hz, spec_hashes(points, zone_ms, zone_hz, fan_out)[m]),
{
    lemma_hashes_upto_members(points, points.len(), zone_ms, zone_hz, fan_out, m);
}

/// Dequantization error: a frequency below 4096 Hz is recovered from its
/// 10-bit field to within 4 Hz, from below.
pub proof fn lemma_quantize_close(f: u32)
    requires
        f < 4096,
    ensures
        quantize_freq(f) * 4 <= f < quantize_freq(f) * 4 + 4,
{
}

/// Each anchor gives at most `fan_out` hashes, so a constellation of `n`
/// points gives at most `n * fan_out`.
pub proof fn lemma_hash_count_bound(points: Seq<Point>, zone_ms: u32, zone_hz: u16, fan_out: nat)
    ensures
        spec_hashes(points, zone_ms, zone_hz, fan_out).len() <= points.len() * fan_out,
{
    lemma_hash_count_upto(points, points.len(), zone_ms, zone_hz, fan_out);
}

proof fn lemma_hash_count_upto(points: Seq<Point>, n: nat, zone_ms: u32, zone_hz: u16, fan_out: nat)
    ensures
        hashes_upto(points, n, zone_ms, zone_hz, fan_out).len() <= n * fan_out,
    decreases n,
{
    if n > 0 {
        let i = n - 1;
        lemma_hash_count_upto(points, (n - 1) as nat, zone_ms, zone_hz, fan_out);
        lemma_anchor_pairs_len(points, i, (i + 1) as nat, zone_end(points, i, (i + 1) as nat, zone_ms), fan_out, zone_hz);
        assert((n - 1) * fan_out + fan_out == n * fan_out) by (nonlinear_arith);
    }
}

proof fn lemma_anchor_pairs_len(points: Seq<Point>, i: int, k: nat, end: nat, budget: nat, zone_hz: u16)
    ensures
        anchor_pairs(points, i, k, end, budget, zone_hz).len() <= budget,
    decreases end - k,
{
    if k < end && budget > 0 {
        if in_band(points[i].1, points[k as int].1, zone_hz) {
            lemma_anchor_pairs_len(points, i, k + 1, end, (budget - 1) as nat, zone_hz);
        } else {
            lemma_anchor_pairs_len(points, i, k + 1, end, budget, zone_hz);
        }
    }
}

/// The target's frequency is within `zone_hz` of the anchor's.
pub open spec fn freq_within(anchor: Point, target: Point, zone_hz: u16) -> bool {
    anchor.1 - zone_hz <= target.1 <= anchor.1 + zone_hz
}

/// How many of the points at indices `lo..hi` are within `zone_hz` of the
/// frequency of point `i`.
pub open spec fn count_within(points: Seq<Point>, i: int, lo: int, hi: int, zone_hz: u16) -> nat
    decreases hi - lo,
{
    if lo >= hi {
        0
    } else {
        (if freq_within(points[i], points[lo], zone_hz) { 1nat } else { 0nat }) + count_within(
            points,
            i,
            lo + 1,
            hi,
            zone_hz,
        )
    }
}

proof fn lemma_in_band_within(f1: u16, f2: u16, zone_hz: u16)
    ensures
        in_band(f1, f2, zone_hz) <==> f1 - zone_hz <= f2 <= f1 + zone_hz,
{
}

proof fn lemma_zone_end_past(points: Seq<Point>, i: int, k: nat, zone_ms: u32, j: int)
    requires
        0 <= i < points.len(),
        k <= j < points.len(),
        forall|m: int| k <= m <= j ==> #[trigger] points[m].0 <= zone_time_max(points[i].0, zone_ms),
    ensures
        j < zone_end(points, i, k, zone_ms),
    decreases j - k,
{
    assert(points[k as int].0 <= zone_time_max(points[i].0, zone_ms));
    if k == j {
        lemma_zone_end_bound(points, i, k + 1, zone_ms);
    } else {
        lemma_zone_end_past(points, i, k + 1, zone_ms, j);
    }
}

proof fn lemma_anchor_pairs_has(
    points: Seq<Point>,
    i: int,
    k: nat,
    end: nat,
    budget: nat,
    zone_hz: u16,
    j: int,
)
    requires
        0 <= i < points.len(),
        k <= j < end <= points.len(),
        freq_within(points[i], points[j], zone_hz),
        count_within(points, i, k as int, j, zone_hz) < budget,
    ensures
        anchor_pairs(points, i, k, end, budget, zone_hz).contains(pair_hash(points[i], points[j])),
    decreases j - k,
{
    let x = pair_hash(points[i], points[j]);
    lemma_in_band_within(points[i].1, points[k as int].1, zone_hz);
    if k == j {
        assert(anchor_pairs(points, i, k, end, budget, zone_hz)[0] == x);
    } else if in_band(points[i].1, points[k as int].1, zone_hz) {
        lemma_anchor_pairs_has(points, i, k + 1, end, (budget - 1) as nat, zone_hz, j);
        let rest = anchor_pairs(points, i, k + 1, end, (budget - 1) as nat, zone_hz);
        let r = choose|r: int| 0 <= r < rest.len() && rest[r] == x;
        let whole = seq![pair_hash(points[i], points[k as int])] + rest;
        assert(whole[r + 1] == x);
    } else {
        lemma_anchor_pairs_has(points, i, k + 1, end, budget, zone_hz, j);
    }
}

proof fn lemma_hashes_upto_has(points: Seq<Point>, n: nat, zone_ms: u32, zone_hz: u16, fan_out: nat, i: int, x: CombinatorialHash)
    requires
        0 <= i < n <= points.len(),
        anchor_hashes(points, i, zone_ms, zone_hz, fan_out).contains(x),
    ensures
        hashes_upto(points, n, zone_ms, zone_hz, fan_out).contains(x),
    decreases n,
{
    let prev = hashes_upto(points, (n - 1) as nat, zone_ms, zone_hz, fan_out);
    let block = anchor_hashes(points, n - 1, zone_ms, zone_hz, fan_out);
    let all = hashes_upto(points, n, zone_ms, zone_hz, fan_out);
    assert(all == prev + block);
    if i == n - 1 {
        let r = choose|r: int| 0 <= r < block.len() && block[r] == x;
        assert(all[prev.len() + r] == x);
    } else {
        lemma_hashes_upto_has(points, (n - 1) as nat, zone_ms, zone_hz, fan_out, i, x);
        let r = choose|r: int| 0 <= r < prev.len() && prev[r] == x;
        assert(all[r] == x);
    }
}

/// Completeness of the pairing: in a time-sorted constellation, every later
/// point at most `zone_ms` after an anchor and within `zone_hz` of its
/// frequency is paired with it, as long as fewer than `fan_out` points
/// before it (and after the anchor) are within that frequency band.
pub proof fn lemma_hashes_complete(points: Seq<Point>, zone_ms: u32, zone_hz: u16, fan_out: nat, i: int, j: int)
    requires
        sorted_by_time(points),
        0 <= i < j < points.len(),
        points[j].0 <= points[i].0 + zone_ms,
        freq_within(points[i], points[j], zone_hz),
        count_within(points, i, i + 1, j, zone_hz) < fan_out,
    ensures
        spec_hashes(points, zone_ms, zone_hz, fan_out).contains(
            CombinatorialHash {
                hash: spec_pack_hash(points[i].1 as u32, points[j].1 as u32, (points[j].0 - points[i].0) as u32),
                offset_ms: points[i].0,
            },
        ),
{
    assert forall|m: int| i + 1 <= m <= j implies #[trigger] points[m].0 <= zone_time_max(points[i].0, zone_ms) by {
        assert(points[m].0 <= points[j].0);
    }
    lemma_zone_end_past(points, i, (i + 1) as nat, zone_ms, j);
    let end = zone_end(points, i, (i + 1) as nat, zone_ms);
    lemma_zone_end_bound(points, i, (i + 1) as nat, zone_ms);
    lemma_anchor_pairs_has(points, i, (i + 1) as nat, end, fan_out, zone_hz, j);
    lemma_hashes_upto_has(points, points.len(), zone_ms, zone_hz, fan_out, i, pair_hash(points[i], points[j]));
}

/// `idx` places the items of `a`, in order, at increasing positions of `b`.
pub open spec fn embeds(a: Seq<CombinatorialHash>, b: Seq<CombinatorialHash>, idx: Seq<int>) -> bool {
    &&& idx.len() == a.len()
    &&& forall|i: int| 0 <= i < a.len() ==> 0 <= #[trigger] idx[i] < b.len() && b[idx[i]] == a[i]
    &&& forall|i: int, j: int| 0 <= i < j < a.len() ==> idx[i] < idx[j]
}

/// `a` is a subsequence of `b`: `b` with some items left out.
pub open spec fn is_subsequence(a: Seq<CombinatorialHash>, b: Seq<CombinatorialHash>) -> bool {
    exists|idx: Seq<int>| embeds(a, b, idx)
}

/// The positions `idx`, moved `by` later.
spec fn shift_positions(idx: Seq<int>, by: int) -> Seq<int> {
    idx.map_values(|x: int| x + by)
}

proof fn lemma_embeds_concat(
    a1: Seq<CombinatorialHash>,
    b1: Seq<CombinatorialHash>,
    i1: Seq<int>,
    a2: Seq<CombinatorialHash>,
    b2: Seq<CombinatorialHash>,
    i2: Seq<int>,
)
    requires
        embeds(a1, b1, i1),
        embeds(a2, b2, i2),
    ensures
        embeds(a1 + a2, b1 + b2, i1 + shift_positions(i2, b1.len() as int)),
{
    let idx = i1 + shift_positions(i2, b1.len() as int);
    let a = a1 + a2;
    let b = b1 + b2;
    assert forall|i: int| 0 <= i < a.len() implies 0 <= #[trigger] idx[i] < b.len() && b[idx[i]] == a[i] by {
        if i >= a1.len() {
            assert(idx[i] == i2[i - a1.len()] + b1.len());
        }
    }
    assert forall|i: int, j: int| 0 <= i < j < a.len() implies idx[i] < idx[j] by {
        if i >= a1.len() {
            assert(idx[i] == i2[i - a1.len()] + b1.len());
            assert(idx[j] == i2[j - a1.len()] + b1.len());
        } else if j >= a1.len() {
            assert(idx[j] == i2[j - a1.len()] + b1.len());
        }
    }
}

proof fn lemma_anchor_pairs_fan_out(
    points: Seq<Point>,
    i: int,
    k: nat,
    end: nat,
    budget: nat,
    zone_hz: u16,
) -> (idx: Seq<int>)
    ensures
        embeds(
            anchor_pairs(points, i, k, end, budget, zone_hz),
            anchor_pairs(points, i, k, end, budget + 1, zone_hz),
            idx,
        ),
    decreases end - k,
{
    let small = anchor_pairs(points, i, k, end, budget, zone_hz);
    let large = anchor_pairs(points, i, k, end, budget + 1, zone_hz);
    if k >= end || budget == 0 {
        assert(small =~= Seq::empty());
        Seq::empty()
    } else if in_band(points[i].1, points[k as int].1, zone_hz) {
        let rest = lemma_anchor_pairs_fan_out(points, i, k + 1, end, (budget - 1) as nat, zone_hz);
        let tail_small = anchor_pairs(points, i, k + 1, end, (budget - 1) as nat, zone_hz);
        let tail_large = anchor_pairs(points, i, k + 1, end, budget, zone_hz);
        assert(((budget - 1) as nat) + 1 == budget);
        let head = seq![pair_hash(points[i], points[k as int])];
        assert(embeds(head, head, seq![0int]));
        lemma_embeds_concat(head, head, seq![0int], tail_small, tail_large, rest);
        seq![0int] + shift_positions(rest, 1)
    } else {
        lemma_anchor_pairs_fan_out(points, i, k + 1, end, budget, zone_hz)
    }
}

proof fn lemma_hashes_upto_fan_out(points: Seq<Point>, n: nat, zone_ms: u32, zone_hz: u16, fan_out: nat) -> (idx: Seq<int>)
    ensures
        embeds(
            hashes_upto(points, n, zone_ms, zone_hz, fan_out),
            hashes_upto(points, n, zone_ms, zone_hz, fan_out + 1),
            idx,
        ),
    decreases n,
{
    if n == 0 {
        Seq::empty()
    } else {
        let i = n - 1;
        let prev = lemma_hashes_upto_fan_out(points, (n - 1) as nat, zone_ms, zone_hz, fan_out);
        let end = zone_end(points, i, (i + 1) as nat, zone_ms);
        let block = lemma_anchor_pairs_fan_out(points, i, (i + 1) as nat, end, fan_out, zone_hz);
        let b1 = hashes_upto(points, (n - 1) as nat, zone_ms, zone_hz, fan_out + 1);
        lemma_embeds_concat(
            hashes_upto(points, (n - 1) as nat, zone_ms, zone_hz, fan_out),
            b1,
            prev,
            anchor_hashes(points, i, zone_ms, zone_hz, fan_out),
            anchor_hashes(points, i, zone_ms, zone_hz, fan_out + 1),
            block,
        );
        prev + shift_positions(block, b1.len() as int)
    }
}

/// Raising the fan-out by one only adds hashes: the hashes for `fan_out`
/// are those for `fan_out + 1` with some left out, in the same order.
pub proof fn lemma_fan_out_subsequence(points: Seq<Point>, zone_ms: u32, zone_hz: u16, fan_out: nat)
    ensures
        is_subsequence(
            spec_hashes(points, zone_ms, zone_hz, fan_out),
            spec_hashes(points, zone_ms, zone_hz, fan_out + 1),
        ),
{
    let idx = lemma_hashes_upto_fan_out(points, points.len(), zone_ms, zone_hz, fan_out);
    assert(embeds(
        spec_hashes(points, zone_ms, zone_hz, fan_out),
        spec_hashes(points, zone_ms, zone_hz, fan_out + 1),
        idx,
    ));
}

/// Pairs each hash with a track id as database columns: the hash widened to
/// `i64`, the offset reinterpreted as `i32`.
pub fn hashes_to_db_records(hashes: &[CombinatorialHash], track_id: Uuid) -> (records: Vec<(i64, Uuid, i32)>)
    ensures
        records@.len() == hashes@.len(),
        forall|i: int|
            0 <= i < hashes@.len() ==> #[trigger] records@[i] == (
                hashes@[i].hash as i64,
                track_id,
                hashes@[i].offset_ms as i32,
            ),
{
    let mut records: Vec<(i64, Uuid, i32)> = Vec::new();
    let mut i: usize = 0;
    while i < hashes.len()
        invariant
            i <= hashes@.len(),
            records@.len() == i,
            forall|j: int|
                0 <= j < i ==> #[trigger] records@[j] == (
                    hashes@[j].hash as i64,
                    track_id,
                    hashes@[j].offset_ms as i32,
                ),
        decreases hashes@.len() - i,
    {
        let h = hashes[i];
        records.push((h.hash as i64, track_id, h.offset_ms as i32));
        i += 1;
    }
    records
}

} // verus!
