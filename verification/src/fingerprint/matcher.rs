use vstd::prelude::*;
use std::collections::HashMap;
use crate::fingerprint::hasher::CombinatorialHash;

verus! {

broadcast use vstd::std_specs::hash::group_hash_axioms;

/// One fingerprint fetched from the database for a lookup: a stored hash, the
/// track it belongs to (its id as an integer) and its time in that track.
#[derive(Debug, Clone, Copy, PartialEq, Eq)]
pub struct FingerprintRow {
    pub hash: i64,
    pub track_id: u128,
    pub offset_ms: i32,
}

/// The anchor times of the sample hashes whose value is `hash`, in sample order.
pub open spec fn sample_offsets(sample: Seq<CombinatorialHash>, hash: i64) -> Seq<u32>
    decreases sample.len(),
{
    if sample.len() == 0 {
        Seq::empty()
    } else {
        let rest = sample_offsets(sample.drop_last(), hash);
        if sample.last().hash as i64 == hash {
            rest.push(sample.last().offset_ms)
        } else {
            rest
        }
    }
}

/// The lookup table's entry for `hash` (empty when absent).
pub open spec fn table_entry(table: Map<i64, Vec<u32>>, hash: i64) -> Seq<u32> {
    if table.contains_key(hash) {
        table[hash]@
    } else {
        Seq::empty()
    }
}

/// Groups the anchor times of the sample hashes by hash value.
fn group_sample_offsets(sample: &[CombinatorialHash]) -> (table: HashMap<i64, Vec<u32>>)
    ensures
        forall|hash: i64| #[trigger] table_entry(table@, hash) == sample_offsets(sample@, hash),
{
    let mut table: HashMap<i64, Vec<u32>> = HashMap::new();
    let mut i: usize = 0;
    while i < sample.len()
        invariant
            i <= sample@.len(),
            forall|hash: i64| #[trigger] table_entry(table@, hash) == sample_offsets(sample@.take(i as int), hash),
        decreases sample@.len() - i,
    {
        let h = sample[i];
        let key = h.hash as i64;
        let ghost before = table@;
        let list = table.entry(key).or_insert(Vec::new());
        list.push(h.offset_ms);
        assert(sample@.take(i + 1).drop_last() =~= sample@.take(i as int));
        assert forall|hash: i64| #[trigger] table_entry(table@, hash) == sample_offsets(sample@.take(i + 1), hash) by {
            if hash == key {
                assert(table_entry(table@, hash) =~= table_entry(before, hash).push(h.offset_ms));
            } else {
                assert(table_entry(table@, hash) == table_entry(before, hash));
            }
        }
        i += 1;
    }
    assert(sample@.take(sample@.len() as int) =~= sample@);
    table
}


/// Votes of one database time `db_offset` for the alignment `off`: how many of
/// the sample times `t` give `db_offset - t == off`.
pub open spec fn offset_votes(offsets: Seq<u32>, db_offset: i32, off: int) -> nat
    decreases offsets.len(),
{
    if offsets.len() == 0 {
        0
    } else {
        offset_votes(offsets.drop_last(), db_offset, off) + if db_offset - (offsets.last() as i32) == off {
            1nat
        } else {
            0nat
        }
    }
}

/// Votes of one database row for (track, alignment).
pub open spec fn row_votes(sample: Seq<CombinatorialHash>, row: FingerprintRow, track: u128, off: int) -> nat {
    if row.track_id == track {
        offset_votes(sample_offsets(sample, row.hash), row.offset_ms, off)
    } else {
        0
    }
}

/// The offset histogram: the number of (database row, sample hash) pairs with
/// equal hash values that place the sample at `off` ms into `track`.
pub open spec fn votes(
    sample: Seq<CombinatorialHash>,
    rows: Seq<FingerprintRow>,
    track: u128,
    off: int,
) -> nat
    decreases rows.len(),
{
    if rows.len() == 0 {
        0
    } else {
        votes(sample, rows.drop_last(), track, off) + row_votes(sample, rows.last(), track, off)
    }
}

/// Every alignment of a database row with a sample hash of equal value is a
/// difference of times that fits in `i32`.
pub open spec fn alignments_fit(sample: Seq<CombinatorialHash>, rows: Seq<FingerprintRow>) -> bool {
    forall|r: int, s: int|
        0 <= r < rows.len() && 0 <= s < sample.len() && #[trigger] sample[s].hash as i64
            == #[trigger] rows[r].hash ==> i32::MIN <= rows[r].offset_ms - (sample[s].offset_ms as i32)
            <= i32::MAX
}

/// The histogram key of (track number, alignment).
spec fn cell_key(idx: usize, off: i32) -> u128 {
    (idx as u128 * 0x1_0000_0000 + (off as u32) as u128) as u128
}

proof fn lemma_cell_key_injective(a: usize, o1: i32, b: usize, o2: i32)
    requires
        cell_key(a, o1) == cell_key(b, o2),
    ensures
        a == b,
        o1 == o2,
{
    let x = o1 as u32;
    let y = o2 as u32;
    assert(a as int * 0x1_0000_0000 + x == b as int * 0x1_0000_0000 + y);
    assert(a == b && x == y) by (nonlinear_arith)
        requires
            a as int * 0x1_0000_0000 + x == b as int * 0x1_0000_0000 + y,
            0 <= x < 0x1_0000_0000,
            0 <= y < 0x1_0000_0000,
            a >= 0,
            b >= 0,
    ;
    assert(o1 == o2) by (bit_vector)
        requires
            o1 as u32 == o2 as u32,
    ;
}

fn compute_cell_key(idx: usize, off: i32) -> (key: u128)
    ensures
        key == cell_key(idx, off),
{
    let o = off as u32;
    assert(idx as int * 0x1_0000_0000 + o <= u128::MAX) by (nonlinear_arith)
        requires
            idx <= usize::MAX,
            o <= u32::MAX,
            usize::MAX <= u64::MAX,
    ;
    (idx as u128) * 0x1_0000_0000 + (o as u128)
}

proof fn lemma_sample_offsets_len(sample: Seq<CombinatorialHash>, hash: i64)
    ensures
        sample_offsets(sample, hash).len() <= sample.len(),
    decreases sample.len(),
{
    if sample.len() > 0 {
        lemma_sample_offsets_len(sample.drop_last(), hash);
    }
}

proof fn lemma_sample_offsets_elem(sample: Seq<CombinatorialHash>, hash: i64, j: int)
    requires
        0 <= j < sample_offsets(sample, hash).len(),
    ensures
        exists|s: int|
            0 <= s < sample.len() && sample[s].hash as i64 == hash && sample[s].offset_ms
                == sample_offsets(sample, hash)[j],
    decreases sample.len(),
{
    let rest = sample_offsets(sample.drop_last(), hash);
    if j < rest.len() {
        lemma_sample_offsets_elem(sample.drop_last(), hash, j);
        let s = choose|s: int|
            0 <= s < sample.drop_last().len() && sample.drop_last()[s].hash as i64 == hash
                && sample.drop_last()[s].offset_ms == rest[j];
        assert(sample[s] == sample.drop_last()[s]);
    } else {
        assert(sample[sample.len() - 1].hash as i64 == hash);
    }
}

proof fn lemma_offset_votes_take(offsets: Seq<u32>, db_offset: i32, off: int, j: int)
    requires
        0 <= j < offsets.len(),
    ensures
        offset_votes(offsets.take(j + 1), db_offset, off) == offset_votes(offsets.take(j), db_offset, off)
            + if db_offset - (offsets[j] as i32) == off { 1nat } else { 0nat },
        offset_votes(offsets.take(j), db_offset, off) <= j,
{
    assert(offsets.take(j + 1).drop_last() =~= offsets.take(j));
    lemma_offset_votes_bound(offsets.take(j), db_offset, off);
}

proof fn lemma_offset_votes_bound(offsets: Seq<u32>, db_offset: i32, off: int)
    ensures
        offset_votes(offsets, db_offset, off) <= offsets.len(),
    decreases offsets.len(),
{
    if offsets.len() > 0 {
        lemma_offset_votes_bound(offsets.drop_last(), db_offset, off);
    }
}

proof fn lemma_votes_bound(sample: Seq<CombinatorialHash>, rows: Seq<FingerprintRow>, track: u128, off: int)
    ensures
        votes(sample, rows, track, off) <= rows.len() * sample.len(),
    decreases rows.len(),
{
    if rows.len() > 0 {
        lemma_votes_bound(sample, rows.drop_last(), track, off);
        let row = rows.last();
        lemma_offset_votes_bound(sample_offsets(sample, row.hash), row.offset_ms, off);
        lemma_sample_offsets_len(sample, row.hash);
        let n = rows.len();
        let m = sample.len();
        assert((n - 1) * m + m == n * m) by (nonlinear_arith);
    }
}

/// Votes gathered after the first `i` rows and the first `j` sample times of row `i`.
spec fn partial_votes(
    sample: Seq<CombinatorialHash>,
    rows: Seq<FingerprintRow>,
    i: int,
    j: int,
    track: u128,
    off: int,
) -> nat {
    votes(sample, rows.take(i), track, off) + if i < rows.len() && rows[i].track_id == track {
        offset_votes(sample_offsets(sample, rows[i].hash).take(j), rows[i].offset_ms, off)
    } else {
        0nat
    }
}


/// The histogram built by `tally_votes`: tracks by first appearance, the vote
/// count of each (track number, alignment) cell, and the cells by first vote.
struct Tally {
    tracks: Vec<u128>,
    track_index: HashMap<u128, usize>,
    counts: HashMap<u128, usize>,
    cells: Vec<(usize, i32)>,
}

/// The tally holds exactly the votes counted so far (`partial_votes` at `i`, `j`).
spec fn tally_inv(
    sample: Seq<CombinatorialHash>,
    rows: Seq<FingerprintRow>,
    i: int,
    j: int,
    tracks: Seq<u128>,
    index: Map<u128, usize>,
    counts: Map<u128, usize>,
    cells: Seq<(usize, i32)>,
) -> bool {
    &&& forall|k1: int, k2: int|
        0 <= k1 < tracks.len() && 0 <= k2 < tracks.len() && k1 != k2 ==> #[trigger] tracks[k1]
            != #[trigger] tracks[k2]
    &&& forall|k: int| 0 <= k < tracks.len() ==> #[trigger] index.contains_key(tracks[k]) && index[tracks[k]] == k
    &&& forall|t: u128| #[trigger] index.contains_key(t) ==> index[t] < tracks.len() && tracks[index[t] as int] == t
    &&& forall|t: u128, off: i32| #[trigger] partial_votes(sample, rows, i, j, t, off as int) > 0 ==> index.contains_key(t)
    &&& forall|k: usize, off: i32| #[trigger] counts.contains_key(cell_key(k, off)) ==> k < tracks.len()
    &&& forall|k: usize, off: i32|
        k < tracks.len() ==> (#[trigger] counts.contains_key(cell_key(k, off)) <==> partial_votes(
            sample,
            rows,
            i,
            j,
            tracks[k as int],
            off as int,
        ) > 0)
    &&& forall|k: usize, off: i32|
        k < tracks.len() && #[trigger] counts.contains_key(cell_key(k, off)) ==> counts[cell_key(k, off)]
            == partial_votes(sample, rows, i, j, tracks[k as int], off as int)
    &&& forall|c: int|
        0 <= c < cells.len() ==> (#[trigger] cells[c]).0 < tracks.len() && partial_votes(
            sample,
            rows,
            i,
            j,
            tracks[cells[c].0 as int],
            cells[c].1 as int,
        ) > 0
    &&& forall|c1: int, c2: int|
        0 <= c1 < cells.len() && 0 <= c2 < cells.len() && c1 != c2 ==> #[trigger] cells[c1]
            != #[trigger] cells[c2]
    &&& forall|k: usize, off: i32|
        k < tracks.len() && #[trigger] partial_votes(sample, rows, i, j, tracks[k as int], off as int) > 0
            ==> cells.contains((k, off))
}

proof fn lemma_partial_votes_next_row(sample: Seq<CombinatorialHash>, rows: Seq<FingerprintRow>, i: int, t: u128, off: int)
    requires
        0 <= i < rows.len(),
    ensures
        partial_votes(sample, rows, i, sample_offsets(sample, rows[i].hash).len() as int, t, off)
            == partial_votes(sample, rows, i + 1, 0, t, off),
{
    let list = sample_offsets(sample, rows[i].hash);
    assert(list.take(list.len() as int) =~= list);
    assert(rows.take(i + 1).drop_last() =~= rows.take(i));
    assert(rows.take(i + 1).last() == rows[i]);
    let empty: Seq<u32> = Seq::empty();
    if i + 1 < rows.len() {
        assert(sample_offsets(sample, rows[i + 1].hash).take(0) =~= empty);
    }
}

/// Counts the votes of every (database row, sample hash) pair with equal hash
/// values, per (track, alignment).
#[verifier::rlimit(50)]
fn tally_votes(sample: &[CombinatorialHash], rows: &[FingerprintRow]) -> (tally: Tally)
    requires
        alignments_fit(sample@, rows@),
        rows@.len() * sample@.len() <= usize::MAX,
    ensures
        tally_inv(
            sample@,
            rows@,
            rows@.len() as int,
            0,
            tally.tracks@,
            tally.track_index@,
            tally.counts@,
            tally.cells@,
        ),
{
    let ghost smp = sample@;
    let ghost rws = rows@;
    let table = group_sample_offsets(sample);
    let mut tracks: Vec<u128> = Vec::new();
    let mut track_index: HashMap<u128, usize> = HashMap::new();
    let mut counts: HashMap<u128, usize> = HashMap::new();
    let mut cells: Vec<(usize, i32)> = Vec::new();
    let mut i: usize = 0;
    assert forall|t: u128, off: i32| #[trigger] partial_votes(smp, rws, 0, 0, t, off as int) == 0 by {
        assert(rws.take(0) =~= Seq::<FingerprintRow>::empty());
        if 0 < rws.len() {
            assert(sample_offsets(smp, rws[0].hash).take(0) =~= Seq::<u32>::empty());
        }
    }
    while i < rows.len()
        invariant
            smp == sample@,
            rws == rows@,
            alignments_fit(smp, rws),
            rws.len() * smp.len() <= usize::MAX,
            i <= rws.len(),
            forall|hash: i64| #[trigger] table_entry(table@, hash) == sample_offsets(smp, hash),
            tally_inv(smp, rws, i as int, 0, tracks@, track_index@, counts@, cells@),
        decreases rws.len() - i,
    {
        let row = rows[i];
        let ghost list_spec = sample_offsets(smp, row.hash);
        assert(table_entry(table@, row.hash) == list_spec);
        match table.get(&row.hash) {
            None => {
                assert(list_spec.len() == 0);
                assert forall|t: u128, off: i32|
                    #[trigger] partial_votes(smp, rws, i + 1, 0, t, off as int)
                        == partial_votes(smp, rws, i as int, 0, t, off as int) by {
                    lemma_partial_votes_next_row(smp, rws, i as int, t, off as int);
                }
            },
            Some(list) => {
                assert(list@ == list_spec);
                if list.len() > 0 {
                    let idx: usize = match track_index.get(&row.track_id) {
                        Some(k) => *k,
                        None => {
                            let k = tracks.len();
                            tracks.push(row.track_id);
                            track_index.insert(row.track_id, k);
                            k
                        },
                    };
                    assert(idx < tracks@.len() && tracks@[idx as int] == row.track_id);
                    assert(tally_inv(smp, rws, i as int, 0, tracks@, track_index@, counts@, cells@));
                    let mut j: usize = 0;
                    while j < list.len()
                        invariant
                            smp == sample@,
                            rws == rows@,
                            alignments_fit(smp, rws),
                            rws.len() * smp.len() <= usize::MAX,
                            i < rws.len(),
                            row == rws[i as int],
                            list@ == list_spec,
                            list_spec == sample_offsets(smp, row.hash),
                            j <= list@.len(),
                            idx < tracks@.len(),
                            tracks@[idx as int] == row.track_id,
                            tally_inv(smp, rws, i as int, j as int, tracks@, track_index@, counts@, cells@),
                        decreases list@.len() - j,
                    {
                        let o = list[j];
                        proof {
                            lemma_sample_offsets_elem(smp, row.hash, j as int);
                            let s = choose|s: int|
                                0 <= s < smp.len() && smp[s].hash as i64 == row.hash && smp[s].offset_ms == list_spec[j as int];
                            assert(smp[s].hash as i64 == rws[i as int].hash);
                        }
                        let off = row.offset_ms - (o as i32);
                        let key = compute_cell_key(idx, off);
                        proof {
                            assert forall|t: u128, o2: i32|
                                #[trigger] partial_votes(smp, rws, i as int, j + 1, t, o2 as int)
                                    == partial_votes(smp, rws, i as int, j as int, t, o2 as int)
                                        + if t == row.track_id && o2 == off { 1nat } else { 0nat } by {
                                lemma_offset_votes_take(list_spec, row.offset_ms, o2 as int, j as int);
                            }
                            lemma_offset_votes_take(list_spec, row.offset_ms, off as int, j as int);
                            lemma_votes_bound(smp, rws.take(i as int), row.track_id, off as int);
                            lemma_sample_offsets_len(smp, row.hash);
                            let n = rws.len();
                            let m = smp.len();
                            assert(i * m + m <= n * m) by (nonlinear_arith)
                                requires i < n;
                        }
                        let ghost old_counts = counts@;
                        let ghost old_cells = cells@;
                        match counts.get(&key) {
                            Some(c) => {
                                let c = *c;
                                counts.insert(key, c + 1);
                            },
                            None => {
                                counts.insert(key, 1);
                                cells.push((idx, off));
                            },
                        }
                        proof {
                            assert forall|k: usize, o2: i32| #[trigger] counts@.contains_key(cell_key(k, o2)) implies k < tracks@.len() by {
                                if cell_key(k, o2) == key {
                                    lemma_cell_key_injective(k, o2, idx, off);
                                }
                            }
                            assert forall|k: usize, o2: i32|
                                k < tracks@.len() implies (#[trigger] counts@.contains_key(cell_key(k, o2)) <==> partial_votes(
                                    smp, rws, i as int, j + 1, tracks@[k as int], o2 as int) > 0) by {
                                if cell_key(k, o2) == key {
                                    lemma_cell_key_injective(k, o2, idx, off);
                                } else if k == idx && o2 == off {
                                } else {
                                    if tracks@[k as int] == row.track_id {
                                        assert(k == idx);
                                    }
                                }
                            }
                            assert forall|k: usize, o2: i32|
                                k < tracks@.len() && #[trigger] counts@.contains_key(cell_key(k, o2)) implies counts@[cell_key(k, o2)]
                                    == partial_votes(smp, rws, i as int, j + 1, tracks@[k as int], o2 as int) by {
                                if cell_key(k, o2) == key {
                                    lemma_cell_key_injective(k, o2, idx, off);
                                } else {
                                    if tracks@[k as int] == row.track_id {
                                        assert(k == idx);
                                    }
                                    assert(old_counts.contains_key(cell_key(k, o2)));
                                }
                            }
                            assert forall|c: int|
                                0 <= c < cells@.len() implies (#[trigger] cells@[c]).0 < tracks@.len() && partial_votes(
                                    smp, rws, i as int, j + 1, tracks@[cells@[c].0 as int], cells@[c].1 as int) > 0 by {
                                if c < old_cells.len() {
                                    assert(cells@[c] == old_cells[c]);
                                }
                            }
                            assert forall|c1: int, c2: int|
                                0 <= c1 < cells@.len() && 0 <= c2 < cells@.len() && c1 != c2 implies #[trigger] cells@[c1]
                                    != #[trigger] cells@[c2] by {
                                if c1 < old_cells.len() && c2 < old_cells.len() {
                                } else if c1 == old_cells.len() {
                                    assert(old_cells[c2] == cells@[c2]);
                                    if cells@[c1] == cells@[c2] {
                                        assert(old_counts.contains_key(cell_key(old_cells[c2].0, old_cells[c2].1)));
                                    }
                                } else {
                                    assert(old_cells[c1] == cells@[c1]);
                                    if cells@[c1] == cells@[c2] {
                                        assert(old_counts.contains_key(cell_key(old_cells[c1].0, old_cells[c1].1)));
                                    }
                                }
                            }
                            assert forall|k: usize, o2: i32|
                                k < tracks@.len() && #[trigger] partial_votes(smp, rws, i as int, j + 1, tracks@[k as int], o2 as int) > 0
                                    implies cells@.contains((k, o2)) by {
                                if tracks@[k as int] == row.track_id && o2 == off {
                                    assert(k == idx);
                                    if old_cells.contains((k, o2)) {
                                        let c = choose|c: int| 0 <= c < old_cells.len() && old_cells[c] == (k, o2);
                                        assert(cells@[c] == (k, o2));
                                    } else {
                                        assert(cells@[cells@.len() - 1] == (k, o2));
                                    }
                                } else {
                                    if tracks@[k as int] == row.track_id {
                                        assert(k == idx);
                                    }
                                    assert(old_cells.contains((k, o2)));
                                    let c = choose|c: int| 0 <= c < old_cells.len() && old_cells[c] == (k, o2);
                                    assert(cells@[c] == (k, o2));
                                }
                            }
                        }
                        j += 1;
                    }
                    assert forall|t: u128, off: i32|
                        #[trigger] partial_votes(smp, rws, i + 1, 0, t, off as int)
                            == partial_votes(smp, rws, i as int, list_spec.len() as int, t, off as int) by {
                        lemma_partial_votes_next_row(smp, rws, i as int, t, off as int);
                    }
                } else {
                    assert forall|t: u128, off: i32|
                        #[trigger] partial_votes(smp, rws, i + 1, 0, t, off as int)
                            == partial_votes(smp, rws, i as int, 0, t, off as int) by {
                        lemma_partial_votes_next_row(smp, rws, i as int, t, off as int);
                    }
                }
            },
        }
        i += 1;
    }
    Tally { tracks, track_index, counts, cells }
}


/// The position of the last entry of `ids` equal to `id` among the first `n`
/// (-1 when there is none).
pub open spec fn last_position(ids: Seq<u128>, id: u128, n: int) -> int
    decreases n,
{
    if n <= 0 {
        -1
    } else if ids[n - 1] == id {
        n - 1
    } else {
        last_position(ids, id, n - 1)
    }
}

/// The matches that have a track in `track_ids`, in order, each paired with
/// the position of its track (the last one with that id).
pub open spec fn spec_enrich(matches: Seq<MatchResult>, track_ids: Seq<u128>) -> Seq<(usize, MatchResult)>
    decreases matches.len(),
{
    if matches.len() == 0 {
        Seq::empty()
    } else {
        let rest = spec_enrich(matches.drop_last(), track_ids);
        let m = matches.last();
        let pos = last_position(track_ids, m.track_id, track_ids.len() as int);
        if pos >= 0 {
            rest.push((pos as usize, m))
        } else {
            rest
        }
    }
}

proof fn lemma_last_position_bounds(ids: Seq<u128>, id: u128, n: int)
    requires
        0 <= n <= ids.len(),
    ensures
        -1 <= last_position(ids, id, n) < n,
        last_position(ids, id, n) >= 0 ==> ids[last_position(ids, id, n)] == id,
    decreases n,
{
    if n > 0 {
        lemma_last_position_bounds(ids, id, n - 1);
    }
}

proof fn lemma_enrich_positions(matches: Seq<MatchResult>, track_ids: Seq<u128>, k: int)
    requires
        0 <= k < spec_enrich(matches, track_ids).len(),
        track_ids.len() <= usize::MAX,
    ensures
        spec_enrich(matches, track_ids)[k].0 < track_ids.len(),
        track_ids[spec_enrich(matches, track_ids)[k].0 as int] == spec_enrich(matches, track_ids)[k].1.track_id,
    decreases matches.len(),
{
    let rest = spec_enrich(matches.drop_last(), track_ids);
    let m = matches.last();
    lemma_last_position_bounds(track_ids, m.track_id, track_ids.len() as int);
    if k < rest.len() {
        lemma_enrich_positions(matches.drop_last(), track_ids, k);
    }
}

proof fn lemma_last_position_found(ids: Seq<u128>, id: u128, n: int)
    requires
        0 <= n <= ids.len(),
    ensures
        last_position(ids, id, n) >= 0 <==> exists|k: int| 0 <= k < n && ids[k] == id,
    decreases n,
{
    if n > 0 {
        lemma_last_position_found(ids, id, n - 1);
        if ids[n - 1] != id {
            if exists|k: int| 0 <= k < n && ids[k] == id {
                let k = choose|k: int| 0 <= k < n && ids[k] == id;
                assert(k < n - 1);
            }
        }
    }
}

/// Enrichment keeps exactly the matches whose track is among `track_ids`, in
/// their order: dropping the positions leaves the matches filtered by
/// whether their track was found.
pub proof fn lemma_enrich_keeps_found_matches(matches: Seq<MatchResult>, track_ids: Seq<u128>)
    ensures
        spec_enrich(matches, track_ids).map_values(|e: (usize, MatchResult)| e.1) == matches.filter(
            |m: MatchResult| track_ids.contains(m.track_id),
        ),
    decreases matches.len(),
{
    let pred = |m: MatchResult| track_ids.contains(m.track_id);
    reveal(Seq::filter);
    if matches.len() == 0 {
        assert(spec_enrich(matches, track_ids).map_values(|e: (usize, MatchResult)| e.1) =~= matches.filter(pred));
    } else {
        lemma_enrich_keeps_found_matches(matches.drop_last(), track_ids);
        let m = matches.last();
        lemma_last_position_found(track_ids, m.track_id, track_ids.len() as int);
        let rest = spec_enrich(matches.drop_last(), track_ids);
        let pos = last_position(track_ids, m.track_id, track_ids.len() as int);
        let kept = rest.map_values(|e: (usize, MatchResult)| e.1);
        assert(kept == matches.drop_last().filter(pred));
        if pos >= 0 {
            let k = choose|k: int| 0 <= k < track_ids.len() && track_ids[k] == m.track_id;
            assert(track_ids.contains(m.track_id));
            assert(pred(m));
            assert(matches.filter(pred) == matches.drop_last().filter(pred).push(m));
            assert(spec_enrich(matches, track_ids) == rest.push((pos as usize, m)));
            assert(rest.push((pos as usize, m)).map_values(|e: (usize, MatchResult)| e.1) =~= kept.push(m));
        } else {
            assert(!track_ids.contains(m.track_id));
            assert(!pred(m));
            assert(matches.filter(pred) == matches.drop_last().filter(pred));
            assert(spec_enrich(matches, track_ids) == rest);
        }
    }
}

/// Joins the matches with the tracks fetched for them: keeps the matches
/// whose track was found, in order, each with the position of its track in
/// `track_ids`.
pub fn enrich_matches(matches: &[MatchResult], track_ids: &[u128]) -> (enriched: Vec<(usize, MatchResult)>)
    ensures
        enriched@ == spec_enrich(matches@, track_ids@),
        enriched@.map_values(|e: (usize, MatchResult)| e.1) == matches@.filter(
            |m: MatchResult| track_ids@.contains(m.track_id),
        ),
        forall|k: int|
            0 <= k < enriched@.len() ==> (#[trigger] enriched@[k]).0 < track_ids@.len() && track_ids@[enriched@[k].0 as int]
                == enriched@[k].1.track_id,
{
    let mut enriched: Vec<(usize, MatchResult)> = Vec::new();
    let num_tracks = track_ids.len();
    let mut i: usize = 0;
    while i < matches.len()
        invariant
            i <= matches@.len(),
            num_tracks == track_ids@.len(),
            enriched@ == spec_enrich(matches@.take(i as int), track_ids@),
        decreases matches@.len() - i,
    {
        let m = matches[i];
        let mut pos: usize = 0;
        let mut found = false;
        let mut k: usize = 0;
        while k < track_ids.len()
            invariant
                k <= track_ids@.len(),
                found ==> pos < k && last_position(track_ids@, m.track_id, k as int) == pos,
                !found ==> last_position(track_ids@, m.track_id, k as int) == -1,
            decreases track_ids@.len() - k,
        {
            if track_ids[k] == m.track_id {
                pos = k;
                found = true;
            }
            k += 1;
        }
        assert(matches@.take(i + 1).drop_last() =~= matches@.take(i as int));
        if found {
            enriched.push((pos, m));
        }
        i += 1;
    }
    assert(matches@.take(matches@.len() as int) =~= matches@);
    proof {
        lemma_enrich_keeps_found_matches(matches@, track_ids@);
        assert forall|k: int| 0 <= k < enriched@.len() implies (#[trigger] enriched@[k]).0 < track_ids@.len()
            && track_ids@[enriched@[k].0 as int] == enriched@[k].1.track_id by {
            lemma_enrich_positions(matches@, track_ids@, k);
        }
    }
    enriched
}

/// A track whose offset histogram has a peak of at least the threshold: the
/// track, the alignment of its highest peak, that peak's vote count and the
/// number of hashes in the sample.
#[derive(Debug, Clone, Copy, PartialEq, Eq)]
pub struct MatchResult {
    pub track_id: u128,
    pub offset_ms: i32,
    pub match_count: usize,
    pub total_hashes: usize,
}

/// `result` is the highest histogram peak of its track, at or above `threshold`.
pub open spec fn is_track_peak(
    sample: Seq<CombinatorialHash>,
    rows: Seq<FingerprintRow>,
    threshold: usize,
    result: MatchResult,
) -> bool {
    &&& result.total_hashes == sample.len()
    &&& result.match_count == votes(sample, rows, result.track_id, result.offset_ms as int)
    &&& result.match_count > 0
    &&& result.match_count >= threshold
    &&& forall|off: i32| #[trigger] votes(sample, rows, result.track_id, off as int) <= result.match_count
}

/// The ranking of the tracks whose histogram reaches the threshold: at most
/// five, one entry per track holding its highest peak, by vote count from the
/// highest, and no track left out that has a peak above the last one kept.
pub open spec fn is_ranking(
    sample: Seq<CombinatorialHash>,
    rows: Seq<FingerprintRow>,
    threshold: usize,
    results: Seq<MatchResult>,
) -> bool {
    &&& results.len() <= 5
    &&& forall|i: int| 0 <= i < results.len() ==> is_track_peak(sample, rows, threshold, #[trigger] results[i])
    &&& forall|i: int, j: int|
        0 <= i < j < results.len() ==> #[trigger] results[i].match_count >= #[trigger] results[j].match_count
    &&& forall|i: int, j: int|
        0 <= i < j < results.len() ==> #[trigger] results[i].track_id != #[trigger] results[j].track_id
    &&& forall|track: u128, off: i32|
        #[trigger] votes(sample, rows, track, off as int) >= threshold && votes(sample, rows, track, off as int) > 0
            && (forall|i: int| 0 <= i < results.len() ==> #[trigger] results[i].track_id != track) ==> results.len() == 5
            && votes(sample, rows, track, off as int) <= results[4].match_count
}

proof fn lemma_partial_votes_done(sample: Seq<CombinatorialHash>, rows: Seq<FingerprintRow>, t: u128, off: int)
    ensures
        partial_votes(sample, rows, rows.len() as int, 0, t, off) == votes(sample, rows, t, off),
{
    assert(rows.take(rows.len() as int) =~= rows);
}

/// The highest peak at or above `threshold` of each tracked track, by track
/// number; a count of 0 marks a track without one.
#[verifier::rlimit(30)]
fn track_peaks(
    tally: &Tally,
    threshold: usize,
    Ghost(sample): Ghost<Seq<CombinatorialHash>>,
    Ghost(rows): Ghost<Seq<FingerprintRow>>,
) -> (peaks: (Vec<i32>, Vec<usize>))
    requires
        tally_inv(
            sample,
            rows,
            rows.len() as int,
            0,
            tally.tracks@,
            tally.track_index@,
            tally.counts@,
            tally.cells@,
        ),
    ensures
        peaks.0@.len() == tally.tracks@.len(),
        peaks.1@.len() == tally.tracks@.len(),
        forall|k: int|
            0 <= k < tally.tracks@.len() && #[trigger] peaks.1@[k] > 0 ==> peaks.1@[k] >= threshold
                && votes(sample, rows, tally.tracks@[k], peaks.0@[k] as int) == peaks.1@[k],
        forall|k: int, off: i32|
            0 <= k < tally.tracks@.len() && #[trigger] votes(sample, rows, tally.tracks@[k], off as int) > 0
                && votes(sample, rows, tally.tracks@[k], off as int) >= threshold ==> votes(
                sample,
                rows,
                tally.tracks@[k],
                off as int,
            ) <= peaks.1@[k],
{
    let n = tally.tracks.len();
    let mut best_off: Vec<i32> = Vec::new();
    let mut best_cnt: Vec<usize> = Vec::new();
    let mut k: usize = 0;
    while k < n
        invariant
            n == tally.tracks@.len(),
            k <= n,
            best_off@.len() == k,
            best_cnt@.len() == k,
            forall|m: int| 0 <= m < k ==> #[trigger] best_cnt@[m] == 0,
        decreases n - k,
    {
        best_off.push(0);
        best_cnt.push(0);
        k += 1;
    }
    let ghost tracks = tally.tracks@;
    let ghost cells = tally.cells@;
    let mut c: usize = 0;
    while c < tally.cells.len()
        invariant
            tally_inv(sample, rows, rows.len() as int, 0, tracks, tally.track_index@, tally.counts@, cells),
            tracks == tally.tracks@,
            cells == tally.cells@,
            n == tracks.len(),
            c <= cells.len(),
            best_off@.len() == n,
            best_cnt@.len() == n,
            forall|m: int|
                0 <= m < n && #[trigger] best_cnt@[m] > 0 ==> best_cnt@[m] >= threshold && votes(
                    sample,
                    rows,
                    tracks[m],
                    best_off@[m] as int,
                ) == best_cnt@[m],
            forall|d: int|
                0 <= d < c && votes(sample, rows, tracks[(#[trigger] cells[d]).0 as int], cells[d].1 as int)
                    >= threshold ==> votes(sample, rows, tracks[cells[d].0 as int], cells[d].1 as int)
                    <= best_cnt@[cells[d].0 as int],
        decreases cells.len() - c,
    {
        let (m, off) = tally.cells[c];
        proof {
            lemma_partial_votes_done(sample, rows, tracks[m as int], off as int);
        }
        let key = compute_cell_key(m, off);
        match tally.counts.get(&key) {
            Some(cnt) => {
                let cnt = *cnt;
                if cnt >= threshold && cnt > best_cnt[m] {
                    best_off.set(m, off);
                    best_cnt.set(m, cnt);
                }
            },
            None => {},
        }
        proof {
            assert forall|d: int|
                0 <= d < c + 1 && votes(sample, rows, tracks[(#[trigger] cells[d]).0 as int], cells[d].1 as int)
                    >= threshold implies votes(sample, rows, tracks[cells[d].0 as int], cells[d].1 as int)
                    <= best_cnt@[cells[d].0 as int] by {
                lemma_partial_votes_done(sample, rows, tracks[cells[d].0 as int], cells[d].1 as int);
            }
        }
        c += 1;
    }
    proof {
        assert forall|m: int, off: i32|
            0 <= m < n && #[trigger] votes(sample, rows, tracks[m], off as int) > 0
                && votes(sample, rows, tracks[m], off as int) >= threshold implies votes(
                sample,
                rows,
                tracks[m],
                off as int,
            ) <= best_cnt@[m] by {
            lemma_partial_votes_done(sample, rows, tracks[m], off as int);
            assert(cells.contains((m as usize, off)));
            let d = choose|d: int| 0 <= d < cells.len() && cells[d] == (m as usize, off);
            assert(cells[d].0 == m as usize);
        }
    }
    (best_off, best_cnt)
}


/// Find the tracks that a sample matches, from the database rows whose hash
/// is one of the sample's: each (row, sample hash) pair with equal values
/// votes for its track at the alignment `row time - sample time`; a track
/// matches at the highest peak of its histogram if that peak has at least
/// `threshold` votes; the best five matches are returned, most votes first.
#[verifier::rlimit(40)]
pub fn find_matches(
    sample_hashes: &[CombinatorialHash],
    rows: &[FingerprintRow],
    threshold: usize,
) -> (results: Vec<MatchResult>)
    requires
        alignments_fit(sample_hashes@, rows@),
        rows@.len() * sample_hashes@.len() <= usize::MAX,
    ensures
        is_ranking(sample_hashes@, rows@, threshold, results@),
        sample_hashes@.len() == 0 ==> results@.len() == 0,
{
    let ghost sample = sample_hashes@;
    let ghost rws = rows@;
    if sample_hashes.len() == 0 {
        let empty: Vec<MatchResult> = Vec::new();
        proof {
            assert forall|track: u128, off: i32| #[trigger] votes(sample, rws, track, off as int) == 0 by {
                lemma_votes_bound(sample, rws, track, off as int);
                assert(rws.len() * sample.len() == 0) by (nonlinear_arith)
                    requires sample.len() == 0;
            }
        }
        return empty;
    }
    let tally = tally_votes(sample_hashes, rows);
    let (best_off, best_cnt) = track_peaks(&tally, threshold, Ghost(sample), Ghost(rws));
    let ghost tracks = tally.tracks@;
    let n = tally.tracks.len();
    let total = sample_hashes.len();
    let mut taken: Vec<bool> = Vec::new();
    let mut k: usize = 0;
    while k < n
        invariant
            k <= n,
            taken@.len() == k,
            forall|m: int| 0 <= m < k ==> !#[trigger] taken@[m],
        decreases n - k,
    {
        taken.push(false);
        k += 1;
    }
    let mut results: Vec<MatchResult> = Vec::new();
    let ghost mut picked: Seq<int> = Seq::empty();
    let mut exhausted = false;
    while results.len() < 5 && !exhausted
        invariant
            n == tracks.len(),
            tracks == tally.tracks@,
            total == sample.len(),
            taken@.len() == n,
            best_off@.len() == n,
            best_cnt@.len() == n,
            tally_inv(sample, rws, rws.len() as int, 0, tracks, tally.track_index@, tally.counts@, tally.cells@),
            forall|m: int|
                0 <= m < n && #[trigger] best_cnt@[m] > 0 ==> best_cnt@[m] >= threshold && votes(
                    sample,
                    rws,
                    tracks[m],
                    best_off@[m] as int,
                ) == best_cnt@[m],
            forall|m: int, off: i32|
                0 <= m < n && #[trigger] votes(sample, rws, tracks[m], off as int) > 0 && votes(
                    sample,
                    rws,
                    tracks[m],
                    off as int,
                ) >= threshold ==> votes(sample, rws, tracks[m], off as int) <= best_cnt@[m],
            results@.len() <= 5,
            picked.len() == results@.len(),
            forall|r: int|
                0 <= r < picked.len() ==> 0 <= #[trigger] picked[r] < n && taken@[picked[r]] && best_cnt@[picked[r]] > 0
                    && results@[r] == (MatchResult {
                    track_id: tracks[picked[r]],
                    offset_ms: best_off@[picked[r]],
                    match_count: best_cnt@[picked[r]],
                    total_hashes: total,
                }),
            forall|m: int| 0 <= m < n && #[trigger] taken@[m] ==> picked.contains(m),
            forall|r1: int, r2: int|
                0 <= r1 < r2 < picked.len() ==> #[trigger] picked[r1] != #[trigger] picked[r2],
            forall|r1: int, r2: int|
                0 <= r1 < r2 < results@.len() ==> #[trigger] results@[r1].match_count
                    >= #[trigger] results@[r2].match_count,
            forall|m: int|
                0 <= m < n && !#[trigger] taken@[m] && best_cnt@[m] > 0 && results@.len() > 0 ==> best_cnt@[m]
                    <= results@[results@.len() - 1].match_count,
            exhausted ==> forall|m: int| 0 <= m < n && #[trigger] best_cnt@[m] > 0 ==> taken@[m],
        decreases 5 - results@.len() + if exhausted { 0int } else { 1int },
    {
        let mut found = false;
        let mut pick: usize = 0;
        let mut m: usize = 0;
        while m < n
            invariant
                n == taken@.len(),
                n == best_cnt@.len(),
                m <= n,
                found ==> pick < n && !taken@[pick as int] && best_cnt@[pick as int] > 0,
                found ==> forall|q: int|
                    0 <= q < m && !#[trigger] taken@[q] && best_cnt@[q] > 0 ==> best_cnt@[q] <= best_cnt@[pick as int],
                !found ==> forall|q: int| 0 <= q < m ==> #[trigger] taken@[q] || best_cnt@[q] == 0,
            decreases n - m,
        {
            if !taken[m] && best_cnt[m] > 0 && (!found || best_cnt[m] > best_cnt[pick]) {
                found = true;
                pick = m;
            }
            m += 1;
        }
        if !found {
            exhausted = true;
        } else {
            let ghost old_results = results@;
            let ghost old_taken = taken@;
            results.push(
                MatchResult {
                    track_id: tally.tracks[pick],
                    offset_ms: best_off[pick],
                    match_count: best_cnt[pick],
                    total_hashes: total,
                },
            );
            taken.set(pick, true);
            proof {
                let old_picked = picked;
                picked = picked.push(pick as int);
                assert forall|q: int| 0 <= q < n && #[trigger] taken@[q] implies picked.contains(q) by {
                    if q == pick as int {
                        assert(picked[picked.len() - 1] == q);
                    } else {
                        assert(old_taken[q]);
                        assert(old_picked.contains(q));
                        let r = choose|r: int| 0 <= r < old_picked.len() && old_picked[r] == q;
                        assert(picked[r] == q);
                    }
                }
                assert forall|r1: int, r2: int| 0 <= r1 < r2 < picked.len() implies #[trigger] picked[r1] != #[trigger] picked[r2] by {
                    if r2 == picked.len() - 1 {
                        assert(old_taken[picked[r1]]);
                    }
                }
                assert forall|r1: int, r2: int| 0 <= r1 < r2 < results@.len() implies #[trigger] results@[r1].match_count
                    >= #[trigger] results@[r2].match_count by {
                    if r2 == results@.len() - 1 && r1 < old_results.len() {
                        assert(old_results[r1] == results@[r1]);
                        assert(results@[r1].match_count >= old_results[old_results.len() - 1].match_count);
                        assert(!old_taken[pick as int]);
                    }
                }
            }
        }
    }
    proof {
        assert forall|i: int| 0 <= i < results@.len() implies is_track_peak(sample, rws, threshold, #[trigger] results@[i]) by {
            let m = picked[i];
            assert forall|off: i32| #[trigger] votes(sample, rws, results@[i].track_id, off as int) <= results@[i].match_count by {
                if votes(sample, rws, tracks[m], off as int) > best_cnt@[m] {
                    assert(votes(sample, rws, tracks[m], off as int) > 0);
                }
            }
        }
        assert forall|i: int, j: int| 0 <= i < j < results@.len() implies #[trigger] results@[i].track_id
            != #[trigger] results@[j].track_id by {
            assert(picked[i] != picked[j]);
        }
        assert forall|track: u128, off: i32|
            #[trigger] votes(sample, rws, track, off as int) >= threshold && votes(sample, rws, track, off as int) > 0
                && (forall|i: int| 0 <= i < results@.len() ==> #[trigger] results@[i].track_id != track) implies results@.len() == 5
                && votes(sample, rws, track, off as int) <= results@[4].match_count by {
            lemma_partial_votes_done(sample, rws, track, off as int);
            assert(tally.track_index@.contains_key(track));
            let m = tally.track_index@[track] as int;
            assert(tracks[m] == track);
            assert(best_cnt@[m] > 0);
            if taken@[m] {
                let r = choose|r: int| 0 <= r < picked.len() && picked[r] == m;
                assert(results@[r].track_id == track);
            }
        }
    }
    results
}


/// The rows that store the sample's own hashes for `track`, each at its
/// sample time plus `shift`: what the database holds for a track that the
/// sample was cut from, `shift` ms into it.
pub open spec fn stored_rows(sample: Seq<CombinatorialHash>, track: u128, shift: i32) -> Seq<FingerprintRow> {
    sample.map_values(
        |h: CombinatorialHash|
            FingerprintRow { hash: h.hash as i64, track_id: track, offset_ms: ((h.offset_ms as i32) + shift) as i32 },
    )
}

/// Every stored time fits in `i32`.
pub open spec fn stored_rows_fit(sample: Seq<CombinatorialHash>, shift: i32) -> bool {
    forall|k: int| 0 <= k < sample.len() ==> i32::MIN <= #[trigger] sample[k].offset_ms as i32 + shift <= i32::MAX
}

proof fn lemma_votes_append(sample: Seq<CombinatorialHash>, a: Seq<FingerprintRow>, b: Seq<FingerprintRow>, track: u128, off: int)
    ensures
        votes(sample, a + b, track, off) == votes(sample, a, track, off) + votes(sample, b, track, off),
    decreases b.len(),
{
    if b.len() == 0 {
        assert(a + b =~= a);
    } else {
        lemma_votes_append(sample, a, b.drop_last(), track, off);
        assert((a + b).drop_last() =~= a + b.drop_last());
    }
}

proof fn lemma_own_offset_votes(sample: Seq<CombinatorialHash>, k: int, shift: i32)
    requires
        0 <= k < sample.len(),
        i32::MIN <= sample[k].offset_ms as i32 + shift <= i32::MAX,
    ensures
        offset_votes(
            sample_offsets(sample, sample[k].hash as i64),
            ((sample[k].offset_ms as i32) + shift) as i32,
            shift as int,
        ) >= 1,
    decreases sample.len(),
{
    let h = sample[k].hash as i64;
    let db = ((sample[k].offset_ms as i32) + shift) as i32;
    if k == sample.len() - 1 {
        let rest = sample_offsets(sample.drop_last(), h);
        assert(sample_offsets(sample, h) == rest.push(sample[k].offset_ms));
        assert(rest.push(sample[k].offset_ms).drop_last() =~= rest);
    } else {
        assert(sample.drop_last()[k] == sample[k]);
        lemma_own_offset_votes(sample.drop_last(), k, shift);
        lemma_offset_votes_prefix(sample, h, db, shift as int);
    }
}

proof fn lemma_offset_votes_prefix(sample: Seq<CombinatorialHash>, h: i64, db: i32, off: int)
    requires
        sample.len() > 0,
    ensures
        offset_votes(sample_offsets(sample, h), db, off) >= offset_votes(sample_offsets(sample.drop_last(), h), db, off),
{
    let rest = sample_offsets(sample.drop_last(), h);
    if sample.last().hash as i64 == h {
        assert(rest.push(sample.last().offset_ms).drop_last() =~= rest);
    }
}

proof fn lemma_stored_rows_votes(sample: Seq<CombinatorialHash>, n: int, track: u128, shift: i32)
    requires
        0 <= n <= sample.len(),
        stored_rows_fit(sample, shift),
    ensures
        votes(sample, stored_rows(sample, track, shift).take(n), track, shift as int) >= n,
    decreases n,
{
    if n > 0 {
        let rows = stored_rows(sample, track, shift).take(n);
        assert(rows.drop_last() =~= stored_rows(sample, track, shift).take(n - 1));
        lemma_stored_rows_votes(sample, n - 1, track, shift);
        assert(sample[n - 1].offset_ms as i32 + shift <= i32::MAX);
        lemma_own_offset_votes(sample, n - 1, shift);
    }
}

/// A sample all of whose hashes are stored for `track`, `shift` ms later,
/// gets at least one vote per hash at alignment `shift`, whatever other rows
/// the lookup returns around them.
pub proof fn lemma_stored_sample_votes(
    sample: Seq<CombinatorialHash>,
    before: Seq<FingerprintRow>,
    after: Seq<FingerprintRow>,
    track: u128,
    shift: i32,
)
    requires
        stored_rows_fit(sample, shift),
    ensures
        votes(sample, before + stored_rows(sample, track, shift) + after, track, shift as int) >= sample.len(),
{
    let stored = stored_rows(sample, track, shift);
    lemma_votes_append(sample, before + stored, after, track, shift as int);
    lemma_votes_append(sample, before, stored, track, shift as int);
    lemma_stored_rows_votes(sample, sample.len() as int, track, shift);
    assert(stored.take(sample.len() as int) =~= stored);
}

/// Identification: when the lookup returns the hashes of a track that the
/// sample was cut from (at one alignment), and the sample has at least
/// `threshold` hashes, the ranking names that track, unless five other
/// tracks match at least as strongly.
pub proof fn lemma_stored_sample_is_found(
    sample: Seq<CombinatorialHash>,
    before: Seq<FingerprintRow>,
    after: Seq<FingerprintRow>,
    track: u128,
    shift: i32,
    threshold: usize,
    results: Seq<MatchResult>,
)
    requires
        stored_rows_fit(sample, shift),
        sample.len() > 0,
        sample.len() >= threshold,
        is_ranking(sample, before + stored_rows(sample, track, shift) + after, threshold, results),
    ensures
        (exists|i: int| 0 <= i < results.len() && #[trigger] results[i].track_id == track) || (results.len() == 5
            && results[4].match_count >= sample.len()),
{
    let rows = before + stored_rows(sample, track, shift) + after;
    lemma_stored_sample_votes(sample, before, after, track, shift);
    assert(votes(sample, rows, track, shift as int) >= threshold);
    if !(exists|i: int| 0 <= i < results.len() && #[trigger] results[i].track_id == track) {
        assert(forall|i: int| 0 <= i < results.len() ==> #[trigger] results[i].track_id != track);
    }
}

impl MatchResult {
    /// The confidence of the match as the fraction `numerator / denominator`:
    /// the share of sample hashes that voted for the peak, relative to a 2%
    /// share, capped at 1, i.e. `min(50 * match_count, total_hashes) / total_hashes`.
    pub fn confidence_fraction(&self) -> (fraction: (usize, usize))
        requires
            self.total_hashes > 0,
        ensures
            fraction.1 == self.total_hashes,
            fraction.0 == if 50 * self.match_count <= self.total_hashes {
                50 * self.match_count
            } else {
                self.total_hashes as int
            },
    {
        let total = self.total_hashes;
        if self.match_count > total / 50 {
            (total, total)
        } else {
            (50 * self.match_count, total)
        }
    }
}

} // verus!
