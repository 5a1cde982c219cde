use vstd::prelude::*;
use crate::fingerprint::spectrogram::{frame_to_ms, spec_frame_to_ms};

verus! {

/// First index of the centered window of `radius` around `i`.
pub open spec fn window_lo(i: int, radius: int) -> int {
    if i >= radius { i - radius } else { 0 }
}

/// One past the last index of the centered window of `radius` around `i`.
pub open spec fn window_hi(i: int, radius: int, n: int) -> int {
    if i + radius + 1 <= n { i + radius + 1 } else { n }
}

/// `value` is the largest element of `input` in the window of `radius` around `i`.
pub open spec fn is_window_max(input: Seq<u32>, i: int, radius: int, value: u32) -> bool {
    &&& exists|k: int| window_lo(i, radius) <= k < window_hi(i, radius, input.len() as int) && input[k] == value
    &&& forall|k: int| window_lo(i, radius) <= k < window_hi(i, radius, input.len() as int) ==> input[k] <= value
}

/// Index `k` is dominated by a deque entry: a later or equal index, still in
/// the deque, whose value is at least as large.
spec fn dominated(input: Seq<u32>, dq: Seq<usize>, head: int, k: int) -> bool {
    exists|p: int| head <= p < dq.len() && dq[p] >= k && input[dq[p] as int] >= input[k]
}

/// The deque `dq[head..]` holds increasing indices in `lo..right` whose values
/// strictly decrease, and every index in `lo..right` is dominated.
spec fn deque_inv(input: Seq<u32>, dq: Seq<usize>, head: int, right: int, lo: int) -> bool {
    &&& 0 <= head <= dq.len()
    &&& forall|p: int| head <= p < dq.len() ==> lo <= #[trigger] dq[p] < right
    &&& forall|p: int, q: int| head <= p < q < dq.len() ==> #[trigger] dq[p] < #[trigger] dq[q]
    &&& forall|p: int, q: int|
        head <= p < q < dq.len() ==> input[#[trigger] dq[p] as int] > input[#[trigger] dq[q] as int]
    &&& forall|k: int| lo <= k < right ==> #[trigger] dominated(input, dq, head, k)
}

/// Appends index `right` to the deque, first dropping the indices at its back
/// whose values do not exceed `input[right]`.
fn deque_push(input: &[u32], dq: &mut Vec<usize>, head: usize, right: usize, Ghost(lo): Ghost<int>)
    requires
        right < input@.len(),
        0 <= lo <= right,
        deque_inv(input@, old(dq)@, head as int, right as int, lo),
    ensures
        deque_inv(input@, final(dq)@, head as int, right + 1, lo),
{
    let ghost inp = input@;
    let v = input[right];
    while dq.len() > head && input[dq[dq.len() - 1]] <= v
        invariant
            inp == input@,
            right < inp.len(),
            0 <= lo,
            v == inp[right as int],
            0 <= head <= dq@.len(),
            forall|p: int| head <= p < dq@.len() ==> lo <= #[trigger] dq@[p] < right,
            forall|p: int, q: int| head <= p < q < dq@.len() ==> #[trigger] dq@[p] < #[trigger] dq@[q],
            forall|p: int, q: int|
                head <= p < q < dq@.len() ==> inp[#[trigger] dq@[p] as int] > inp[#[trigger] dq@[q] as int],
            forall|k: int| lo <= k < right ==> #[trigger] dominated(inp, dq@, head as int, k) || inp[k] <= v,
        decreases dq@.len(),
    {
        let ghost before = dq@;
        dq.pop();
        assert forall|k: int| lo <= k < right implies #[trigger] dominated(inp, dq@, head as int, k) || inp[k] <= v by {
            if dominated(inp, before, head as int, k) {
                let p = choose|p: int| head <= p < before.len() && before[p] >= k && inp[before[p] as int] >= inp[k];
                if p < before.len() - 1 {
                    assert(dq@[p] == before[p]);
                }
            }
        }
    }
    let ghost before = dq@;
    dq.push(right);
    let ghost last = dq@.len() - 1;
    assert(dq@[last] == right);
    assert forall|k: int| lo <= k < right + 1 implies #[trigger] dominated(inp, dq@, head as int, k) by {
        if k < right && dominated(inp, before, head as int, k) {
            let p = choose|p: int| head <= p < before.len() && before[p] >= k && inp[before[p] as int] >= inp[k];
            assert(dq@[p] == before[p]);
        } else {
            assert(head <= last && dq@[last] >= k && inp[dq@[last] as int] >= inp[k]);
        }
    }
    assert forall|p: int, q: int| head <= p < q < dq@.len() implies inp[#[trigger] dq@[p] as int] > inp[#[trigger] dq@[q] as int] by {
        assert(dq@[p] == before[p]);
        if q < last {
            assert(dq@[q] == before[q]);
        }
    }
    assert forall|p: int, q: int| head <= p < q < dq@.len() implies #[trigger] dq@[p] < #[trigger] dq@[q] by {
        assert(dq@[p] == before[p]);
        if q < last {
            assert(dq@[q] == before[q]);
        }
    }
}

/// Advances the deque's front past the indices below `start`.
fn deque_drop_stale(
    dq: &Vec<usize>,
    head: usize,
    start: usize,
    Ghost(input): Ghost<Seq<u32>>,
    Ghost(right): Ghost<int>,
    Ghost(lo): Ghost<int>,
) -> (new_head: usize)
    requires
        lo <= start,
        right <= input.len(),
        deque_inv(input, dq@, head as int, right, lo),
    ensures
        head <= new_head,
        deque_inv(input, dq@, new_head as int, right, start as int),
{
    let mut h = head;
    assert forall|k: int| start <= k < right implies #[trigger] dominated(input, dq@, h as int, k) by {
        assert(dominated(input, dq@, head as int, k));
    }
    while h < dq.len() && dq[h] < start
        invariant
            head <= h <= dq@.len(),
            right <= input.len(),
            forall|p: int| h <= p < dq@.len() ==> lo <= #[trigger] dq@[p] < right,
            forall|p: int, q: int| h <= p < q < dq@.len() ==> #[trigger] dq@[p] < #[trigger] dq@[q],
            forall|p: int, q: int|
                h <= p < q < dq@.len() ==> input[#[trigger] dq@[p] as int] > input[#[trigger] dq@[q] as int],
            forall|k: int| start <= k < right ==> #[trigger] dominated(input, dq@, h as int, k),
        decreases dq@.len() - h,
    {
        assert forall|k: int| start <= k < right implies #[trigger] dominated(input, dq@, h + 1, k) by {
            assert(dominated(input, dq@, h as int, k));
            let p = choose|p: int| h <= p < dq@.len() && dq@[p] >= k && input[dq@[p] as int] >= input[k];
            assert(p != h);
        }
        h += 1;
    }
    assert forall|p: int| h <= p < dq@.len() implies start <= #[trigger] dq@[p] by {
        if p > h {
            assert(dq@[h as int] < dq@[p]);
        }
    }
    h
}

/// Sliding-window maximum: `output[i]` becomes the largest `input[k]` with
/// `|k - i| <= radius`, computed in one pass with a monotone deque of indices.
pub fn sliding_max_centered(input: &[u32], radius: usize, output: &mut Vec<u32>)
    requires
        old(output)@.len() == input@.len(),
        input@.len() + radius <= usize::MAX,
    ensures
        final(output)@.len() == input@.len(),
        forall|i: int| 0 <= i < input@.len() ==> is_window_max(input@, i, radius as int, #[trigger] final(output)@[i]),
{
    let n = input.len();
    if n == 0 {
        return;
    }
    let ghost inp = input@;
    let mut dq: Vec<usize> = Vec::new();
    let mut head: usize = 0;
    let mut right: usize = 0;
    let mut i: usize = 0;
    while i < n
        invariant
            inp == input@,
            n == inp.len(),
            n + radius <= usize::MAX,
            output@.len() == n,
            i <= n,
            i > 0 ==> right == window_hi(i - 1, radius as int, n as int),
            i == 0 ==> right == 0,
            right <= n,
            deque_inv(inp, dq@, head as int, right as int, if i > 0 { window_lo(i - 1, radius as int) } else { 0 }),
            forall|m: int| 0 <= m < i ==> is_window_max(inp, m, radius as int, #[trigger] output@[m]),
        decreases n - i,
    {
        let start = i.saturating_sub(radius);
        let end = if i + radius + 1 < n { i + radius + 1 } else { n };
        let ghost lo = if i > 0 { window_lo(i - 1, radius as int) } else { 0 };
        while right < end
            invariant
                inp == input@,
                n == inp.len(),
                right <= end <= n,
                0 <= lo <= start,
                lo <= right,
                deque_inv(inp, dq@, head as int, right as int, lo),
            decreases end - right,
        {
            deque_push(input, &mut dq, head, right, Ghost(lo));
            right += 1;
        }
        head = deque_drop_stale(&dq, head, start, Ghost(inp), Ghost(right as int), Ghost(lo));
        assert(dominated(inp, dq@, head as int, i as int));
        let front = dq[head];
        output.set(i, input[front]);
        proof {
            assert forall|k: int| start <= k < right implies inp[k] <= inp[front as int] by {
                assert(dominated(inp, dq@, head as int, k));
                let p = choose|p: int| head <= p < dq@.len() && dq@[p] >= k && inp[dq@[p] as int] >= inp[k];
                if p > head {
                    assert(inp[dq@[head as int] as int] > inp[dq@[p] as int]);
                }
            }
            assert(inp[front as int] == output@[i as int]);
            assert(is_window_max(inp, i as int, radius as int, output@[i as int]));
        }
        i += 1;
    }
}


/// A peak in time-frequency space. Its magnitude is held as an
/// order-preserving integer key: `a.magnitude_key < b.magnitude_key` exactly
/// when peak `a` is weaker than peak `b`.
#[derive(Debug, Clone, Copy, PartialEq, Eq)]
pub struct Peak {
    /// raw frame index
    pub frame_idx: u32,
    /// raw FFT bin index
    pub bin_idx: u16,
    /// time of the frame in milliseconds, used for hashing
    pub time_ms: u32,
    /// frequency of the bin in hertz, used for hashing
    pub freq_hz: u16,
    /// the magnitude, as an ordered key
    pub magnitude_key: u32,
}

/// Number of peaks among the first `m` that come before peak `k` in a stable
/// sort by time: strictly earlier, or equally timed and earlier in `peaks`.
pub open spec fn time_rank_upto(peaks: Seq<Peak>, k: int, m: int) -> nat
    decreases m,
{
    if m <= 0 {
        0
    } else {
        time_rank_upto(peaks, k, m - 1) + if peaks[m - 1].time_ms < peaks[k].time_ms || (
        peaks[m - 1].time_ms == peaks[k].time_ms && m - 1 < k) {
            1nat
        } else {
            0nat
        }
    }
}

/// `sorted` is `peaks` stably sorted by time: every peak lands at its rank.
pub open spec fn is_stable_time_sort(peaks: Seq<Peak>, sorted: Seq<Peak>) -> bool {
    &&& sorted.len() == peaks.len()
    &&& forall|k: int| 0 <= k < peaks.len() ==> sorted[time_rank_upto(peaks, k, peaks.len() as int) as int] == #[trigger] peaks[k]
}

/// Sorts peaks by time with `slice::sort_by_key`.
/// Trusted: the standard library documents this sort as a stable sort, so
/// the result is a permutation of the input in which each peak lands at its
/// rank in (time, original position) order.
#[verifier::external_body]
fn sort_peaks_by_time(peaks: &mut Vec<Peak>)
    ensures
        is_stable_time_sort(old(peaks)@, final(peaks)@),
        final(peaks)@.to_multiset() == old(peaks)@.to_multiset(),
{
    peaks.sort_by_key(|p| p.time_ms);
}

/// Index of the first strongest peak among the first `m`.
pub open spec fn strongest_index_upto(w: Seq<Peak>, m: int) -> int
    decreases m,
{
    if m <= 1 {
        0
    } else {
        let k = strongest_index_upto(w, m - 1);
        if w[m - 1].magnitude_key > w[k].magnitude_key {
            m - 1
        } else {
            k
        }
    }
}

/// The `n` strongest peaks of `w`, strongest first, ties in the order of `w`
/// (the first `n` of a stable sort by decreasing magnitude).
pub open spec fn strongest(w: Seq<Peak>, n: nat) -> Seq<Peak>
    decreases n,
{
    if n == 0 || w.len() == 0 {
        Seq::empty()
    } else {
        let k = strongest_index_upto(w, w.len() as int);
        seq![w[k]] + strongest(w.remove(k), (n - 1) as nat)
    }
}

/// End of the 100 ms window that starts at `start`: the first index from `j`
/// whose time is at least `start + 100`.
pub open spec fn window_end(peaks: Seq<Peak>, j: int, start: u32) -> int
    decreases peaks.len() - j,
{
    if j >= peaks.len() || peaks[j].time_ms >= start + 100 {
        j
    } else {
        window_end(peaks, j + 1, start)
    }
}

pub proof fn lemma_window_end_bounds(peaks: Seq<Peak>, j: int, start: u32)
    requires
        0 <= j <= peaks.len(),
    ensures
        j <= window_end(peaks, j, start) <= peaks.len(),
    decreases peaks.len() - j,
{
    if j < peaks.len() && peaks[j].time_ms < start + 100 {
        lemma_window_end_bounds(peaks, j + 1, start);
    }
}

/// Density filter over time-sorted peaks from index `i`: cut them into
/// consecutive windows, each starting at its first peak and spanning 100 ms,
/// and keep the `n` strongest of each window.
pub open spec fn density_from(peaks: Seq<Peak>, i: int, n: nat) -> Seq<Peak>
    decreases peaks.len() - i,
{
    if i < 0 || i >= peaks.len() {
        Seq::empty()
    } else {
        let j = window_end(peaks, i + 1, peaks[i].time_ms);
        proof {
            lemma_window_end_bounds(peaks, i + 1, peaks[i].time_ms);
        }
        strongest(peaks.subrange(i, j), n) + density_from(peaks, j, n)
    }
}

fn strongest_index(w: &Vec<Peak>) -> (k: usize)
    requires
        w@.len() > 0,
    ensures
        k == strongest_index_upto(w@, w@.len() as int),
        k < w@.len(),
{
    let mut k: usize = 0;
    let mut m: usize = 1;
    while m < w.len()
        invariant
            1 <= m <= w@.len(),
            k == strongest_index_upto(w@, m as int),
            k < m,
        decreases w@.len() - m,
    {
        if w[m].magnitude_key > w[k].magnitude_key {
            k = m;
        }
        m += 1;
    }
    k
}

/// Appends the `n` strongest peaks of `window` to `out`.
fn push_strongest(window: Vec<Peak>, n: usize, out: &mut Vec<Peak>)
    ensures
        final(out)@ == old(out)@ + strongest(window@, n as nat),
{
    let ghost target = old(out)@ + strongest(window@, n as nat);
    let mut cur = window;
    let mut left = n;
    while left > 0 && cur.len() > 0
        invariant
            target == out@ + strongest(cur@, left as nat),
        decreases left,
    {
        let k = strongest_index(&cur);
        let ghost before = cur@;
        let p = cur.remove(k);
        proof {
            assert(before.remove(k as int) =~= cur@);
            assert(out@.push(p) + strongest(cur@, (left - 1) as nat) =~= out@ + strongest(before, left as nat));
        }
        out.push(p);
        left -= 1;
    }
    assert(strongest(cur@, left as nat) =~= Seq::empty());
}

proof fn lemma_strongest_members(w: Seq<Peak>, n: nat, m: int)
    requires
        0 <= m < strongest(w, n).len(),
    ensures
        w.contains(strongest(w, n)[m]),
    decreases n,
{
    let k = strongest_index_upto(w, w.len() as int);
    lemma_strongest_index_bound(w, w.len() as int);
    if m == 0 {
        assert(strongest(w, n)[0] == w[k]);
    } else {
        lemma_strongest_members(w.remove(k), (n - 1) as nat, m - 1);
        let x = strongest(w, n)[m];
        assert(x == strongest(w.remove(k), (n - 1) as nat)[m - 1]);
        let q = choose|q: int| 0 <= q < w.remove(k).len() && w.remove(k)[q] == x;
        if q < k {
            assert(w[q] == x);
        } else {
            assert(w[q + 1] == x);
        }
    }
}

proof fn lemma_strongest_index_bound(w: Seq<Peak>, m: int)
    requires
        1 <= m <= w.len(),
    ensures
        0 <= strongest_index_upto(w, m) < m,
    decreases m,
{
    if m > 1 {
        lemma_strongest_index_bound(w, m - 1);
    }
}

proof fn lemma_strongest_len(w: Seq<Peak>, n: nat)
    ensures
        strongest(w, n).len() <= w.len(),
        strongest(w, n).len() <= n,
    decreases n,
{
    if n > 0 && w.len() > 0 {
        let k = strongest_index_upto(w, w.len() as int);
        lemma_strongest_index_bound(w, w.len() as int);
        lemma_strongest_len(w.remove(k), (n - 1) as nat);
    }
}

proof fn lemma_strongest_index_max(w: Seq<Peak>, m: int)
    requires
        1 <= m <= w.len(),
    ensures
        forall|q: int| 0 <= q < m ==> #[trigger] w[q].magnitude_key <= w[strongest_index_upto(w, m)].magnitude_key,
    decreases m,
{
    lemma_strongest_index_bound(w, m);
    if m > 1 {
        lemma_strongest_index_max(w, m - 1);
        lemma_strongest_index_bound(w, m - 1);
    }
}

proof fn lemma_strongest_exact_len(w: Seq<Peak>, n: nat)
    ensures
        strongest(w, n).len() == if n <= w.len() { n as int } else { w.len() as int },
    decreases n,
{
    if n > 0 && w.len() > 0 {
        let k = strongest_index_upto(w, w.len() as int);
        lemma_strongest_index_bound(w, w.len() as int);
        lemma_strongest_exact_len(w.remove(k), (n - 1) as nat);
    }
}

/// The strongest `n` peaks of a window: `min(n, |w|)` peaks of `w`, by
/// decreasing magnitude, and no peak of `w` left out is stronger than the
/// weakest one kept.
pub proof fn lemma_strongest_selects(w: Seq<Peak>, n: nat)
    ensures
        strongest(w, n).len() == if n <= w.len() { n as int } else { w.len() as int },
        forall|m: int| 0 <= m < strongest(w, n).len() ==> w.contains(#[trigger] strongest(w, n)[m]),
        forall|a: int, b: int|
            0 <= a <= b < strongest(w, n).len() ==> strongest(w, n)[b].magnitude_key <= strongest(
                w,
                n,
            )[a].magnitude_key,
        strongest(w, n).len() > 0 ==> forall|q: int|
            0 <= q < w.len() && #[trigger] w[q].magnitude_key > strongest(w, n).last().magnitude_key ==> strongest(
                w,
                n,
            ).contains(w[q]),
    decreases n,
{
    lemma_strongest_exact_len(w, n);
    assert forall|m: int| 0 <= m < strongest(w, n).len() implies w.contains(#[trigger] strongest(w, n)[m]) by {
        lemma_strongest_members(w, n, m);
    }
    if n > 0 && w.len() > 0 {
        let k = strongest_index_upto(w, w.len() as int);
        lemma_strongest_index_bound(w, w.len() as int);
        lemma_strongest_index_max(w, w.len() as int);
        let r = w.remove(k);
        lemma_strongest_selects(r, (n - 1) as nat);
        let rest = strongest(r, (n - 1) as nat);
        let res = strongest(w, n);
        assert(res == seq![w[k]] + rest);
        assert forall|a: int, b: int| 0 <= a <= b < res.len() implies res[b].magnitude_key <= res[a].magnitude_key by {
            if a == 0 && b > 0 {
                assert(res[b] == rest[b - 1]);
                assert(r.contains(rest[b - 1]));
                let q = choose|q: int| 0 <= q < r.len() && r[q] == rest[b - 1];
                if q < k {
                    assert(r[q] == w[q]);
                } else {
                    assert(r[q] == w[q + 1]);
                }
            } else if a > 0 {
                assert(res[a] == rest[a - 1] && res[b] == rest[b - 1]);
            }
        }
        assert forall|q: int| 0 <= q < w.len() && #[trigger] w[q].magnitude_key > res.last().magnitude_key implies res.contains(
            w[q]) by {
            if q == k {
                assert(res[0] == w[q]);
            } else {
                let q2 = if q < k { q } else { q - 1 };
                assert(r[q2] == w[q]);
                if rest.len() == 0 {
                    assert(res.last() == w[k]);
                } else {
                    assert(res.last() == rest.last());
                    assert(r[q2].magnitude_key > rest.last().magnitude_key);
                    assert(rest.contains(r[q2]));
                    let i = choose|i: int| 0 <= i < rest.len() && rest[i] == r[q2];
                    assert(res[i + 1] == w[q]);
                }
            }
        }
    }
}

/// The density filter only keeps peaks it was given, and never more than
/// it was given.
pub proof fn lemma_density_members(peaks: Seq<Peak>, i: int, n: nat)
    requires
        0 <= i,
    ensures
        forall|m: int| 0 <= m < density_from(peaks, i, n).len() ==> peaks.contains(#[trigger] density_from(peaks, i, n)[m]),
        density_from(peaks, i, n).len() <= if i <= peaks.len() { peaks.len() - i } else { 0 },
    decreases peaks.len() - i,
{
    if i < peaks.len() {
        let j = window_end(peaks, i + 1, peaks[i].time_ms);
        lemma_window_end_bounds(peaks, i + 1, peaks[i].time_ms);
        let w = peaks.subrange(i, j);
        lemma_density_members(peaks, j, n);
        lemma_strongest_len(w, n);
        let head = strongest(w, n);
        let tail = density_from(peaks, j, n);
        assert forall|m: int| 0 <= m < density_from(peaks, i, n).len() implies peaks.contains(#[trigger] density_from(peaks, i, n)[m]) by {
            if m < head.len() {
                lemma_strongest_members(w, n, m);
                let q = choose|q: int| 0 <= q < w.len() && w[q] == head[m];
                assert(peaks[i + q] == head[m]);
            } else {
                assert(density_from(peaks, i, n)[m] == tail[m - head.len()]);
            }
        }
    }
}

/// `b` cuts `peaks` from index `start` on into consecutive windows
/// `b[w]..b[w + 1]`: each window holds only peaks less than 100 ms after its
/// first peak, and each next window starts with a peak at least 100 ms after
/// the first peak of the window before.
pub open spec fn is_window_partition(peaks: Seq<Peak>, b: Seq<int>, start: int) -> bool {
    &&& b.len() >= 1
    &&& b[0] == start
    &&& b.last() == peaks.len()
    &&& forall|w: int| 0 <= w < b.len() ==> start <= #[trigger] b[w] <= peaks.len()
    &&& forall|w: int| 0 <= w < b.len() - 1 ==> #[trigger] b[w] < b[w + 1]
    &&& forall|w: int, k: int|
        #![trigger b[w], peaks[k]]
        0 <= w < b.len() - 1 && b[w] <= k < b[w + 1] ==> peaks[k].time_ms < peaks[b[w]].time_ms + 100
    &&& forall|w: int| 0 <= w < b.len() - 2 ==> peaks[#[trigger] b[w + 1]].time_ms >= peaks[b[w]].time_ms + 100
}

/// The `n` strongest peaks of each window of the partition `b`, window by
/// window.
pub open spec fn window_blocks(peaks: Seq<Peak>, b: Seq<int>, n: nat) -> Seq<Peak>
    decreases b.len(),
{
    if b.len() < 2 {
        Seq::empty()
    } else {
        strongest(peaks.subrange(b[0], b[1]), n) + window_blocks(peaks, b.drop_first(), n)
    }
}

proof fn lemma_window_end_props(peaks: Seq<Peak>, j: int, start: u32)
    requires
        0 <= j <= peaks.len(),
    ensures
        forall|k: int| j <= k < window_end(peaks, j, start) ==> #[trigger] peaks[k].time_ms < start + 100,
        window_end(peaks, j, start) < peaks.len() ==> peaks[window_end(peaks, j, start)].time_ms >= start + 100,
    decreases peaks.len() - j,
{
    if j < peaks.len() && peaks[j].time_ms < start + 100 {
        lemma_window_end_props(peaks, j + 1, start);
    }
}

proof fn lemma_partition_cons(peaks: Seq<Peak>, i: int, rest: Seq<int>)
    requires
        0 <= i < peaks.len(),
        is_window_partition(peaks, rest, rest[0]),
        i < rest[0],
        forall|k: int| i < k < rest[0] ==> #[trigger] peaks[k].time_ms < peaks[i].time_ms + 100,
        rest[0] < peaks.len() ==> peaks[rest[0]].time_ms >= peaks[i].time_ms + 100,
    ensures
        is_window_partition(peaks, seq![i] + rest, i),
{
    let b = seq![i] + rest;
    let j = rest[0];
    assert forall|w: int| 0 <= w < b.len() implies i <= #[trigger] b[w] <= peaks.len() by {
        if w > 0 {
            assert(b[w] == rest[w - 1]);
        }
    }
    assert forall|w: int| 0 <= w < b.len() - 1 implies #[trigger] b[w] < b[w + 1] by {
        if w > 0 {
            assert(b[w] == rest[w - 1] && b[w + 1] == rest[w]);
        }
    }
    assert forall|w: int, k: int|
        #![trigger b[w], peaks[k]]
        0 <= w < b.len() - 1 && b[w] <= k < b[w + 1] implies peaks[k].time_ms < peaks[b[w]].time_ms + 100 by {
        if w > 0 {
            assert(b[w] == rest[w - 1] && b[w + 1] == rest[w]);
            assert(rest[w - 1] <= k < rest[w]);
        } else if k > i {
            assert(peaks[k].time_ms < peaks[i].time_ms + 100);
        }
    }
    assert forall|w: int| 0 <= w < b.len() - 2 implies peaks[#[trigger] b[w + 1]].time_ms >= peaks[b[w]].time_ms + 100 by {
        if w > 0 {
            assert(b[w] == rest[w - 1] && b[w + 1] == rest[w]);
        } else {
            assert(b[1] == rest[0]);
            assert(rest[0] < rest[1]);
            assert(rest[1] <= peaks.len());
        }
    }
    assert(b.last() == rest.last());
}

proof fn lemma_density_partition(peaks: Seq<Peak>, i: int, n: nat) -> (b: Seq<int>)
    requires
        0 <= i <= peaks.len(),
    ensures
        is_window_partition(peaks, b, i),
        density_from(peaks, i, n) == window_blocks(peaks, b, n),
    decreases peaks.len() - i,
{
    if i == peaks.len() {
        let b = seq![i];
        assert(density_from(peaks, i, n) =~= window_blocks(peaks, b, n));
        b
    } else {
        let start = peaks[i].time_ms;
        let j = window_end(peaks, i + 1, start);
        lemma_window_end_bounds(peaks, i + 1, start);
        lemma_window_end_props(peaks, i + 1, start);
        let rest = lemma_density_partition(peaks, j, n);
        lemma_partition_cons(peaks, i, rest);
        let b = seq![i] + rest;
        assert(b.drop_first() =~= rest);
        assert(b[0] == i && b[1] == j);
        assert(window_blocks(peaks, b, n) == strongest(peaks.subrange(i, j), n) + window_blocks(peaks, rest, n));
        assert(density_from(peaks, i, n) == strongest(peaks.subrange(i, j), n) + density_from(peaks, j, n));
        b
    }
}

/// Density windows: the filtered peaks are the strongest of each window of
/// a cut of the time-sorted peaks into windows that span less than 100 ms
/// from their first peak, each next window starting at the first peak at
/// least 100 ms after the previous window's first peak.
pub proof fn lemma_density_windows(peaks: Seq<Peak>, n: nat)
    ensures
        exists|b: Seq<int>| is_window_partition(peaks, b, 0) && density_from(peaks, 0, n) == window_blocks(peaks, b, n),
{
    let b = lemma_density_partition(peaks, 0, n);
}

/// Ensure roughly uniform density of peaks over time: sort the peaks by time,
/// cut them into consecutive 100 ms windows (each starting at its first
/// peak) and keep the `max_per_window` strongest peaks of each window.
pub fn filter_by_density(peaks: &mut Vec<Peak>, max_per_window: usize)
    ensures
        exists|sorted: Seq<Peak>|
            is_stable_time_sort(old(peaks)@, sorted) && final(peaks)@ == density_from(sorted, 0, max_per_window as nat),
        exists|sorted: Seq<Peak>, b: Seq<int>|
            is_stable_time_sort(old(peaks)@, sorted) && is_window_partition(sorted, b, 0) && final(peaks)@
                == window_blocks(sorted, b, max_per_window as nat),
        final(peaks)@.len() <= old(peaks)@.len(),
        forall|m: int| 0 <= m < final(peaks)@.len() ==> old(peaks)@.contains(#[trigger] final(peaks)@[m]),
{
    if peaks.len() == 0 {
        proof {
            let sorted = old(peaks)@;
            assert(is_stable_time_sort(old(peaks)@, sorted));
            assert(density_from(sorted, 0, max_per_window as nat) =~= peaks@);
            let b = lemma_density_partition(sorted, 0, max_per_window as nat);
        }
        return;
    }
    sort_peaks_by_time(peaks);
    let ghost sorted = peaks@;
    let mut filtered: Vec<Peak> = Vec::new();
    let mut i: usize = 0;
    while i < peaks.len()
        invariant
            sorted == peaks@,
            i <= sorted.len(),
            filtered@ + density_from(sorted, i as int, max_per_window as nat) == density_from(sorted, 0, max_per_window as nat),
        decreases sorted.len() - i,
    {
        let window_start_ms = peaks[i].time_ms;
        let mut j = i + 1;
        while j < peaks.len() && (peaks[j].time_ms as u64) < (window_start_ms as u64) + 100
            invariant
                sorted == peaks@,
                i < j <= sorted.len(),
                window_start_ms == sorted[i as int].time_ms,
                window_end(sorted, j as int, window_start_ms) == window_end(sorted, i + 1, window_start_ms),
            decreases sorted.len() - j,
        {
            j += 1;
        }
        let mut window: Vec<Peak> = Vec::new();
        let mut k = i;
        while k < j
            invariant
                sorted == peaks@,
                i <= k <= j <= sorted.len(),
                window@ == sorted.subrange(i as int, k as int),
            decreases j - k,
        {
            window.push(peaks[k]);
            assert(window@ =~= sorted.subrange(i as int, k + 1));
            k += 1;
        }
        let ghost before = filtered@;
        push_strongest(window, max_per_window, &mut filtered);
        assert(filtered@ + density_from(sorted, j as int, max_per_window as nat) =~= before + density_from(
            sorted,
            i as int,
            max_per_window as nat,
        ));
        i = j;
    }
    assert(filtered@ =~= density_from(sorted, 0, max_per_window as nat));
    proof {
        let b = lemma_density_partition(sorted, 0, max_per_window as nat);
        lemma_density_members(sorted, 0, max_per_window as nat);
        vstd::seq_lib::to_multiset_len(sorted);
        vstd::seq_lib::to_multiset_len(old(peaks)@);
        assert forall|m: int| 0 <= m < filtered@.len() implies old(peaks)@.contains(#[trigger] filtered@[m]) by {
            vstd::seq_lib::to_multiset_contains(sorted, filtered@[m]);
            vstd::seq_lib::to_multiset_contains(old(peaks)@, filtered@[m]);
        }
    }
    *peaks = filtered;
}


/// What peak picking reads of a spectrogram, as plain values: per cell
/// (row-major, `frame * num_bins + bin`) the power and the magnitude as
/// order-preserving integer keys and whether the magnitude reaches the peak
/// threshold; per bin its frequency in Hz; and the frame timing.
pub struct PeakGrid {
    pub power: Vec<u32>,
    pub magnitude: Vec<u32>,
    pub loud: Vec<bool>,
    pub bin_freq_hz: Vec<u16>,
    pub num_frames: usize,
    pub num_bins: usize,
    pub sample_rate: u32,
    pub hop_size: usize,
}

impl PeakGrid {
    /// Every per-cell vector covers the grid, the frame times can be
    /// computed, and the window scans cannot overflow.
    pub open spec fn wf(&self) -> bool {
        &&& self.power@.len() == self.num_frames * self.num_bins
        &&& self.magnitude@.len() == self.num_frames * self.num_bins
        &&& self.loud@.len() == self.num_frames * self.num_bins
        &&& self.bin_freq_hz@.len() == self.num_bins
        &&& self.sample_rate > 0
        &&& self.num_frames * self.hop_size * 1000 <= usize::MAX
        &&& self.num_frames + 5 <= usize::MAX
        &&& self.num_bins + 10 <= usize::MAX
    }

    pub open spec fn power_at(&self, t: int, f: int) -> u32 {
        self.power@[t * self.num_bins + f]
    }

    /// Cell (t, f) is at least as strong as every cell within 5 frames and
    /// 10 bins of it.
    pub open spec fn is_local_max(&self, t: int, f: int) -> bool {
        forall|t2: int, f2: int|
            window_lo(t, 5) <= t2 < window_hi(t, 5, self.num_frames as int) && window_lo(f, 10) <= f2
                < window_hi(f, 10, self.num_bins as int) ==> #[trigger] self.power_at(t2, f2) <= self.power_at(t, f)
    }

    /// Cell (t, f) is a peak: away from the band edges, loud, a local maximum.
    pub open spec fn is_peak(&self, t: int, f: int) -> bool {
        &&& 10 <= f < self.num_bins - 10
        &&& self.loud@[t * self.num_bins + f]
        &&& self.is_local_max(t, f)
    }

    pub open spec fn peak_at(&self, t: int, f: int) -> Peak {
        Peak {
            frame_idx: t as u32,
            bin_idx: f as u16,
            time_ms: spec_frame_to_ms(t, self.hop_size as int, self.sample_rate as int),
            freq_hz: self.bin_freq_hz@[f],
            magnitude_key: self.magnitude@[t * self.num_bins + f],
        }
    }

    /// The peaks of frame `t` from bin `f` on, by bin.
    pub open spec fn frame_peaks(&self, t: int, f: int) -> Seq<Peak>
        decreases self.num_bins - f,
    {
        if f < 0 || f >= self.num_bins - 10 {
            Seq::empty()
        } else {
            (if self.is_peak(t, f) { seq![self.peak_at(t, f)] } else { Seq::empty() }) + self.frame_peaks(t, f + 1)
        }
    }

    /// The peaks of the first `n` frames, frame by frame.
    pub open spec fn peaks_upto(&self, n: int) -> Seq<Peak>
        decreases n,
    {
        if n <= 0 {
            Seq::empty()
        } else {
            self.peaks_upto(n - 1) + self.frame_peaks(n - 1, 10)
        }
    }
}

proof fn lemma_cell_index(t: int, f: int, frames: int, bins: int)
    requires
        0 <= t < frames,
        0 <= f <= bins,
    ensures
        0 <= t * bins,
        t * bins + f <= frames * bins,
        f < bins ==> t * bins + f < frames * bins,
        t * bins + bins <= frames * bins,
{
    assert(0 <= t * bins) by (nonlinear_arith)
        requires 0 <= t, 0 <= bins;
    assert(t * bins + bins <= frames * bins) by (nonlinear_arith)
        requires 0 <= t < frames, 0 <= bins;
}

/// Per cell, the largest power within 10 bins in its own frame.
fn frequency_maxima(grid: &PeakGrid) -> (freq_max: Vec<u32>)
    requires
        grid.wf(),
    ensures
        freq_max@.len() == grid.num_frames * grid.num_bins,
        forall|t: int, f: int|
            0 <= t < grid.num_frames && 0 <= f < grid.num_bins ==> is_window_max(
                grid.power@.subrange(t * grid.num_bins, t * grid.num_bins + grid.num_bins),
                f,
                10,
                #[trigger] freq_max@[t * grid.num_bins + f],
            ),
{
    let frames = grid.num_frames;
    let bins = grid.num_bins;
    let cells = grid.power.len();
    let mut freq_max: Vec<u32> = Vec::new();
    let mut t: usize = 0;
    while t < frames
        invariant
            grid.wf(),
            frames == grid.num_frames,
            bins == grid.num_bins,
            cells == frames * bins,
            t <= frames,
            freq_max@.len() == t * bins,
            forall|t2: int, f: int|
                0 <= t2 < t && 0 <= f < bins ==> is_window_max(
                    grid.power@.subrange(t2 * bins, t2 * bins + bins),
                    f,
                    10,
                    #[trigger] freq_max@[t2 * bins + f],
                ),
        decreases frames - t,
    {
        proof {
            lemma_cell_index(t as int, 0, frames as int, bins as int);
        }
        let start = t * bins;
        let row = &grid.power.as_slice()[start..start + bins];
        assert(row@ == grid.power@.subrange(start as int, start + bins));
        let mut out_row: Vec<u32> = Vec::new();
        let mut f: usize = 0;
        while f < bins
            invariant
                f <= bins,
                out_row@.len() == f,
            decreases bins - f,
        {
            out_row.push(0);
            f += 1;
        }
        sliding_max_centered(row, 10, &mut out_row);
        let ghost before = freq_max@;
        let mut f: usize = 0;
        while f < bins
            invariant
                f <= bins,
                out_row@.len() == bins,
                freq_max@.len() == t * bins + f,
                forall|m: int| 0 <= m < t * bins ==> #[trigger] freq_max@[m] == before[m],
                forall|m: int| 0 <= m < f ==> #[trigger] freq_max@[t * bins + m] == out_row@[m],
            decreases bins - f,
        {
            freq_max.push(out_row[f]);
            f += 1;
        }
        proof {
            assert((t + 1) * bins == t * bins + bins) by (nonlinear_arith);
            assert forall|t2: int, f2: int|
                0 <= t2 < t + 1 && 0 <= f2 < bins implies is_window_max(
                    grid.power@.subrange(t2 * bins, t2 * bins + bins),
                    f2,
                    10,
                    #[trigger] freq_max@[t2 * bins + f2],
                ) by {
                if t2 < t {
                    lemma_cell_index(t2, f2, t as int, bins as int);
                    assert(freq_max@[t2 * bins + f2] == before[t2 * bins + f2]);
                } else {
                    assert(freq_max@[t2 * bins + f2] == out_row@[f2]);
                }
            }
        }
        t += 1;
    }
    freq_max
}


/// Column `f` of a row-major grid with `bins` columns and `frames` rows.
pub open spec fn column(cells: Seq<u32>, f: int, frames: int, bins: int) -> Seq<u32> {
    Seq::new(frames as nat, |t: int| cells[t * bins + f])
}

proof fn lemma_cell_index_injective(t1: int, f1: int, t2: int, f2: int, bins: int)
    requires
        0 <= f1 < bins,
        0 <= f2 < bins,
        0 <= t1,
        0 <= t2,
        t1 * bins + f1 == t2 * bins + f2,
    ensures
        t1 == t2,
        f1 == f2,
{
    assert(t1 == t2) by (nonlinear_arith)
        requires 0 <= f1 < bins, 0 <= f2 < bins, 0 <= t1, 0 <= t2, t1 * bins + f1 == t2 * bins + f2;
}

/// Per cell, the largest frequency maximum within 5 frames in its own bin:
/// the largest power in the cell's 11 x 21 neighbourhood.
fn window_maxima(grid: &PeakGrid, freq_max: &Vec<u32>) -> (window_max: Vec<u32>)
    requires
        grid.wf(),
        freq_max@.len() == grid.num_frames * grid.num_bins,
    ensures
        window_max@.len() == grid.num_frames * grid.num_bins,
        forall|t: int, f: int|
            0 <= t < grid.num_frames && 0 <= f < grid.num_bins ==> is_window_max(
                column(freq_max@, f, grid.num_frames as int, grid.num_bins as int),
                t,
                5,
                #[trigger] window_max@[t * grid.num_bins + f],
            ),
{
    let frames = grid.num_frames;
    let bins = grid.num_bins;
    let cells = grid.power.len();
    let mut window_max: Vec<u32> = Vec::new();
    let mut m: usize = 0;
    while m < cells
        invariant
            m <= cells,
            window_max@.len() == m,
        decreases cells - m,
    {
        window_max.push(0);
        m += 1;
    }
    let mut col_in: Vec<u32> = Vec::new();
    let mut col_out: Vec<u32> = Vec::new();
    let mut t: usize = 0;
    while t < frames
        invariant
            t <= frames,
            col_in@.len() == t,
            col_out@.len() == t,
        decreases frames - t,
    {
        col_in.push(0);
        col_out.push(0);
        t += 1;
    }
    let mut f: usize = 0;
    while f < bins
        invariant
            grid.wf(),
            frames == grid.num_frames,
            bins == grid.num_bins,
            cells == frames * bins,
            freq_max@.len() == cells,
            window_max@.len() == cells,
            col_in@.len() == frames,
            col_out@.len() == frames,
            f <= bins,
            forall|t2: int, f2: int|
                0 <= t2 < frames && 0 <= f2 < f ==> is_window_max(
                    column(freq_max@, f2, frames as int, bins as int),
                    t2,
                    5,
                    #[trigger] window_max@[t2 * bins + f2],
                ),
        decreases bins - f,
    {
        let mut t: usize = 0;
        while t < frames
            invariant
                frames == grid.num_frames,
                bins == grid.num_bins,
                cells == frames * bins,
                freq_max@.len() == cells,
                col_in@.len() == frames,
                f < bins,
                t <= frames,
                forall|t2: int| 0 <= t2 < t ==> #[trigger] col_in@[t2] == freq_max@[t2 * bins + f],
            decreases frames - t,
        {
            proof {
                lemma_cell_index(t as int, f as int, frames as int, bins as int);
            }
            col_in.set(t, freq_max[t * bins + f]);
            t += 1;
        }
        assert(col_in@ =~= column(freq_max@, f as int, frames as int, bins as int));
        sliding_max_centered(col_in.as_slice(), 5, &mut col_out);
        let ghost before = window_max@;
        let mut t: usize = 0;
        while t < frames
            invariant
                frames == grid.num_frames,
                bins == grid.num_bins,
                cells == frames * bins,
                window_max@.len() == cells,
                col_out@.len() == frames,
                f < bins,
                t <= frames,
                forall|t2: int| 0 <= t2 < t ==> #[trigger] window_max@[t2 * bins + f] == col_out@[t2],
                forall|t2: int, f2: int|
                    0 <= t2 < frames && 0 <= f2 < bins && f2 != f ==> #[trigger] window_max@[t2 * bins + f2]
                        == before[t2 * bins + f2],
            decreases frames - t,
        {
            proof {
                lemma_cell_index(t as int, f as int, frames as int, bins as int);
            }
            let ghost prev = window_max@;
            window_max.set(t * bins + f, col_out[t]);
            proof {
                assert forall|t2: int| 0 <= t2 < t + 1 implies #[trigger] window_max@[t2 * bins + f] == col_out@[t2] by {
                    if t2 < t {
                        lemma_cell_index(t2, f as int, frames as int, bins as int);
                        if t2 * bins + f == t * bins + f {
                            lemma_cell_index_injective(t2, f as int, t as int, f as int, bins as int);
                        }
                    }
                }
                assert forall|t2: int, f2: int|
                    0 <= t2 < frames && 0 <= f2 < bins && f2 != f implies #[trigger] window_max@[t2 * bins + f2]
                        == before[t2 * bins + f2] by {
                    lemma_cell_index(t2, f2, frames as int, bins as int);
                    if t2 * bins + f2 == t * bins + f {
                        lemma_cell_index_injective(t2, f2, t as int, f as int, bins as int);
                    }
                }
            }
            t += 1;
        }
        proof {
            assert forall|t2: int, f2: int|
                0 <= t2 < frames && 0 <= f2 < f + 1 implies is_window_max(
                    column(freq_max@, f2, frames as int, bins as int),
                    t2,
                    5,
                    #[trigger] window_max@[t2 * bins + f2],
                ) by {
                if f2 < f {
                    assert(window_max@[t2 * bins + f2] == before[t2 * bins + f2]);
                } else {
                    assert(window_max@[t2 * bins + f2] == col_out@[t2]);
                }
            }
        }
        f += 1;
    }
    window_max
}

/// A cell reaches its neighbourhood maximum exactly when it is a local maximum.
proof fn lemma_local_max_iff(grid: &PeakGrid, freq_max: Seq<u32>, window_max: Seq<u32>, t: int, f: int)
    requires
        grid.wf(),
        0 <= t < grid.num_frames,
        0 <= f < grid.num_bins,
        freq_max.len() == grid.num_frames * grid.num_bins,
        forall|t2: int, f2: int|
            0 <= t2 < grid.num_frames && 0 <= f2 < grid.num_bins ==> is_window_max(
                grid.power@.subrange(t2 * grid.num_bins, t2 * grid.num_bins + grid.num_bins),
                f2,
                10,
                #[trigger] freq_max[t2 * grid.num_bins + f2],
            ),
        is_window_max(
            column(freq_max, f, grid.num_frames as int, grid.num_bins as int),
            t,
            5,
            window_max[t * grid.num_bins + f],
        ),
    ensures
        (grid.power_at(t, f) >= window_max[t * grid.num_bins + f]) <==> grid.is_local_max(t, f),
{
    let frames = grid.num_frames as int;
    let bins = grid.num_bins as int;
    let col = column(freq_max, f, frames, bins);
    let w = window_max[t * bins + f];
    if grid.power_at(t, f) >= w {
        assert forall|t2: int, f2: int|
            window_lo(t, 5) <= t2 < window_hi(t, 5, frames) && window_lo(f, 10) <= f2 < window_hi(f, 10, bins)
                implies #[trigger] grid.power_at(t2, f2) <= grid.power_at(t, f) by {
            lemma_cell_index(t2, 0, frames, bins);
            let row = grid.power@.subrange(t2 * bins, t2 * bins + bins);
            assert(is_window_max(row, f, 10, freq_max[t2 * bins + f]));
            assert(row[f2] == grid.power_at(t2, f2));
            assert(col[t2] == freq_max[t2 * bins + f]);
        }
    } else {
        let t2 = choose|k: int| window_lo(t, 5) <= k < window_hi(t, 5, frames) && col[k] == w;
        lemma_cell_index(t2, 0, frames, bins);
        let row = grid.power@.subrange(t2 * bins, t2 * bins + bins);
        assert(is_window_max(row, f, 10, freq_max[t2 * bins + f]));
        let f2 = choose|k: int| window_lo(f, 10) <= k < window_hi(f, 10, bins) && row[k] == freq_max[t2 * bins + f];
        assert(row[f2] == grid.power_at(t2, f2));
        assert(!(grid.power_at(t2, f2) <= grid.power_at(t, f)));
    }
}


impl PeakGrid {
    /// `p` is the peak of some peak cell of the grid.
    pub open spec fn is_peak_of_grid(&self, p: Peak) -> bool {
        exists|t: int, f: int|
            0 <= t < self.num_frames && 0 <= f < self.num_bins && self.is_peak(t, f) && p == #[trigger] self.peak_at(t, f)
    }
}

proof fn lemma_frame_peaks_members(grid: &PeakGrid, t: int, f: int, m: int)
    requires
        0 <= t < grid.num_frames,
        0 <= m < grid.frame_peaks(t, f).len(),
    ensures
        grid.is_peak_of_grid(grid.frame_peaks(t, f)[m]),
    decreases grid.num_bins - f,
{
    if !(f < 0 || f >= grid.num_bins - 10) {
        let head: Seq<Peak> = if grid.is_peak(t, f) { seq![grid.peak_at(t, f)] } else { Seq::empty() };
        if m < head.len() {
            assert(grid.frame_peaks(t, f)[m] == grid.peak_at(t, f));
        } else {
            lemma_frame_peaks_members(grid, t, f + 1, m - head.len());
            assert(grid.frame_peaks(t, f)[m] == grid.frame_peaks(t, f + 1)[m - head.len()]);
        }
    }
}

proof fn lemma_peaks_upto_members(grid: &PeakGrid, n: int, m: int)
    requires
        n <= grid.num_frames,
        0 <= m < grid.peaks_upto(n).len(),
    ensures
        grid.is_peak_of_grid(grid.peaks_upto(n)[m]),
    decreases n,
{
    if n > 0 {
        let prev = grid.peaks_upto(n - 1);
        if m < prev.len() {
            lemma_peaks_upto_members(grid, n - 1, m);
            assert(grid.peaks_upto(n)[m] == prev[m]);
        } else {
            lemma_frame_peaks_members(grid, n - 1, 10, m - prev.len());
            assert(grid.peaks_upto(n)[m] == grid.frame_peaks(n - 1, 10)[m - prev.len()]);
        }
    }
}

/// Extract the constellation points (peaks) of a spectrogram: the cells that
/// are loud enough and hold the largest power within 5 frames and 10 bins,
/// at least 10 bins away from either end of the spectrum, thinned to the 50
/// strongest per 100 ms window.
pub fn extract_peaks(grid: &PeakGrid) -> (peaks: Vec<Peak>)
    requires
        grid.wf(),
    ensures
        exists|sorted: Seq<Peak>|
            is_stable_time_sort(grid.peaks_upto(grid.num_frames as int), sorted) && peaks@ == density_from(
                sorted,
                0,
                50,
            ),
        exists|sorted: Seq<Peak>, b: Seq<int>|
            is_stable_time_sort(grid.peaks_upto(grid.num_frames as int), sorted) && is_window_partition(sorted, b, 0)
                && peaks@ == window_blocks(sorted, b, 50),
        forall|m: int| 0 <= m < peaks@.len() ==> grid.is_peak_of_grid(#[trigger] peaks@[m]),
{
    let frames = grid.num_frames;
    let bins = grid.num_bins;
    let cells = grid.power.len();
    let freq_max = frequency_maxima(grid);
    let window_max = window_maxima(grid, &freq_max);
    let mut peaks: Vec<Peak> = Vec::new();
    let f_end = bins.saturating_sub(10);
    let mut t: usize = 0;
    while t < frames
        invariant
            grid.wf(),
            frames == grid.num_frames,
            bins == grid.num_bins,
            cells == frames * bins,
            f_end == if bins >= 10 { bins - 10 } else { 0 },
            t <= frames,
            freq_max@.len() == cells,
            window_max@.len() == cells,
            forall|t2: int, f2: int|
                0 <= t2 < frames && 0 <= f2 < bins ==> is_window_max(
                    grid.power@.subrange(t2 * bins, t2 * bins + bins),
                    f2,
                    10,
                    #[trigger] freq_max@[t2 * bins + f2],
                ),
            forall|t2: int, f2: int|
                0 <= t2 < frames && 0 <= f2 < bins ==> is_window_max(
                    column(freq_max@, f2, frames as int, bins as int),
                    t2,
                    5,
                    #[trigger] window_max@[t2 * bins + f2],
                ),
            peaks@ == grid.peaks_upto(t as int),
        decreases frames - t,
    {
        let ghost before = peaks@;
        let mut f: usize = 10;
        while f < f_end
            invariant
                grid.wf(),
                frames == grid.num_frames,
                bins == grid.num_bins,
                cells == frames * bins,
                f_end == if bins >= 10 { bins - 10 } else { 0 },
                t < frames,
                10 <= f,
                f <= f_end || f_end < 10,
                freq_max@.len() == cells,
                window_max@.len() == cells,
                forall|t2: int, f2: int|
                    0 <= t2 < frames && 0 <= f2 < bins ==> is_window_max(
                        grid.power@.subrange(t2 * bins, t2 * bins + bins),
                        f2,
                        10,
                        #[trigger] freq_max@[t2 * bins + f2],
                    ),
                forall|t2: int, f2: int|
                    0 <= t2 < frames && 0 <= f2 < bins ==> is_window_max(
                        column(freq_max@, f2, frames as int, bins as int),
                        t2,
                        5,
                        #[trigger] window_max@[t2 * bins + f2],
                    ),
                before + grid.frame_peaks(t as int, 10) == peaks@ + grid.frame_peaks(t as int, f as int),
            decreases f_end - f,
        {
            proof {
                lemma_cell_index(t as int, f as int, frames as int, bins as int);
                lemma_local_max_iff(grid, freq_max@, window_max@, t as int, f as int);
            }
            let idx = t * bins + f;
            let ghost prev = peaks@;
            if grid.loud[idx] && grid.power[idx] >= window_max[idx] {
                proof {
                    lemma_frame_time_fits(grid, t as int);
                }
                let time_ms = frame_to_ms(t, grid.hop_size, grid.sample_rate);
                peaks.push(
                    Peak {
                        frame_idx: t as u32,
                        bin_idx: f as u16,
                        time_ms,
                        freq_hz: grid.bin_freq_hz[f],
                        magnitude_key: grid.magnitude[idx],
                    },
                );
                assert(peaks@ == prev.push(grid.peak_at(t as int, f as int)));
                assert(prev + grid.frame_peaks(t as int, f as int) =~= peaks@ + grid.frame_peaks(t as int, f + 1));
            } else {
                assert(prev + grid.frame_peaks(t as int, f as int) =~= peaks@ + grid.frame_peaks(t as int, f + 1));
            }
            f += 1;
        }
        proof {
            lemma_frame_peaks_empty_tail(grid, t as int, f as int);
            assert(peaks@ =~= grid.peaks_upto(t + 1));
        }
        t += 1;
    }
    let ghost candidates = peaks@;
    filter_by_density(&mut peaks, 50);
    proof {
        assert forall|m: int| 0 <= m < peaks@.len() implies grid.is_peak_of_grid(#[trigger] peaks@[m]) by {
            let q = choose|q: int| 0 <= q < candidates.len() && candidates[q] == peaks@[m];
            lemma_peaks_upto_members(grid, frames as int, q);
        }
    }
    peaks
}

proof fn lemma_frame_time_fits(grid: &PeakGrid, t: int)
    requires
        grid.wf(),
        0 <= t < grid.num_frames,
    ensures
        t * grid.hop_size * 1000 <= usize::MAX,
{
    assert(t * grid.hop_size * 1000 <= grid.num_frames * grid.hop_size * 1000) by (nonlinear_arith)
        requires 0 <= t < grid.num_frames, grid.hop_size >= 0;
}

/// Past the last bin considered, a frame has no more peaks.
proof fn lemma_frame_peaks_empty_tail(grid: &PeakGrid, t: int, f: int)
    requires
        f >= grid.num_bins - 10,
    ensures
        grid.frame_peaks(t, f) == Seq::<Peak>::empty(),
{
}


/// Convert peaks to (time_ms, freq_hz) points for hashing.
pub fn peaks_to_constellation(peaks: Vec<Peak>) -> (points: Vec<(u32, u16)>)
    ensures
        points@ == peaks@.map_values(|p: Peak| (p.time_ms, p.freq_hz)),
{
    let mut points: Vec<(u32, u16)> = Vec::new();
    let mut i: usize = 0;
    while i < peaks.len()
        invariant
            i <= peaks@.len(),
            points@ == peaks@.take(i as int).map_values(|p: Peak| (p.time_ms, p.freq_hz)),
        decreases peaks@.len() - i,
    {
        points.push((peaks[i].time_ms, peaks[i].freq_hz));
        assert(peaks@.take(i + 1).map_values(|p: Peak| (p.time_ms, p.freq_hz)) =~= points@);
        i += 1;
    }
    assert(peaks@.take(peaks@.len() as int) =~= peaks@);
    points
}

} // verus!
