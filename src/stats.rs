use vstd::prelude::*;
use vstd::string::StringExecFns;

verus! {

/// The share of `requests` that falls to worker `thread_nr` out of `threads`:
/// the first `requests % threads` workers take one request more than the rest.
pub open spec fn chunk_of(requests: nat, threads: nat, thread_nr: nat) -> nat
    recommends
        threads > 0,
{
    if thread_nr < requests % threads {
        requests / threads + 1
    } else {
        requests / threads
    }
}

pub fn chunk_reqs(requests: usize, threads: usize, thread_nr: usize) -> (reqs: usize)
    requires
        threads > 0,
    ensures
        reqs == chunk_of(requests as nat, threads as nat, thread_nr as nat),
{
    let mut reqs = requests / threads;
    let modulus = requests % threads;
    if modulus != 0 && thread_nr < modulus {
        assert(reqs < requests) by (nonlinear_arith)
            requires reqs == requests / threads, modulus == requests % threads, modulus > 0, threads > 0;
        reqs += 1;
    }
    reqs
}


/// Sum of a sequence of counts.
pub open spec fn total(s: Seq<usize>) -> nat
    decreases s.len(),
{
    if s.len() == 0 {
        0
    } else {
        total(s.drop_last()) + s.last() as nat
    }
}

/// Splits `requests` across `threads` workers: entry `i` is worker `i`'s share.
pub fn partition(requests: usize, threads: usize) -> (shares: Vec<usize>)
    requires
        threads > 0,
    ensures
        shares@.len() == threads,
        forall|i: int| 0 <= i < threads ==> shares@[i] == chunk_of(requests as nat, threads as nat, i as nat),
{
    let mut shares: Vec<usize> = Vec::with_capacity(threads);
    let mut i: usize = 0;
    while i < threads
        invariant
            i <= threads,
            threads > 0,
            shares@.len() == i,
            forall|j: int| 0 <= j < i ==> shares@[j] == chunk_of(requests as nat, threads as nat, j as nat),
        decreases threads - i,
    {
        let reqs = chunk_reqs(requests, threads, i);
        shares.push(reqs);
        i += 1;
    }
    shares
}

proof fn lemma_chunk_prefix_total(requests: nat, threads: nat, k: nat)
    requires
        threads > 0,
        k <= threads,
        requests <= usize::MAX,
    ensures
        total(Seq::new(k, |i: int| chunk_of(requests, threads, i as nat) as usize))
            == k * (requests / threads) + if k < requests % threads { k } else { requests % threads },
    decreases k,
{
    let s = Seq::new(k, |i: int| chunk_of(requests, threads, i as nat) as usize);
    if k > 0 {
        let q = requests / threads;
        let r = requests % threads;
        lemma_chunk_prefix_total(requests, threads, (k - 1) as nat);
        assert(s.drop_last() =~= Seq::new((k - 1) as nat, |i: int| chunk_of(requests, threads, i as nat) as usize));
        assert(k * q == (k - 1) * q + q) by (nonlinear_arith) requires k > 0;
        assert(requests == threads * q + r && r < threads) by (nonlinear_arith)
            requires threads > 0, q == requests / threads, r == requests % threads;
        assert(q + 1 <= requests || r == 0) by (nonlinear_arith)
            requires requests == threads * q + r, threads > 0;
        assert(s.last() as nat == chunk_of(requests, threads, (k - 1) as nat));
        assert(total(s) == total(s.drop_last()) + s.last() as nat);
        assert(total(s.drop_last()) == (k - 1) * q + if k - 1 < r { (k - 1) as nat } else { r });
    } else {
        assert(total(s) == 0);
    }
}

/// The shares add up to the whole, no two differ by more than one, and the
/// first `requests % threads` workers take the larger share, the ceiling of
/// `requests / threads`.
pub proof fn lemma_partition_correct(requests: usize, threads: usize, shares: Seq<usize>)
    requires
        threads > 0,
        shares.len() == threads,
        forall|i: int| 0 <= i < threads ==> shares[i] == chunk_of(requests as nat, threads as nat, i as nat),
    ensures
        total(shares) == requests,
        forall|i: int, j: int| 0 <= i < threads && 0 <= j < threads ==> shares[i] <= shares[j] + 1,
        forall|i: int| 0 <= i < requests % threads ==> shares[i] == (requests + threads - 1) as int / threads as int,
        forall|i: int| requests % threads <= i < threads ==> shares[i] == requests / threads,
{
    let n = requests as nat;
    let t = threads as nat;
    lemma_chunk_prefix_total(n, t, t);
    assert(shares =~= Seq::new(t, |i: int| chunk_of(n, t, i as nat) as usize));
    assert(n == t * (n / t) + n % t) by (nonlinear_arith) requires t > 0;
    assert(n % t < t) by (nonlinear_arith) requires t > 0;
    if n % t > 0 {
        assert((n + t - 1) as int / t as int == n / t + 1) by (nonlinear_arith)
            requires t > 0, n % t > 0, n == t * (n / t) + n % t, n % t < t;
    }
}


/// Number of histogram bins between the 5th and the 95th percentile.
pub const N_BINS: usize = 10;

pub open spec fn sorted(s: Seq<u128>) -> bool {
    forall|i: int, j: int| 0 <= i <= j < s.len() ==> s[i] <= s[j]
}

/// Index, counted from zero, of percentile `pct` among `n` sorted samples:
/// the nearest rank `round(n * pct / 100)`, counted from one and clamped to
/// `1..=n`.
pub open spec fn rank_index(n: nat, pct: nat) -> nat {
    let r = (n * pct + 50) / 100;
    if r == 0 {
        0
    } else if r <= n {
        (r - 1) as nat
    } else {
        (n - 1) as nat
    }
}

/// Width of one histogram bin: `ceil((p95 - p05) / 10)`.
pub open spec fn bin_width(p05: u128, p95: u128) -> nat {
    ((p95 - p05 + 9) / 10) as nat
}

/// Whether latency `t` falls in bin `k` of the histogram that starts at `p05`
/// with bins `bs` wide: the first bin is closed, the others are open below.
pub open spec fn in_bin(t: u128, p05: u128, bs: nat, k: nat) -> bool {
    &&& p05 <= t
    &&& t <= p05 + (k + 1) * bs
    &&& (k == 0 || p05 + k * bs < t)
}

/// Number of samples of `s` that fall in bin `k`.
pub open spec fn bin_count(s: Seq<u128>, p05: u128, bs: nat, k: nat) -> nat
    decreases s.len(),
{
    if s.len() == 0 {
        0
    } else {
        bin_count(s.drop_last(), p05, bs, k) + if in_bin(s.last(), p05, bs, k) { 1nat } else { 0 }
    }
}

/// Lower edge of bin `k`, or `u128::MAX` where the edge would not fit.
pub open spec fn lower_edge(p05: u128, bs: u128, k: nat) -> u128 {
    if p05 + k * bs <= u128::MAX {
        (p05 + k * bs) as u128
    } else {
        u128::MAX
    }
}

/// Summary statistics of one run.
pub struct Stats {
    /// Wall time of the run in nanoseconds.
    pub total_time: u128,
    /// The latency samples, sorted ascending.
    pub timers: Vec<u128>,
    /// Number of requests the run was asked for.
    pub requests: usize,
    pub avg_time_per_request: u128,
    pub min: u128,
    pub max: u128,
    pub p05: u128,
    pub p95: u128,
    pub p99: u128,
    /// Number of samples in each histogram bin.
    pub bins: Vec<usize>,
    /// Lower edge of each histogram bin.
    pub bin_lower_range: Vec<u128>,
    pub bin_size: u128,
}

/// Relies on slice::sort_unstable: afterwards the slice is sorted ascending
/// and holds the same values.
#[verifier::external_body]
fn sort_samples(v: &mut Vec<u128>)
    ensures
        final(v)@.to_multiset() == old(v)@.to_multiset(),
        sorted(final(v)@),
{
    v.sort_unstable();
}

/// The sample at nearest rank `pct` of the sorted, non-empty `timers`.
fn percentile(timers: &Vec<u128>, pct: u128) -> (r: u128)
    requires
        timers@.len() > 0,
        pct <= 100,
    ensures
        r == timers@[rank_index(timers@.len(), pct as nat) as int],
{
    let n = timers.len();
    assert(n as u128 * pct <= 0xffff_ffff_ffff_ffff * 100) by (nonlinear_arith)
        requires n as u128 <= 0xffff_ffff_ffff_ffff, pct <= 100;
    let rank: u128 = (n as u128 * pct + 50) / 100;
    let idx: usize = if rank == 0 {
        0
    } else if rank <= n as u128 {
        (rank - 1) as usize
    } else {
        n - 1
    };
    timers[idx]
}

/// Counts the samples of `timers` in each of the `N_BINS` bins.
fn fill_bins(timers: &Vec<u128>, p05: u128, bs: u128) -> (bins: Vec<usize>)
    ensures
        bins@.len() == N_BINS,
        forall|k: int| 0 <= k < N_BINS ==> bins@[k] == bin_count(timers@, p05, bs as nat, k as nat),
{
    let mut bins: Vec<usize> = Vec::with_capacity(N_BINS);
    let mut k: usize = 0;
    while k < N_BINS
        invariant
            k <= N_BINS,
            bins@.len() == k,
            forall|i: int| 0 <= i < k ==> bins@[i] == 0,
        decreases N_BINS - k,
    {
        bins.push(0);
        k += 1;
    }
    let n = timers.len();
    let mut j: usize = 0;
    while j < n
        invariant
            n == timers@.len(),
            j <= n,
            bins@.len() == N_BINS,
            forall|i: int| 0 <= i < N_BINS ==> bins@[i] == bin_count(timers@.take(j as int), p05, bs as nat, i as nat),
            forall|i: int| 0 <= i < N_BINS ==> bins@[i] <= j,
        decreases n - j,
    {
        let t = timers[j];
        let ghost prev = bins@;
        assert(timers@.take(j + 1).drop_last() =~= timers@.take(j as int));
        let mut k: usize = 0;
        while k < N_BINS
            invariant
                j < n,
                n == timers@.len(),
                t == timers@[j as int],
                k <= N_BINS,
                bins@.len() == N_BINS,
                prev.len() == N_BINS,
                forall|i: int| 0 <= i < k ==> bins@[i] == prev[i] + if in_bin(t, p05, bs as nat, i as nat) { 1int } else { 0 },
                forall|i: int| k <= i < N_BINS ==> bins@[i] == prev[i],
                forall|i: int| 0 <= i < N_BINS ==> prev[i] <= j,
            decreases N_BINS - k,
        {
            let hit = if t < p05 {
                false
            } else {
                let d = t - p05;
                let below_hi = match (k as u128 + 1).checked_mul(bs) {
                    Some(hi) => d <= hi,
                    None => true,
                };
                let above_lo = k == 0 || match (k as u128).checked_mul(bs) {
                    Some(lo) => lo < d,
                    None => false,
                };
                below_hi && above_lo
            };
            if hit {
                let c = bins[k];
                assert(c == prev[k as int] && prev[k as int] <= j);
                bins.set(k, c + 1);
            }
            k += 1;
        }
        j += 1;
    }
    assert(timers@.take(timers@.len() as int) =~= timers@);
    bins
}


proof fn lemma_rank_monotone(n: nat, a: nat, b: nat)
    requires
        n > 0,
        a <= b,
    ensures
        rank_index(n, a) <= rank_index(n, b),
        rank_index(n, b) < n,
{
    assert((n * a + 50) / 100 <= (n * b + 50) / 100) by (nonlinear_arith) requires a <= b;
}

impl Stats {
    /// Whether the statistics are those of the samples `samples` of a run of
    /// `requests` requests that took `total_time` nanoseconds.
    pub open spec fn describes(&self, total_time: u128, samples: Seq<u128>, requests: usize) -> bool {
        let s = self.timers@;
        let n = s.len();
        &&& self.total_time == total_time
        &&& self.requests == requests
        &&& s.to_multiset() == samples.to_multiset()
        &&& sorted(s)
        &&& n == samples.len()
        &&& n > 0
        &&& self.avg_time_per_request == total_time / requests as u128
        &&& self.min == s[0]
        &&& self.max == s[n - 1]
        &&& self.p05 == s[rank_index(n, 5) as int]
        &&& self.p95 == s[rank_index(n, 95) as int]
        &&& self.p99 == s[rank_index(n, 99) as int]
        &&& self.bin_size == bin_width(self.p05, self.p95)
        &&& self.bins@.len() == N_BINS
        &&& forall|k: int| 0 <= k < N_BINS ==> self.bins@[k] == bin_count(s, self.p05, self.bin_size as nat, k as nat)
        &&& self.bin_lower_range@.len() == N_BINS
        &&& forall|k: int| 0 <= k < N_BINS ==> self.bin_lower_range@[k] == lower_edge(self.p05, self.bin_size, k as nat)
    }

    /// Sorts the samples and computes percentiles, extremes, the average time
    /// per request and the histogram of the band between the 5th and the
    /// 95th percentile.
    pub fn new(total_time: u128, timers: Vec<u128>, requests: usize) -> (r: Stats)
        requires
            requests > 0,
            timers@.len() > 0,
        ensures
            r.describes(total_time, timers@, requests),
    {
        let ghost input = timers@;
        let mut timers = timers;
        sort_samples(&mut timers);
        proof {
            timers@.to_multiset_ensures();
            input.to_multiset_ensures();
            assert(timers@.len() == input.len());
        }
        let n = timers.len();
        let avg_time_per_request = total_time / requests as u128;
        let p05 = percentile(&timers, 5);
        let p95 = percentile(&timers, 95);
        let p99 = percentile(&timers, 99);
        proof {
            lemma_rank_monotone(n as nat, 5, 95);
        }
        let min = timers[0];
        let max = timers[n - 1];
        let range = p95 - p05;
        let bin_size = if range % 10 == 0 { range / 10 } else { range / 10 + 1 };
        assert(bin_size == (range + 9) as int / 10) by (nonlinear_arith)
            requires bin_size as int == if range % 10 == 0 { range as int / 10 } else { range as int / 10 + 1 };
        let bins = fill_bins(&timers, p05, bin_size);
        let mut bin_lower_range: Vec<u128> = Vec::with_capacity(N_BINS);
        let mut k: usize = 0;
        while k < N_BINS
            invariant
                k <= N_BINS,
                bin_lower_range@.len() == k,
                forall|i: int| 0 <= i < k ==> bin_lower_range@[i] == lower_edge(p05, bin_size, i as nat),
            decreases N_BINS - k,
        {
            let edge = match (k as u128).checked_mul(bin_size) {
                Some(offset) => match p05.checked_add(offset) {
                    Some(e) => e,
                    None => u128::MAX,
                },
                None => {
                    assert(p05 + k * bin_size > u128::MAX) by (nonlinear_arith)
                        requires k * bin_size > u128::MAX;
                    u128::MAX
                },
            };
            bin_lower_range.push(edge);
            k += 1;
        }
        Stats {
            total_time,
            timers,
            requests,
            avg_time_per_request,
            min,
            max,
            p05,
            p95,
            p99,
            bins,
            bin_lower_range,
            bin_size,
        }
    }
}


/// Number of samples of `s` in the first `m` bins together.
pub open spec fn bins_total(s: Seq<u128>, p05: u128, bs: nat, m: nat) -> nat
    decreases m,
{
    if m == 0 {
        0
    } else {
        bins_total(s, p05, bs, (m - 1) as nat) + bin_count(s, p05, bs, (m - 1) as nat)
    }
}

/// Number of the first `m` bins that hold latency `t`.
pub open spec fn hits(t: u128, p05: u128, bs: nat, m: nat) -> nat
    decreases m,
{
    if m == 0 {
        0
    } else {
        hits(t, p05, bs, (m - 1) as nat) + if in_bin(t, p05, bs, (m - 1) as nat) { 1nat } else { 0 }
    }
}

proof fn lemma_hits_none(t: u128, p05: u128, bs: nat, m: nat)
    requires
        t < p05 || t > p05 + m * bs,
    ensures
        hits(t, p05, bs, m) == 0,
    decreases m,
{
    if m > 0 {
        assert(m * bs == (m - 1) * bs + bs) by (nonlinear_arith) requires m > 0;
        lemma_hits_none(t, p05, bs, (m - 1) as nat);
    }
}

proof fn lemma_hits_at_most_one(t: u128, p05: u128, bs: nat, m: nat)
    ensures
        hits(t, p05, bs, m) <= 1,
    decreases m,
{
    if m > 0 {
        lemma_hits_at_most_one(t, p05, bs, (m - 1) as nat);
        if in_bin(t, p05, bs, (m - 1) as nat) && m > 1 {
            lemma_hits_none(t, p05, bs, (m - 1) as nat);
        }
    }
}

proof fn lemma_bins_total_last(s: Seq<u128>, p05: u128, bs: nat, m: nat)
    requires
        s.len() > 0,
    ensures
        bins_total(s, p05, bs, m) == bins_total(s.drop_last(), p05, bs, m) + hits(s.last(), p05, bs, m),
    decreases m,
{
    if m > 0 {
        lemma_bins_total_last(s, p05, bs, (m - 1) as nat);
    }
}

proof fn lemma_bins_total_empty(s: Seq<u128>, p05: u128, bs: nat, m: nat)
    requires
        s.len() == 0,
    ensures
        bins_total(s, p05, bs, m) == 0,
    decreases m,
{
    if m > 0 {
        lemma_bins_total_empty(s, p05, bs, (m - 1) as nat);
    }
}

proof fn lemma_bins_total_bound(s: Seq<u128>, p05: u128, bs: nat)
    ensures
        bins_total(s, p05, bs, N_BINS as nat) <= s.len(),
        bins_total(s, p05, bs, N_BINS as nat) == s.len() ==>
            forall|i: int| 0 <= i < s.len() ==> p05 <= #[trigger] s[i] <= p05 + N_BINS * bs,
    decreases s.len(),
{
    if s.len() > 0 {
        let t = s.last();
        lemma_bins_total_bound(s.drop_last(), p05, bs);
        lemma_bins_total_last(s, p05, bs, N_BINS as nat);
        lemma_hits_at_most_one(t, p05, bs, N_BINS as nat);
        if t < p05 || t > p05 + N_BINS * bs {
            lemma_hits_none(t, p05, bs, N_BINS as nat);
        }
        if bins_total(s, p05, bs, N_BINS as nat) == s.len() {
            assert forall|i: int| 0 <= i < s.len() implies p05 <= #[trigger] s[i] <= p05 + N_BINS * bs by {
                if i < s.len() - 1 {
                    assert(s[i] == s.drop_last()[i]);
                }
            }
        }
    } else {
        lemma_bins_total_empty(s, p05, bs, N_BINS as nat);
    }
}

proof fn lemma_counts_total(counts: Seq<usize>, s: Seq<u128>, p05: u128, bs: nat, m: nat)
    requires
        m <= counts.len(),
        forall|k: int| 0 <= k < counts.len() ==> counts[k] == bin_count(s, p05, bs, k as nat),
    ensures
        total(counts.take(m as int)) == bins_total(s, p05, bs, m),
    decreases m,
{
    if m > 0 {
        lemma_counts_total(counts, s, p05, bs, (m - 1) as nat);
        assert(counts.take(m as int).drop_last() =~= counts.take(m - 1));
    }
}

/// The histogram never holds more samples than the run produced, and it
/// holds all of them only when every sample lies between the 5th percentile
/// and the upper edge of the last bin.
pub proof fn lemma_histogram_bounded(stats: &Stats, total_time: u128, samples: Seq<u128>, requests: usize)
    requires
        stats.describes(total_time, samples, requests),
    ensures
        total(stats.bins@) <= samples.len(),
        total(stats.bins@) == samples.len() ==> forall|i: int| 0 <= i < stats.timers@.len() ==>
            stats.p05 <= #[trigger] stats.timers@[i] <= stats.p05 + N_BINS * stats.bin_size,
{
    lemma_counts_total(stats.bins@, stats.timers@, stats.p05, stats.bin_size as nat, N_BINS as nat);
    assert(stats.bins@.take(N_BINS as int) =~= stats.bins@);
    lemma_bins_total_bound(stats.timers@, stats.p05, stats.bin_size as nat);
}


/// The decimal digit `d` as text.
pub open spec fn digit_text(d: nat) -> Seq<char> {
    if d == 0 { "0"@ }
    else if d == 1 { "1"@ }
    else if d == 2 { "2"@ }
    else if d == 3 { "3"@ }
    else if d == 4 { "4"@ }
    else if d == 5 { "5"@ }
    else if d == 6 { "6"@ }
    else if d == 7 { "7"@ }
    else if d == 8 { "8"@ }
    else { "9"@ }
}

/// `n` written in decimal, without leading zeros.
pub open spec fn decimal_text(n: nat) -> Seq<char>
    decreases n,
{
    if n < 10 {
        digit_text(n)
    } else {
        decimal_text(n / 10) + digit_text(n % 10)
    }
}

fn digit(d: u128) -> (r: &'static str)
    requires
        d < 10,
    ensures
        r@ == digit_text(d as nat),
{
    if d == 0 { "0" }
    else if d == 1 { "1" }
    else if d == 2 { "2" }
    else if d == 3 { "3" }
    else if d == 4 { "4" }
    else if d == 5 { "5" }
    else if d == 6 { "6" }
    else if d == 7 { "7" }
    else if d == 8 { "8" }
    else { "9" }
}

/// `n` written in decimal.
pub fn decimal(n: u128) -> (r: String)
    ensures
        r@ == decimal_text(n as nat),
    decreases n,
{
    if n < 10 {
        String::from_str(digit(n))
    } else {
        let mut r = decimal(n / 10);
        r.append(digit(n % 10));
        r
    }
}

/// A duration of `t` nanoseconds as text, in the coarsest readable unit:
/// microseconds up to ten milliseconds, milliseconds up to ten seconds,
/// seconds and milliseconds up to a minute, beyond that
/// `minutes:seconds.milliseconds`.
pub open spec fn time_text(t: nat) -> Seq<char> {
    let e = t / 1000;
    if e <= 10_000 {
        decimal_text(e) + " µs"@
    } else if e <= 10_000_000 {
        decimal_text(e / 1000) + " ms"@
    } else if e <= 60_000_000 {
        decimal_text(e / 1_000_000) + "."@ + decimal_text((e % 1_000_000) / 1000) + " s"@
    } else {
        decimal_text(e / 60_000_000) + ":"@ + decimal_text((e % 60_000_000) / 1_000_000) + "."@
            + decimal_text((e % 1_000_000) / 1000) + " "@
    }
}

/// Formats the total time of a run.
pub fn fmt_time(total_time: u128) -> (r: String)
    ensures
        r@ == time_text(total_time as nat),
{
    let elapsed = total_time / 1_000;
    if elapsed <= 10_000 {
        let mut r = decimal(elapsed);
        r.append(" µs");
        r
    } else if elapsed <= 10_000_000 {
        let mut r = decimal(elapsed / 1_000);
        r.append(" ms");
        r
    } else if elapsed <= 60_000_000 {
        let mut r = decimal(elapsed / 1_000_000);
        r.append(".");
        r.append(decimal((elapsed % 1_000_000) / 1000).as_str());
        r.append(" s");
        r
    } else {
        let mut r = decimal(elapsed / 60_000_000);
        r.append(":");
        r.append(decimal((elapsed % 60_000_000) / 1_000_000).as_str());
        r.append(".");
        r.append(decimal((elapsed % 1_000_000) / 1000).as_str());
        r.append(" ");
        r
    }
}

/// Unit in which the report shows latencies.
#[derive(Clone, Copy, Debug, PartialEq, Eq, Structural)]
pub enum TimeUnit {
    Nanos,
    Micros,
    Millis,
    Secs,
}

/// The unit chosen for a run whose 95th percentile is `p95` nanoseconds.
pub open spec fn unit_for(p95: u128) -> TimeUnit {
    if p95 <= 10_000 {
        TimeUnit::Nanos
    } else if p95 <= 10_000_000 {
        TimeUnit::Micros
    } else if p95 <= 10_000_000_000 {
        TimeUnit::Millis
    } else {
        TimeUnit::Secs
    }
}

impl TimeUnit {
    pub open spec fn spec_factor(self) -> u128 {
        match self {
            TimeUnit::Nanos => 1,
            TimeUnit::Micros => 1_000,
            TimeUnit::Millis => 1_000_000,
            TimeUnit::Secs => 1_000_000_000,
        }
    }

    pub fn for_p95(p95: u128) -> (r: TimeUnit)
        ensures
            r == unit_for(p95),
    {
        if p95 <= 10_000 {
            TimeUnit::Nanos
        } else if p95 <= 10_000_000 {
            TimeUnit::Micros
        } else if p95 <= 10_000_000_000 {
            TimeUnit::Millis
        } else {
            TimeUnit::Secs
        }
    }

    /// Nanoseconds in one of this unit.
    pub fn factor(&self) -> (r: u128)
        ensures
            r == self.spec_factor(),
            r > 0,
    {
        match self {
            TimeUnit::Nanos => 1,
            TimeUnit::Micros => 1_000,
            TimeUnit::Millis => 1_000_000,
            TimeUnit::Secs => 1_000_000_000,
        }
    }

    /// The unit's symbol.
    pub fn label(&self) -> (r: &'static str)
        ensures
            r@ == match *self {
                TimeUnit::Nanos => "ns"@,
                TimeUnit::Micros => "µs"@,
                TimeUnit::Millis => "ms"@,
                TimeUnit::Secs => "s"@,
            },
    {
        match self {
            TimeUnit::Nanos => "ns",
            TimeUnit::Micros => "µs",
            TimeUnit::Millis => "ms",
            TimeUnit::Secs => "s",
        }
    }
}


/// Length of the bar drawn for a bin that holds `count` of `n` samples: the
/// whole run is two hundred bar characters.
pub open spec fn bar_width(count: nat, n: nat) -> nat {
    count * 200 / n
}

impl Stats {
    /// The unit in which this run's latencies are reported.
    pub fn unit(&self) -> (r: TimeUnit)
        ensures
            r == unit_for(self.p95),
    {
        TimeUnit::for_p95(self.p95)
    }

    /// The bounds shown for bin `i`, in `unit`: the first bin starts at its
    /// lower edge, the others one unit above it, and each ends at its upper
    /// edge. The edges must fit in a `u128`, which holds when the 95th
    /// percentile leaves room for ten nanoseconds more.
    pub fn bin_bounds(&self, i: usize, unit: TimeUnit) -> (r: (u128, u128))
        requires
            self.describes(self.total_time, self.timers@, self.requests),
            self.p95 <= u128::MAX - 10,
            i < N_BINS,
        ensures
            r.0 == if i == 0 {
                self.p05 as int / unit.spec_factor() as int
            } else {
                (self.p05 + i * self.bin_size) / unit.spec_factor() as int + 1
            },
            r.1 == (self.p05 + (i + 1) * self.bin_size) / unit.spec_factor() as int,
    {
        let f = unit.factor();
        let lo = self.bin_lower_range[i];
        proof {
            let bs = self.bin_size as int;
            let p05 = self.p05 as int;
            let p95 = self.p95 as int;
            let n = self.timers@.len();
            lemma_rank_monotone(n, 5, 95);
            assert(p05 <= p95);
            assert(10 * bs <= p95 - p05 + 9);
            assert((i + 1) * bs <= 10 * bs) by (nonlinear_arith) requires i < 10, bs >= 0;
            assert(i * bs <= 10 * bs) by (nonlinear_arith) requires i < 10, bs >= 0;
            assert(lo == self.p05 + i * self.bin_size);
            assert(lo / f <= lo) by (nonlinear_arith) requires f > 0;
            assert(self.p05 + (i + 1) * self.bin_size == self.p05 + i * self.bin_size + self.bin_size) by (nonlinear_arith);
        }
        let hi = if i == N_BINS - 1 {
            (lo + self.bin_size) / f
        } else {
            self.bin_lower_range[i + 1] / f
        };
        let start = if i == 0 { lo / f } else { lo / f + 1 };
        (start, hi)
    }

    /// Number of bar characters drawn for bin `i`.
    pub fn bar_len(&self, i: usize) -> (r: usize)
        requires
            self.describes(self.total_time, self.timers@, self.requests),
            i < N_BINS,
        ensures
            r == bar_width(self.bins@[i as int] as nat, self.timers@.len()),
    {
        let n = self.timers.len();
        let c = self.bins[i];
        proof {
            lemma_counts_total(self.bins@, self.timers@, self.p05, self.bin_size as nat, N_BINS as nat);
            assert(self.bins@.take(N_BINS as int) =~= self.bins@);
            lemma_bins_total_bound(self.timers@, self.p05, self.bin_size as nat);
            lemma_count_le_total(self.bins@, i as int);
        }
        assert(c as u128 * 200 <= n as u128 * 200) by (nonlinear_arith) requires c <= n;
        let w = (c as u128 * 200) / n as u128;
        assert(w <= 200) by (nonlinear_arith) requires w == (c * 200) as int / n as int, c <= n, n > 0;
        w as usize
    }
}

proof fn lemma_count_le_total(counts: Seq<usize>, i: int)
    requires
        0 <= i < counts.len(),
    ensures
        counts[i] <= total(counts),
    decreases counts.len(),
{
    if i < counts.len() - 1 {
        lemma_count_le_total(counts.drop_last(), i);
    }
}


/// The percentiles, extremes and histogram depend on the samples alone, not
/// on the order in which they came: two runs with the same samples agree on
/// all of them.
pub proof fn lemma_percentiles_determined(
    a: &Stats,
    b: &Stats,
    samples_a: Seq<u128>,
    samples_b: Seq<u128>,
    total_time: u128,
    requests: usize,
)
    requires
        a.describes(total_time, samples_a, requests),
        b.describes(total_time, samples_b, requests),
        samples_a.to_multiset() == samples_b.to_multiset(),
    ensures
        a.timers@ == b.timers@,
        a.p05 == b.p05,
        a.p95 == b.p95,
        a.p99 == b.p99,
        a.min == b.min,
        a.max == b.max,
        a.bins@ == b.bins@,
{
    let leq = |x: u128, y: u128| x <= y;
    assert(vstd::relations::total_ordering(leq));
    assert(vstd::relations::sorted_by(a.timers@, leq));
    assert(vstd::relations::sorted_by(b.timers@, leq));
    vstd::seq_lib::lemma_sorted_unique(a.timers@, b.timers@, leq);
    assert(a.bins@ =~= b.bins@);
}

} // verus!
