use vstd::prelude::*;

use crate::cli::{HttpHeaders, HttpMethod};
use crate::reqs::{DispatchError, Worker, quota_of};
use crate::stats::{chunk_of, chunk_reqs, lemma_partition_correct, total};

pub mod cli;
pub mod reqs;
pub mod stats;

verus! {

/// Credentials sent with every request.
#[derive(Clone, Debug)]
pub struct BasicAuth {
    pub username: String,
    pub password: Option<String>,
}

impl BasicAuth {
    pub fn new(username: String, password: Option<String>) -> (r: Self)
        ensures
            r.username == username,
            r.password == password,
    {
        Self { username, password }
    }
}

/// Why a run cannot start.
#[derive(Clone, Copy, Debug, PartialEq, Eq, Structural)]
pub enum ConfigError {
    /// The run was given no workers.
    NoWorkers,
}

/// A run: `requests` requests shared among `threads` workers, optionally
/// held to `req_rate` requests per second in all.
pub struct ReqRunner {
    pub threads: usize,
    pub requests: usize,
    pub method: HttpMethod,
    pub headers: Option<HttpHeaders>,
    pub req_rate: Option<u16>,
    pub auth: Option<BasicAuth>,
}

impl ReqRunner {
    pub fn new(
        threads: usize,
        requests: usize,
        method: HttpMethod,
        headers: Option<HttpHeaders>,
        auth: Option<BasicAuth>,
    ) -> (r: Self)
        ensures
            r.threads == threads,
            r.requests == requests,
            r.method == method,
            r.headers == headers,
            r.req_rate is None,
            r.auth == auth,
    {
        Self { threads, requests, method, headers, req_rate: None, auth }
    }

    pub fn with_req_rate(&mut self, req_rate: Option<u16>)
        ensures
            final(self).req_rate == req_rate,
            final(self).threads == old(self).threads,
            final(self).requests == old(self).requests,
            final(self).method == old(self).method,
            final(self).headers == old(self).headers,
            final(self).auth == old(self).auth,
    {
        self.req_rate = req_rate;
    }

    /// One worker for each share of the requests, in worker order; a run
    /// without workers is refused.
    pub fn workers(&self) -> (r: Result<Vec<Worker>, ConfigError>)
        ensures
            self.threads == 0 <==> r is Err,
            r is Ok ==> {
                let ws = r->Ok_0@;
                &&& ws.len() == self.threads
                &&& forall|i: int| 0 <= i < ws.len() ==> {
                    let w = #[trigger] ws[i];
                    &&& w.wf()
                    &&& w.requests == chunk_of(self.requests as nat, self.threads as nat, i as nat)
                    &&& w.samples@.len() == 0
                    &&& !w.warmed_up
                    &&& w.failure is None
                    &&& match self.req_rate {
                        None => w.limiter is None,
                        Some(rate) => w.limiter is Some && w.limiter->0.quota == quota_of(rate, self.threads)
                            && w.limiter->0.remaining == w.requests,
                    }
                }
            },
    {
        if self.threads == 0 {
            return Err(ConfigError::NoWorkers);
        }
        let mut workers: Vec<Worker> = Vec::with_capacity(self.threads);
        let mut i: usize = 0;
        while i < self.threads
            invariant
                self.threads > 0,
                i <= self.threads,
                workers@.len() == i,
                forall|j: int| 0 <= j < i ==> {
                    let w = #[trigger] workers@[j];
                    &&& w.wf()
                    &&& w.requests == chunk_of(self.requests as nat, self.threads as nat, j as nat)
                    &&& w.samples@.len() == 0
                    &&& !w.warmed_up
                    &&& w.failure is None
                    &&& match self.req_rate {
                        None => w.limiter is None,
                        Some(rate) => w.limiter is Some && w.limiter->0.quota == quota_of(rate, self.threads)
                            && w.limiter->0.remaining == w.requests,
                    }
                },
            decreases self.threads - i,
        {
            let share = chunk_reqs(self.requests, self.threads, i);
            workers.push(Worker::new(share, self.req_rate, self.threads));
            i += 1;
        }
        Ok(workers)
    }
}


/// What a worker that finished hands back: its wall time, warm-up included,
/// and its samples in the order they were taken.
#[derive(Clone, Debug)]
pub struct WorkerReport {
    pub elapsed: u128,
    pub samples: Vec<u128>,
}

/// The combined result of all workers.
#[derive(Clone, Debug)]
pub struct AggregateRun {
    /// The slowest worker's wall time: the workers run side by side.
    pub total_time: u128,
    /// All samples, worker after worker.
    pub samples: Vec<u128>,
    pub requests: usize,
}

/// A run that failed: the first failed worker and its failure.
#[derive(Clone, Debug)]
pub struct RunError {
    pub worker: usize,
    pub error: DispatchError,
}

/// The slowest elapsed time among the reports of `rs`, all of them `Ok`.
pub open spec fn max_elapsed(rs: Seq<Result<WorkerReport, DispatchError>>) -> u128
    decreases rs.len(),
{
    if rs.len() == 0 {
        0
    } else {
        let m = max_elapsed(rs.drop_last());
        let e = rs.last()->Ok_0.elapsed;
        if m < e { e } else { m }
    }
}

/// The samples of the reports of `rs`, all of them `Ok`, one after another.
pub open spec fn all_samples(rs: Seq<Result<WorkerReport, DispatchError>>) -> Seq<u128>
    decreases rs.len(),
{
    if rs.len() == 0 {
        Seq::empty()
    } else {
        all_samples(rs.drop_last()) + rs.last()->Ok_0.samples@
    }
}

/// Joins the results of the workers of a run of `requests` requests. One
/// failed worker fails the whole run: the error names the first one.
pub fn aggregate(results: Vec<Result<WorkerReport, DispatchError>>, requests: usize) -> (r: Result<AggregateRun, RunError>)
    ensures
        r is Err <==> exists|i: int| 0 <= i < results@.len() && results@[i] is Err,
        r is Err ==> {
            let e = r->Err_0;
            &&& e.worker < results@.len()
            &&& results@[e.worker as int] == Err::<WorkerReport, DispatchError>(e.error)
            &&& forall|j: int| 0 <= j < e.worker ==> results@[j] is Ok
        },
        r is Ok ==> {
            let a = r->Ok_0;
            &&& a.total_time == max_elapsed(results@)
            &&& a.samples@ == all_samples(results@)
            &&& a.requests == requests
        },
{
    let n = results.len();
    let mut i: usize = 0;
    while i < n
        invariant
            n == results@.len(),
            i <= n,
            forall|j: int| 0 <= j < i ==> results@[j] is Ok,
        decreases n - i,
    {
        if results[i].is_err() {
            let mut results = results;
            let failed = results.remove(i);
            match failed {
                Err(error) => {
                    return Err(RunError { worker: i, error });
                },
                Ok(_) => {
                    return vstd::pervasive::unreached();
                },
            }
        }
        i += 1;
    }
    let mut total_time: u128 = 0;
    let mut samples: Vec<u128> = Vec::new();
    let mut i: usize = 0;
    while i < n
        invariant
            n == results@.len(),
            i <= n,
            forall|j: int| 0 <= j < n ==> results@[j] is Ok,
            total_time == max_elapsed(results@.take(i as int)),
            samples@ == all_samples(results@.take(i as int)),
        decreases n - i,
    {
        assert(results@.take(i + 1).drop_last() =~= results@.take(i as int));
        match &results[i] {
            Ok(report) => {
                if total_time < report.elapsed {
                    total_time = report.elapsed;
                }
                let mut k: usize = 0;
                let ghost start = samples@;
                while k < report.samples.len()
                    invariant
                        k <= report.samples@.len(),
                        samples@ == start + report.samples@.take(k as int),
                    decreases report.samples@.len() - k,
                {
                    samples.push(report.samples[k]);
                    assert(report.samples@.take(k + 1) =~= report.samples@.take(k as int).push(report.samples@[k as int]));
                    k += 1;
                }
                assert(report.samples@.take(k as int) =~= report.samples@);
            },
            Err(_) => {},
        }
        i += 1;
    }
    assert(results@.take(n as int) =~= results@);
    Ok(AggregateRun { total_time, samples, requests })
}


proof fn lemma_all_samples_len(rs: Seq<Result<WorkerReport, DispatchError>>, shares: Seq<usize>)
    requires
        rs.len() == shares.len(),
        forall|i: int| 0 <= i < rs.len() ==> #[trigger] rs[i] is Ok && rs[i]->Ok_0.samples@.len() == shares[i] as nat,
    ensures
        all_samples(rs).len() == total(shares),
    decreases rs.len(),
{
    if rs.len() > 0 {
        assert forall|i: int| 0 <= i < rs.drop_last().len() implies #[trigger] rs.drop_last()[i] is Ok
            && rs.drop_last()[i]->Ok_0.samples@.len() == shares.drop_last()[i] as nat by {
            assert(rs.drop_last()[i] == rs[i]);
            assert(shares.drop_last()[i] == shares[i]);
        }
        lemma_all_samples_len(rs.drop_last(), shares.drop_last());
    }
}

/// When every worker of a run of `requests` requests over `threads` workers
/// returns one sample for each request of its share, the joined run holds
/// exactly `requests` samples.
pub proof fn lemma_run_sample_count(rs: Seq<Result<WorkerReport, DispatchError>>, requests: usize, threads: usize)
    requires
        threads > 0,
        rs.len() == threads,
        forall|i: int| 0 <= i < threads ==> #[trigger] rs[i] is Ok
            && rs[i]->Ok_0.samples@.len() == chunk_of(requests as nat, threads as nat, i as nat),
    ensures
        all_samples(rs).len() == requests,
{
    let shares = Seq::new(threads as nat, |i: int| chunk_of(requests as nat, threads as nat, i as nat) as usize);
    assert forall|i: int| 0 <= i < threads implies shares[i] == chunk_of(requests as nat, threads as nat, i as nat) by {
        let n = requests as nat;
        let t = threads as nat;
        assert(n / t <= n) by (nonlinear_arith) requires t > 0;
        assert(n % t > 0 ==> n / t + 1 <= n) by (nonlinear_arith) requires t > 0;
    }
    lemma_partition_correct(requests, threads, shares);
    lemma_all_samples_len(rs, shares);
}

} // verus!
