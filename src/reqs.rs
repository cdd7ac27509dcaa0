use vstd::prelude::*;

verus! {

/// Requests that one worker may issue per one-second tick when the whole run
/// aims at `req_rate` requests per second: an even share of the rate, and at
/// least one.
pub open spec fn quota_of(req_rate: u16, threads: usize) -> usize
    recommends
        threads > 0,
{
    if req_rate as usize / threads == 0 {
        1
    } else {
        req_rate as usize / threads
    }
}

/// A worker's once-per-second throttle: each tick releases up to `quota`
/// permits, never more than the requests still owed.
pub struct RateLimiter {
    pub quota: usize,
    pub remaining: usize,
}

impl RateLimiter {
    pub open spec fn wf(&self) -> bool {
        self.quota > 0
    }

    pub fn new(req_rate: u16, threads: usize, requests: usize) -> (r: RateLimiter)
        requires
            threads > 0,
        ensures
            r.wf(),
            r.quota == quota_of(req_rate, threads),
            r.remaining == requests,
    {
        let share = req_rate as usize / threads;
        let quota = if share == 0 {
            1
        } else {
            share
        };
        RateLimiter { quota, remaining: requests }
    }

    /// Releases the permits of one tick.
    pub fn tick(&mut self) -> (permits: usize)
        requires
            old(self).wf(),
        ensures
            final(self).wf(),
            final(self).quota == old(self).quota,
            permits == if old(self).remaining < old(self).quota {
                old(self).remaining
            } else {
                old(self).quota
            },
            final(self).remaining == old(self).remaining - permits,
    {
        let permits = if self.remaining < self.quota {
            self.remaining
        } else {
            self.quota
        };
        self.remaining = self.remaining - permits;
        permits
    }

    /// Whether every request owed has been released.
    pub fn is_done(&self) -> (r: bool)
        ensures
            r == (self.remaining == 0),
    {
        self.remaining == 0
    }
}

/// Number of ticks a throttled worker needs for `requests` requests.
pub open spec fn ticks_for(requests: nat, quota: nat) -> nat
    recommends
        quota > 0,
{
    ((requests + quota - 1) as int / quota as int) as nat
}

/// The batch sizes that the ticks of a throttled worker release, in order.
pub fn tick_plan(req_rate: u16, threads: usize, requests: usize) -> (batches: Vec<usize>)
    requires
        threads > 0,
    ensures
        batches@.len() == ticks_for(requests as nat, quota_of(req_rate, threads) as nat),
        forall|k: int| 0 <= k < batches@.len() - 1 ==> batches@[k] == quota_of(req_rate, threads),
        batches@.len() > 0 ==> batches@.last() == requests - (batches@.len() - 1) * quota_of(req_rate, threads),
        batches@.len() > 0 ==> 0 < batches@.last() <= quota_of(req_rate, threads),
{
    let mut limiter = RateLimiter::new(req_rate, threads, requests);
    let ghost q = limiter.quota as int;
    let mut batches: Vec<usize> = Vec::new();
    assert(batches@.len() * q == 0) by (nonlinear_arith) requires batches@.len() == 0;
    while !limiter.is_done()
        invariant
            limiter.wf(),
            limiter.quota == q,
            q == quota_of(req_rate, threads),
            limiter.remaining + batches@.len() * q == requests,
            forall|k: int| 0 <= k < batches@.len() ==> batches@[k] == q,
        decreases limiter.remaining,
    {
        let permits = limiter.tick();
        batches.push(permits);
        if permits < limiter.quota {
            assert(limiter.remaining == 0);
            proof {
                let n = batches@.len() - 1;
                assert(requests == n * q + permits);
                assert(((requests + q - 1) as int / q) == n + 1) by (nonlinear_arith)
                    requires requests == n * q + permits, 0 < permits < q, n >= 0;
            }
            return batches;
        }
        assert(batches@.len() * q == (batches@.len() - 1) * q + q) by (nonlinear_arith);
    }
    proof {
        let n = batches@.len();
        assert(requests == n * q);
        assert(((requests + q - 1) as int / q) == n) by (nonlinear_arith)
            requires requests == n * q, q > 0, n >= 0;
        if n > 0 {
            assert(batches@.last() == q);
            assert(requests - (n - 1) * q == q) by (nonlinear_arith) requires requests == n * q;
        }
    }
    batches
}


/// A failed send, and whether it was the untimed warm-up send.
#[derive(Clone, Debug)]
pub struct DispatchError {
    pub warm_up: bool,
    pub message: String,
}

/// What a worker asks its driver to do next.
#[derive(Clone, Copy, Debug, PartialEq, Eq, Structural)]
pub enum Action {
    /// Send the request once; `timed` is false for the warm-up send.
    Send { timed: bool },
    /// Wait for the next one-second tick, then report it with `on_tick`.
    WaitTick,
    /// Stop and collect the result with `finish`.
    Finish,
}

/// The decisions of one worker: one untimed warm-up send, then `requests`
/// timed sends, throttled by a `RateLimiter` when a rate is set. The first
/// failed send ends the worker.
pub struct Worker {
    pub requests: usize,
    pub limiter: Option<RateLimiter>,
    /// Permits released by the last tick and not used yet.
    pub permits: usize,
    pub warmed_up: bool,
    pub samples: Vec<u128>,
    pub failure: Option<DispatchError>,
}

impl Worker {
    pub open spec fn wf(&self) -> bool {
        &&& self.samples@.len() <= self.requests
        &&& !self.warmed_up ==> self.samples@.len() == 0
        &&& match self.limiter {
            None => self.permits == 0,
            Some(l) => l.wf() && self.samples@.len() + self.permits + l.remaining == self.requests,
        }
    }

    /// Sends still to make when every send succeeds: the warm-up, if not
    /// made yet, and one for each request still owed.
    pub open spec fn sends_left(&self) -> nat {
        (if self.warmed_up { 0nat } else { 1nat }) + (self.requests - self.samples@.len()) as nat
    }

    /// Ticks still to wait for: none without a rate limit, else one for each
    /// quota, or part of one, not released yet.
    pub open spec fn ticks_left(&self) -> nat {
        match self.limiter {
            None => 0,
            Some(l) => ticks_for(l.remaining as nat, l.quota as nat),
        }
    }

    pub open spec fn spec_next_action(&self) -> Action {
        if self.failure is Some {
            Action::Finish
        } else if !self.warmed_up {
            Action::Send { timed: false }
        } else if self.samples@.len() >= self.requests {
            Action::Finish
        } else if self.limiter is None || self.permits > 0 {
            Action::Send { timed: true }
        } else {
            Action::WaitTick
        }
    }

    /// A worker owed `requests` timed sends; with `req_rate`, the run's
    /// target rate is shared among `threads` workers.
    pub fn new(requests: usize, req_rate: Option<u16>, threads: usize) -> (r: Worker)
        requires
            threads > 0,
        ensures
            r.wf(),
            r.requests == requests,
            r.samples@.len() == 0,
            !r.warmed_up,
            r.failure is None,
            r.permits == 0,
            r.sends_left() == requests + 1,
            r.ticks_left() == match req_rate {
                None => 0,
                Some(rate) => ticks_for(requests as nat, quota_of(rate, threads) as nat),
            },
            match req_rate {
                None => r.limiter is None,
                Some(rate) => r.limiter is Some && r.limiter->0.quota == quota_of(rate, threads)
                    && r.limiter->0.remaining == requests,
            },
    {
        let limiter = match req_rate {
            None => None,
            Some(rate) => Some(RateLimiter::new(rate, threads, requests)),
        };
        Worker { requests, limiter, permits: 0, warmed_up: false, samples: Vec::new(), failure: None }
    }

    /// What the driver should do next.
    pub fn next_action(&self) -> (r: Action)
        ensures
            r == self.spec_next_action(),
            self.wf() && r == Action::WaitTick ==> self.ticks_left() > 0,
            self.wf() && r is Send ==> self.sends_left() > 0,
            self.wf() && r == Action::Finish && self.failure is None ==> self.sends_left() == 0
                && self.ticks_left() == 0,
    {
        proof {
            if self.wf() && self.limiter is Some {
                lemma_ticks_for(self.limiter->0.remaining as nat, self.limiter->0.quota as nat);
            }
        }
        if self.failure.is_some() {
            Action::Finish
        } else if !self.warmed_up {
            Action::Send { timed: false }
        } else if self.samples.len() >= self.requests {
            Action::Finish
        } else if self.limiter.is_none() || self.permits > 0 {
            Action::Send { timed: true }
        } else {
            Action::WaitTick
        }
    }

    /// A tick has come: take its permits.
    pub fn on_tick(&mut self)
        requires
            old(self).wf(),
            old(self).spec_next_action() == Action::WaitTick,
        ensures
            final(self).wf(),
            final(self).samples@ == old(self).samples@,
            final(self).requests == old(self).requests,
            final(self).warmed_up == old(self).warmed_up,
            final(self).failure == old(self).failure,
            final(self).limiter == Some(RateLimiter {
                quota: old(self).limiter->0.quota,
                remaining: (old(self).limiter->0.remaining - final(self).permits) as usize,
            }),
            final(self).permits > 0,
            final(self).sends_left() == old(self).sends_left(),
            final(self).ticks_left() + 1 == old(self).ticks_left(),
            final(self).permits == if old(self).limiter->0.remaining < old(self).limiter->0.quota {
                old(self).limiter->0.remaining
            } else {
                old(self).limiter->0.quota
            },
            final(self).spec_next_action() == (Action::Send { timed: true }),
    {
        let mut limiter = self.limiter.take().unwrap();
        let permits = limiter.tick();
        proof {
            lemma_ticks_for(old(self).limiter->0.remaining as nat, limiter.quota as nat);
            lemma_ticks_for(limiter.remaining as nat, limiter.quota as nat);
            lemma_ticks_step(old(self).limiter->0.remaining as nat, limiter.quota as nat, permits as nat);
        }
        self.limiter = Some(limiter);
        self.permits = permits;
    }

    /// The send asked for has finished: `Ok` with its latency in
    /// nanoseconds, or `Err` with what went wrong. The warm-up send adds no
    /// sample; a timed one adds its latency; a failure ends the worker.
    pub fn on_sent(&mut self, outcome: Result<u128, String>)
        requires
            old(self).wf(),
            old(self).spec_next_action() is Send,
        ensures
            final(self).wf(),
            final(self).requests == old(self).requests,
            final(self).limiter == old(self).limiter,
            final(self).ticks_left() == old(self).ticks_left(),
            outcome is Ok ==> final(self).sends_left() + 1 == old(self).sends_left(),
            match outcome {
                Err(message) => {
                    &&& final(self).failure == Some(DispatchError { warm_up: !old(self).warmed_up, message })
                    &&& final(self).samples@ == old(self).samples@
                    &&& final(self).warmed_up == old(self).warmed_up
                    &&& final(self).permits == old(self).permits
                },
                Ok(latency) => {
                    &&& final(self).failure is None
                    &&& final(self).warmed_up
                    &&& if old(self).warmed_up {
                        &&& final(self).samples@ == old(self).samples@.push(latency)
                        &&& final(self).permits == if old(self).limiter is Some {
                            (old(self).permits - 1) as usize
                        } else {
                            old(self).permits
                        }
                    } else {
                        &&& final(self).samples@ == old(self).samples@
                        &&& final(self).permits == old(self).permits
                    }
                },
            },
    {
        match outcome {
            Err(message) => {
                self.failure = Some(DispatchError { warm_up: !self.warmed_up, message });
            },
            Ok(latency) => {
                if !self.warmed_up {
                    self.warmed_up = true;
                } else {
                    self.samples.push(latency);
                    if self.limiter.is_some() {
                        self.permits = self.permits - 1;
                    }
                }
            },
        }
    }

    /// The worker's result: its samples in the order they were taken, one
    /// for each request it was owed, or the failure that ended it.
    pub fn finish(self) -> (r: Result<Vec<u128>, DispatchError>)
        requires
            self.wf(),
            self.spec_next_action() == Action::Finish,
        ensures
            match r {
                Ok(samples) => self.failure is None && samples@ == self.samples@
                    && samples@.len() == self.requests,
                Err(e) => self.failure == Some(e),
            },
    {
        match self.failure {
            Some(e) => Err(e),
            None => Ok(self.samples),
        }
    }
}

proof fn lemma_ticks_for(remaining: nat, quota: nat)
    requires
        quota > 0,
    ensures
        remaining == 0 <==> ticks_for(remaining, quota) == 0,
{
    if remaining > 0 {
        assert((remaining + quota - 1) as int / quota as int >= 1) by (nonlinear_arith)
            requires remaining >= 1, quota > 0;
    } else {
        assert((quota - 1) as int / quota as int == 0) by (nonlinear_arith) requires quota > 0;
    }
}

proof fn lemma_ticks_step(remaining: nat, quota: nat, permits: nat)
    requires
        quota > 0,
        remaining > 0,
        permits == if remaining < quota { remaining } else { quota },
    ensures
        ticks_for((remaining - permits) as nat, quota) + 1 == ticks_for(remaining, quota),
{
    let rest = (remaining - permits) as nat;
    if remaining < quota {
        assert((remaining + quota - 1) as int / quota as int == 1) by (nonlinear_arith)
            requires 0 < remaining < quota;
        lemma_ticks_for(0, quota);
    } else {
        assert((remaining + quota - 1) as int / quota as int == (rest + quota - 1) as int / quota as int + 1)
            by (nonlinear_arith) requires rest + quota == remaining, quota > 0;
    }
}

} // verus!
