use arestat::cli::{HttpArg, HttpArgBody, HttpHeaders, HttpMethod, HeaderError};
use arestat::reqs::{tick_plan, Action, DispatchError, RateLimiter, Worker};
use arestat::stats::{Stats, TimeUnit};
use arestat::{aggregate, BasicAuth, ConfigError, ReqRunner, WorkerReport};

fn get() -> HttpMethod {
    HttpMethod::Get(HttpArg { url: "http://localhost/".to_string() })
}

/// Drives a worker to its end, answering each send with `outcome(k)` for
/// the k-th send (the warm-up is send 0); returns the result, the number of
/// sends, and the number of timed sends after each tick.
fn drive_counting(
    mut w: Worker,
    outcome: impl Fn(usize) -> Result<u128, String>,
) -> (Result<Vec<u128>, DispatchError>, usize, Vec<usize>) {
    let mut sends = 0;
    let mut batches: Vec<usize> = Vec::new();
    loop {
        match w.next_action() {
            Action::Send { timed } => {
                w.on_sent(outcome(sends));
                sends += 1;
                if timed {
                    if let Some(last) = batches.last_mut() {
                        *last += 1;
                    }
                }
            }
            Action::WaitTick => {
                w.on_tick();
                batches.push(0);
            }
            Action::Finish => return (w.finish(), sends, batches),
        }
    }
}

/// As `drive_counting`, returning the result and the number of ticks.
fn drive(w: Worker, outcome: impl Fn(usize) -> Result<u128, String>) -> (Result<Vec<u128>, DispatchError>, usize) {
    let (r, _, batches) = drive_counting(w, outcome);
    (r, batches.len())
}

#[test]
fn rate_limiter_quota_and_ticks() {
    assert_eq!(tick_plan(100, 2, 75), vec![50, 25]);
    let mut l = RateLimiter::new(100, 2, 75);
    assert_eq!(l.quota, 50);
    assert_eq!(l.tick(), 50);
    assert!(!l.is_done());
    assert_eq!(l.tick(), 25);
    assert!(l.is_done());
}

#[test]
fn rate_limiter_with_more_workers_than_rate() {
    assert_eq!(RateLimiter::new(3, 4, 3).quota, 1);
    assert_eq!(tick_plan(3, 4, 3), vec![1, 1, 1]);
    assert_eq!(tick_plan(100, 2, 0), Vec::<usize>::new());
    assert_eq!(tick_plan(10, 1, 20), vec![10, 10]);
}

#[test]
fn throttled_worker_sends_in_batches_of_its_quota() {
    let (r, sends, batches) = drive_counting(Worker::new(75, Some(100), 2), |_| Ok(1));
    assert_eq!(r.unwrap().len(), 75);
    assert_eq!(sends, 76);
    assert_eq!(batches, vec![50, 25]);
    let (r, sends, batches) = drive_counting(Worker::new(3, Some(3), 4), |_| Ok(1));
    assert_eq!(r.unwrap().len(), 3);
    assert_eq!(sends, 4);
    assert_eq!(batches, vec![1, 1, 1]);
}

#[test]
fn unthrottled_worker_makes_one_send_more_than_its_share() {
    let (r, sends, batches) = drive_counting(Worker::new(25, None, 4), |_| Ok(1));
    assert_eq!(r.unwrap().len(), 25);
    assert_eq!(sends, 26);
    assert!(batches.is_empty());
}

#[test]
fn throttled_worker_takes_two_ticks() {
    let w = Worker::new(75, Some(100), 2);
    let (r, ticks) = drive(w, |_| Ok(1));
    assert_eq!(r.unwrap().len(), 75);
    assert_eq!(ticks, 2);
}

#[test]
fn warm_up_is_not_a_sample() {
    let (r, ticks) = drive(Worker::new(5, None, 1), |k| Ok(k as u128 * 10));
    assert_eq!(r.unwrap(), vec![10, 20, 30, 40, 50]);
    assert_eq!(ticks, 0);
    let (r, _) = drive(Worker::new(5, Some(2), 1), |k| Ok(k as u128));
    assert_eq!(r.unwrap(), vec![1, 2, 3, 4, 5]);
}

#[test]
fn worker_with_no_requests_sends_only_the_warm_up() {
    let mut w = Worker::new(0, None, 3);
    assert_eq!(w.next_action(), Action::Send { timed: false });
    w.on_sent(Ok(7));
    assert_eq!(w.next_action(), Action::Finish);
    assert_eq!(w.finish().unwrap(), Vec::<u128>::new());
}

#[test]
fn failed_warm_up_ends_the_worker() {
    let (r, _) = drive(Worker::new(5, None, 1), |_| Err("refused".to_string()));
    let e = r.unwrap_err();
    assert!(e.warm_up);
    assert_eq!(e.message, "refused");
}

#[test]
fn failed_timed_send_ends_the_worker() {
    let (r, _) = drive(Worker::new(5, Some(10), 1), |k| if k == 3 { Err("reset".to_string()) } else { Ok(1) });
    let e = r.unwrap_err();
    assert!(!e.warm_up);
    assert_eq!(e.message, "reset");
}

#[test]
fn runner_refuses_zero_workers() {
    let runner = ReqRunner::new(0, 10, get(), None, None);
    assert_eq!(runner.workers().err(), Some(ConfigError::NoWorkers));
}

#[test]
fn runner_shares_requests_and_rate() {
    let mut runner = ReqRunner::new(3, 10, get(), None, Some(BasicAuth::new("u".to_string(), None)));
    runner.with_req_rate(Some(9));
    assert_eq!(runner.req_rate, Some(9));
    let workers = runner.workers().unwrap();
    let shares: Vec<usize> = workers.iter().map(|w| w.requests).collect();
    assert_eq!(shares, vec![4, 3, 3]);
    assert_eq!(workers[0].limiter.as_ref().unwrap().quota, 3);
}

#[test]
fn end_to_end_four_workers() {
    let runner = ReqRunner::new(4, 100, get(), None, None);
    let mut results = Vec::new();
    for w in runner.workers().unwrap() {
        let (r, _) = drive(w, |_| Ok(1_000_000));
        let samples = r.unwrap();
        assert_eq!(samples.len(), 25);
        // warm-up plus 25 timed sends of 1 ms
        results.push(Ok(WorkerReport { elapsed: 26_000_000, samples }));
    }
    let run = aggregate(results, 100).unwrap();
    assert_eq!(run.samples.len(), 100);
    assert!(run.samples.iter().all(|s| *s == 1_000_000));
    assert_eq!(run.total_time, 26_000_000);
    let stats = Stats::new(run.total_time, run.samples, run.requests);
    assert_eq!(stats.unit(), TimeUnit::Micros);
    assert_eq!(stats.p95 / stats.unit().factor(), 1_000);
    assert_eq!(stats.avg_time_per_request, 260_000);
}

#[test]
fn total_time_is_the_slowest_worker() {
    let results = vec![
        Ok(WorkerReport { elapsed: 5, samples: vec![1, 2] }),
        Ok(WorkerReport { elapsed: 9, samples: vec![3] }),
        Ok(WorkerReport { elapsed: 7, samples: vec![] }),
    ];
    let run = aggregate(results, 3).unwrap();
    assert_eq!(run.total_time, 9);
    assert_eq!(run.samples, vec![1, 2, 3]);
    assert_eq!(run.requests, 3);
}

#[test]
fn one_failed_worker_fails_the_run() {
    let results = vec![
        Ok(WorkerReport { elapsed: 5, samples: vec![1] }),
        Err(DispatchError { warm_up: false, message: "dns".to_string() }),
        Err(DispatchError { warm_up: true, message: "tls".to_string() }),
    ];
    let e = aggregate(results, 3).unwrap_err();
    assert_eq!(e.worker, 1);
    assert_eq!(e.error.message, "dns");
}

#[test]
fn failure_in_a_driven_worker_fails_the_run() {
    let runner = ReqRunner::new(4, 100, get(), None, None);
    let mut results = Vec::new();
    for (i, w) in runner.workers().unwrap().into_iter().enumerate() {
        let (r, _) = drive(w, |k| if i == 2 && k == 10 { Err("down".to_string()) } else { Ok(1) });
        results.push(r.map(|samples| WorkerReport { elapsed: 1, samples }));
    }
    let e = aggregate(results, 100).unwrap_err();
    assert_eq!(e.worker, 2);
}

#[test]
fn headers_parse_pairs() {
    let h = HttpHeaders::parse("Content-Type:application/json Accept:*/*").unwrap();
    assert_eq!(
        h.0,
        vec![
            ("Content-Type".to_string(), "application/json".to_string()),
            ("Accept".to_string(), "*/*".to_string())
        ]
    );
}

#[test]
fn headers_trim_and_replace() {
    let h: HttpHeaders = "\tk\t:v1 x:y k:\tv2".parse().unwrap();
    assert_eq!(h.0, vec![("k".to_string(), "v2".to_string()), ("x".to_string(), "y".to_string())]);
}

#[test]
fn headers_refuse_bad_pairs() {
    assert_eq!(HttpHeaders::parse("a:b:c").err(), Some(HeaderError));
    assert_eq!(HttpHeaders::parse("novalue").err(), Some(HeaderError));
    assert_eq!(HttpHeaders::parse("a:b  c:d").err(), Some(HeaderError));
    assert_eq!(HttpHeaders::parse("").err(), Some(HeaderError));
    assert_eq!(HttpHeaders::parse("a: b").err(), Some(HeaderError));
}

#[test]
fn method_url_and_body() {
    let post = HttpMethod::Post(HttpArgBody { url: "http://h/p".to_string(), body: "{}".to_string() });
    assert_eq!(post.url(), "http://h/p");
    assert_eq!(post.body().map(|b| b.as_str()), Some("{}"));
    assert_eq!(get().body(), None);
    let del = HttpMethod::Delete(HttpArg { url: "http://h/d".to_string() });
    assert_eq!(del.url(), "http://h/d");
}

#[test]
fn headers_trim_unicode_white_space() {
    let h = HttpHeaders::parse("\u{3000}k\u{2003}:\u{85}v\u{a0}").unwrap();
    assert_eq!(h.0, vec![("k".to_string(), "v".to_string())]);
    for u in 0..=0x3100u32 {
        let c = match char::from_u32(u) {
            Some(c) if c != ' ' && c != ':' => c,
            _ => continue,
        };
        let h = HttpHeaders::parse(&format!("x{}:b", c)).unwrap();
        let expected = if c.is_whitespace() { "x".to_string() } else { format!("x{}", c) };
        assert_eq!(h.0[0].0, expected);
    }
}
