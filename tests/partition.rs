use arestat::stats::{chunk_reqs, partition};

#[test]
fn partition_ten_over_three() {
    assert_eq!(partition(10, 3), vec![4, 3, 3]);
}

#[test]
fn partition_single_worker() {
    assert_eq!(partition(50, 1), vec![50]);
}

#[test]
fn partition_no_requests() {
    assert_eq!(partition(0, 4), vec![0, 0, 0, 0]);
}

#[test]
fn partition_sums_and_balances() {
    for total in 0..60usize {
        for workers in 1..9usize {
            let shares = partition(total, workers);
            assert_eq!(shares.len(), workers);
            assert_eq!(shares.iter().sum::<usize>(), total);
            let max = *shares.iter().max().unwrap();
            let min = *shares.iter().min().unwrap();
            assert!(max - min <= 1);
            for (i, s) in shares.iter().enumerate() {
                if i < total % workers {
                    assert_eq!(*s, (total + workers - 1) / workers);
                } else {
                    assert_eq!(*s, total / workers);
                }
            }
        }
    }
}

#[test]
fn chunk_reqs_gives_remainder_to_first_workers() {
    assert_eq!(chunk_reqs(7, 3, 0), 3);
    assert_eq!(chunk_reqs(7, 3, 1), 2);
    assert_eq!(chunk_reqs(7, 3, 2), 2);
    assert_eq!(chunk_reqs(6, 3, 0), 2);
}
