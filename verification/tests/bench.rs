use rustikv::bench::{
    bench_keys, build_range_queries, build_read_keys, build_zipf_read_keys, compute_stats,
    delete_keys, is_miss, send_result, surviving_keys, worker_share, Rng, SendResult,
};
use rustikv::bffp::{DecodedResponse, ResponseStatus};

fn response(status: ResponseStatus, payload: &[&str]) -> DecodedResponse {
    DecodedResponse {
        payload: payload.iter().map(|s| s.to_string()).collect(),
        status,
    }
}

#[test]
fn answers_are_hits_misses_or_errors() {
    assert_eq!(
        send_result(&response(ResponseStatus::Okay, &["v"])),
        Ok(SendResult::Hit)
    );
    assert_eq!(
        send_result(&response(ResponseStatus::Noop, &[])),
        Ok(SendResult::Hit)
    );
    assert_eq!(
        send_result(&response(ResponseStatus::NotFound, &[])),
        Ok(SendResult::Miss)
    );
    assert_eq!(
        send_result(&response(ResponseStatus::Error, &["a", "b", "c"])),
        Err("a; b; c".to_string())
    );
    assert_eq!(
        send_result(&response(ResponseStatus::Error, &[])),
        Err(String::new())
    );
}

#[test]
fn latencies_are_sorted_and_summed_up() {
    let mut v: Vec<u64> = (1..=200).rev().collect();
    let stats = compute_stats(&mut v);
    assert_eq!(v, (1..=200).collect::<Vec<u64>>());
    assert_eq!(stats.min, 1);
    assert_eq!(stats.max, 200);
    assert_eq!(stats.mean, 100);
    assert_eq!(stats.p99, 199);
    let mut one = vec![7];
    let stats = compute_stats(&mut one);
    assert_eq!((stats.min, stats.max, stats.mean, stats.p99), (7, 7, 7, 7));
    let mut large = vec![u64::MAX, u64::MAX, 3];
    assert_eq!(compute_stats(&mut large).mean, 12_297_829_382_473_034_411);
}

#[test]
fn keys_are_numbered() {
    let keys = bench_keys(3);
    assert_eq!(
        keys,
        vec!["bench:key:00000000", "bench:key:00000001", "bench:key:00000002"]
    );
}

#[test]
fn misses_are_spread_evenly() {
    let keys = bench_keys(10);
    let reads = build_read_keys(&keys, 3);
    let missing: Vec<usize> = (0..10).filter(|&i| reads[i] != keys[i]).collect();
    assert_eq!(missing, vec![3, 6, 9]);
    assert_eq!(reads[3], "bench:missing:00000003");
    assert_eq!((0..10).filter(|&i| is_miss(i, 3, 10)).count(), 3);
    assert_eq!(build_read_keys(&keys, 0), keys);
    assert_eq!((0..10).filter(|&i| is_miss(i, 10, 10)).count(), 10);
}

#[test]
fn picks_choose_the_keys() {
    let keys = bench_keys(4);
    let reads = build_zipf_read_keys(&keys, &vec![0, 3, 0, 1], 1);
    assert_eq!(
        reads,
        vec![
            "bench:key:00000000",
            "bench:key:00000003",
            "bench:key:00000000",
            "bench:missing:00000003",
        ]
    );
}

#[test]
fn windows_follow_each_other() {
    let keys = bench_keys(7);
    let queries = build_range_queries(&keys, 3);
    assert_eq!(
        queries,
        vec![
            (keys[0].clone(), keys[2].clone()),
            (keys[3].clone(), keys[5].clone()),
        ]
    );
    assert!(build_range_queries(&keys, 0).is_empty());
    assert!(build_range_queries(&keys, 8).is_empty());
    assert!(build_range_queries(&Vec::new(), 3).is_empty());
}

#[test]
fn deleted_keys_and_those_that_survive() {
    let keys = bench_keys(10);
    let deleted = delete_keys(&keys, 3);
    assert_eq!(
        deleted,
        vec![keys[0].clone(), keys[3].clone(), keys[6].clone()]
    );
    let left = surviving_keys(&keys, &deleted);
    assert_eq!(left.len(), 7);
    assert_eq!(left[0], keys[1]);
    assert!(delete_keys(&keys, 0).is_empty());
    assert_eq!(delete_keys(&keys, 10), keys);
    assert_eq!(delete_keys(&keys, 25), keys);
}

#[test]
fn shares_leave_no_gap() {
    let shares: Vec<(usize, usize)> = (0..3).map(|w| worker_share(w, 10, 3)).collect();
    assert_eq!(shares, vec![(0, 3), (3, 6), (6, 10)]);
    assert_eq!(worker_share(0, 0, 4), (0, 0));
}

#[test]
fn random_numbers_are_always_the_same() {
    let mut rng = Rng::new(1);
    assert_eq!(rng.next_u64(), 1_082_269_761);
    assert_eq!(rng.next_u64(), 1_152_992_998_833_853_505);
    assert_eq!(Rng::new(0).next_u64(), 0);
}
