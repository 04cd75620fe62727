use load_balancer_llamaedge::registry::ServiceEntry;
use load_balancer_llamaedge::selector::{pick_weighted, select_service, sum_weights};

fn pool(weights: &[u32]) -> Vec<ServiceEntry> {
    weights
        .iter()
        .enumerate()
        .map(|(i, w)| ServiceEntry::new(format!("s{}", i), *w, "10.0.0.1".to_string(), 8080))
        .collect()
}

#[test]
fn empty_pool_selects_nothing() {
    let p = pool(&[]);
    for _ in 0..100 {
        assert_eq!(select_service(&p), None);
    }
}

#[test]
fn all_zero_weights_select_first() {
    let p = pool(&[0, 0, 0]);
    for _ in 0..100 {
        assert_eq!(select_service(&p), Some(0));
    }
}

#[test]
fn three_to_one_split_over_4000_trials() {
    let p = pool(&[3, 1]);
    let mut a = 0;
    for _ in 0..4000 {
        if select_service(&p) == Some(0) {
            a += 1;
        }
    }
    assert!((2900..=3100).contains(&a), "A chosen {} times", a);
}

#[test]
fn frequencies_follow_weights() {
    let p = pool(&[5, 0, 2, 3]);
    let mut counts = [0usize; 4];
    for _ in 0..10000 {
        counts[select_service(&p).unwrap()] += 1;
    }
    assert_eq!(counts[1], 0);
    assert!((4700..=5300).contains(&counts[0]), "{:?}", counts);
    assert!((1750..=2250).contains(&counts[2]), "{:?}", counts);
    assert!((2700..=3300).contains(&counts[3]), "{:?}", counts);
}

#[test]
fn single_positive_weight_always_chosen() {
    let p = pool(&[0, 4, 0]);
    for _ in 0..200 {
        assert_eq!(select_service(&p), Some(1));
    }
}

#[test]
fn pick_walks_cumulative_weights() {
    let p = pool(&[3, 1]);
    assert_eq!(pick_weighted(&p, 0), Some(0));
    assert_eq!(pick_weighted(&p, 2), Some(0));
    assert_eq!(pick_weighted(&p, 3), Some(1));
    assert_eq!(pick_weighted(&p, 4), None);
}

#[test]
fn pick_skips_zero_weights() {
    let p = pool(&[0, 2, 0, 1]);
    assert_eq!(pick_weighted(&p, 0), Some(1));
    assert_eq!(pick_weighted(&p, 1), Some(1));
    assert_eq!(pick_weighted(&p, 2), Some(3));
    assert_eq!(pick_weighted(&pool(&[]), 0), None);
}

#[test]
fn sum_of_weights_does_not_overflow() {
    assert_eq!(sum_weights(&pool(&[u32::MAX, u32::MAX, 1])), 2 * (u32::MAX as u128) + 1);
    assert_eq!(sum_weights(&pool(&[])), 0);
}
