use mcts::score::{floor_log2, isqrt, uct_milli};

#[test]
fn isqrt_small_values() {
    assert_eq!(isqrt(0), 0);
    assert_eq!(isqrt(1), 1);
    assert_eq!(isqrt(2), 1);
    assert_eq!(isqrt(3), 1);
    assert_eq!(isqrt(4), 2);
    assert_eq!(isqrt(24), 4);
    assert_eq!(isqrt(25), 5);
}

#[test]
fn isqrt_large_values() {
    assert_eq!(isqrt(87_318_000), 9344);
    assert_eq!(isqrt(u64::MAX), 4_294_967_295);
}

#[test]
fn floor_log2_values() {
    assert_eq!(floor_log2(1), 0);
    assert_eq!(floor_log2(2), 1);
    assert_eq!(floor_log2(3), 1);
    assert_eq!(floor_log2(4), 2);
    assert_eq!(floor_log2(1024), 10);
    assert_eq!(floor_log2(u64::MAX), 63);
}

/// One exact value of the milli-scaled UCT formula: mean 500 plus
/// floor(1000 * sqrt(2 ln 2)) with ln in milli-units.
#[test]
fn uct_exact_value() {
    // w/n = 500; explore = isqrt(2 * 1000 * 693 * log2(2) / 1) = 1177.
    assert_eq!(uct_milli(500, 1, 2), 500 + 1177);
}

#[test]
fn uct_pure_mean_when_parent_has_one_visit() {
    // log2(1) = 0, so the exploration term vanishes.
    assert_eq!(uct_milli(800, 2, 1), 400);
}

/// For fixed child statistics, the UCT score never decreases as the
/// parent's visit count grows.
#[test]
fn uct_monotone_in_parent_visits() {
    let mut last = 0;
    for parent in [1u64, 2, 3, 8, 100, 1024, 1_000_000] {
        let s = uct_milli(500, 3, parent);
        assert!(s >= last);
        last = s;
    }
}
