use pg_tps_optimizer::fibonacci::Fibonacci;
use pg_tps_optimizer::fibonacci::levels;

#[test]
fn test_fibonacci() {
    let mut f = Fibonacci::new(1, 1);
    let mut taken: Vec<u32> = Vec::new();
    for _ in 0..5 {
        taken.push(f.next().unwrap());
    }
    assert_eq!(taken.len(), 5);
    let sum: u32 = taken.iter().sum();
    assert_eq!(sum, 19);
    assert_eq!(*taken.last().unwrap(), 8);
}

#[test]
fn test_levels_small_cap() {
    // A 4-worker cap probes exactly the levels 1, 2 and 3.
    assert_eq!(levels(1, 4), vec![1, 2, 3]);
}

#[test]
fn test_levels_prefix() {
    assert_eq!(levels(1, 100), vec![1, 2, 3, 5, 8, 13, 21, 34, 55, 89]);
}

#[test]
fn test_levels_skips_below_min() {
    assert_eq!(levels(4, 100), vec![5, 8, 13, 21, 34, 55, 89]);
}

#[test]
fn test_levels_inverted_range_is_empty() {
    // With the smallest count past the cap, no level at all is probed: the
    // sequence stops before it ever reaches the minimum.
    assert_eq!(levels(50, 8), Vec::<u32>::new());
}
