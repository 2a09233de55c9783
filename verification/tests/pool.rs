use rdups::pool::{pool_size, MAX_WORKERS};

#[test]
fn default_is_twice_the_parallelism() {
    assert_eq!(pool_size(None, 1), 2);
    assert_eq!(pool_size(None, 4), 8);
    assert_eq!(pool_size(None, 32), 64);
}

#[test]
fn default_is_bounded() {
    assert_eq!(MAX_WORKERS, 64);
    assert_eq!(pool_size(None, 33), 64);
    assert_eq!(pool_size(None, usize::MAX), 64);
}

#[test]
fn default_is_at_least_one() {
    assert_eq!(pool_size(None, 0), 1);
}

#[test]
fn a_request_is_honoured_within_bounds() {
    assert_eq!(pool_size(Some(1), 8), 1);
    assert_eq!(pool_size(Some(5), 8), 5);
    assert_eq!(pool_size(Some(64), 8), 64);
    assert_eq!(pool_size(Some(0), 8), 1);
    assert_eq!(pool_size(Some(65), 8), 64);
    assert_eq!(pool_size(Some(usize::MAX), 0), 64);
}
