use sphinx::refresh::{FetchError, RefreshCache, DEFAULT_TTL};

/// Asks the cache as a frame does, and counts the fetches launched.
fn ask(cache: &mut RefreshCache<Vec<u32>>, now: u64, count: &mut u32) -> Option<Vec<u32>> {
    let (launch, served) = cache.peek_and_maybe_refresh(now);
    let served = served.cloned();
    if launch {
        *count += 1;
    }
    assert_eq!(served.as_ref(), cache.current());
    served
}

#[test]
fn default_ttl_is_twenty_seconds() {
    assert_eq!(DEFAULT_TTL, 20_000);
}

#[test]
fn cache_with_ttl_of_twenty_seconds() {
    let mut cache: RefreshCache<Vec<u32>> = RefreshCache::new(20_000);
    let mut count = 0;
    assert_eq!(ask(&mut cache, 0, &mut count), None);
    assert_eq!(count, 1);
    cache.complete::<FetchError>(Ok(vec![1, 2, 3]));
    assert_eq!(ask(&mut cache, 5_000, &mut count), Some(vec![1, 2, 3]));
    assert_eq!(count, 1);
    assert_eq!(ask(&mut cache, 21_000, &mut count), Some(vec![1, 2, 3]));
    assert_eq!(count, 2);
}

#[test]
fn new_cache_launches_at_the_first_question() {
    let mut cache: RefreshCache<Vec<u32>> = RefreshCache::new(20_000);
    assert!(cache.current().is_none());
    assert!(cache.is_expired(0));
    assert!(cache.is_expired(u64::MAX));
    assert!(cache.peek_and_maybe_refresh(7).0);
    assert_eq!(cache.ttl(), 20_000);
}

#[test]
fn cache_asked_twice_within_ttl_launches_once() {
    let mut cache: RefreshCache<Vec<u32>> = RefreshCache::new(20_000);
    let mut count = 0;
    ask(&mut cache, 1_000, &mut count);
    cache.complete::<FetchError>(Ok(vec![9]));
    let first = ask(&mut cache, 1_001, &mut count);
    let second = ask(&mut cache, 20_999, &mut count);
    assert_eq!(first, Some(vec![9]));
    assert_eq!(first, second);
    assert_eq!(count, 1);
}

#[test]
fn cache_expires_exactly_at_ttl() {
    let mut cache: RefreshCache<Vec<u32>> = RefreshCache::launched(20_000, 1_000);
    assert!(!cache.is_expired(20_999));
    assert!(cache.is_expired(21_000));
    assert!(!cache.peek_and_maybe_refresh(20_999).0);
    assert!(cache.peek_and_maybe_refresh(21_000).0);
    assert!(!cache.peek_and_maybe_refresh(21_000).0);
}

#[test]
fn cache_asked_often_before_the_fetch_is_back_launches_once() {
    let mut cache: RefreshCache<Vec<u32>> = RefreshCache::new(20_000);
    let mut count = 0;
    ask(&mut cache, 0, &mut count);
    cache.complete::<FetchError>(Ok(vec![1]));
    for now in [30_000u64, 30_000, 30_016, 30_033, 40_000, 49_999] {
        assert_eq!(ask(&mut cache, now, &mut count), Some(vec![1]));
    }
    assert_eq!(count, 2);
    cache.complete::<FetchError>(Ok(vec![2]));
    assert_eq!(ask(&mut cache, 49_999, &mut count), Some(vec![2]));
    assert_eq!(count, 2);
}

#[test]
fn cache_launches_again_where_a_fetch_is_out_longer_than_ttl() {
    let mut cache: RefreshCache<Vec<u32>> = RefreshCache::new(20_000);
    assert!(cache.peek_and_maybe_refresh(0).0);
    assert!(cache.peek_and_maybe_refresh(20_000).0);
}

#[test]
fn invalidate_launches_at_the_next_question() {
    let mut cache: RefreshCache<Vec<u32>> = RefreshCache::new(20_000);
    let mut count = 0;
    ask(&mut cache, 100, &mut count);
    cache.complete::<FetchError>(Ok(vec![4]));
    cache.invalidate();
    assert_eq!(ask(&mut cache, 100, &mut count), Some(vec![4]));
    assert_eq!(count, 2);
    assert_eq!(ask(&mut cache, 101, &mut count), Some(vec![4]));
    assert_eq!(count, 2);
}

#[test]
fn failed_fetch_keeps_the_value() {
    let mut cache: RefreshCache<Vec<u32>> = RefreshCache::new(20_000);
    let _ = cache.peek_and_maybe_refresh(0);
    cache.complete::<FetchError>(Ok(vec![5, 6]));
    let _ = cache.peek_and_maybe_refresh(25_000);
    cache.complete(Err::<Vec<u32>, FetchError>(FetchError::Failed));
    assert_eq!(cache.current(), Some(&vec![5, 6]));
    assert!(!cache.peek_and_maybe_refresh(25_001).0);
}

#[test]
fn failed_first_fetch_leaves_no_value() {
    let mut cache: RefreshCache<Vec<u32>> = RefreshCache::new(20_000);
    let _ = cache.peek_and_maybe_refresh(0);
    cache.complete(Err::<Vec<u32>, FetchError>(FetchError::Failed));
    assert_eq!(cache.current(), None);
}

#[test]
fn later_fetch_replaces_the_value_whole() {
    let mut cache: RefreshCache<Vec<u32>> = RefreshCache::new(10);
    let _ = cache.peek_and_maybe_refresh(0);
    let _ = cache.peek_and_maybe_refresh(10);
    cache.complete::<FetchError>(Ok(vec![1, 1, 1]));
    cache.complete::<FetchError>(Ok(vec![2]));
    assert_eq!(cache.current(), Some(&vec![2]));
}

#[test]
fn clock_that_runs_backwards_counts_as_no_time() {
    let mut cache: RefreshCache<Vec<u32>> = RefreshCache::launched(20_000, 50_000);
    assert!(!cache.is_expired(10));
    assert!(!cache.peek_and_maybe_refresh(10).0);
}

#[test]
fn ttl_of_zero_launches_every_time() {
    let mut cache: RefreshCache<Vec<u32>> = RefreshCache::new(0);
    assert!(cache.peek_and_maybe_refresh(5).0);
    assert!(cache.peek_and_maybe_refresh(5).0);
}

#[test]
fn reset_drops_the_value() {
    let mut cache: RefreshCache<Vec<u32>> = RefreshCache::new(20_000);
    let _ = cache.peek_and_maybe_refresh(0);
    cache.complete::<FetchError>(Ok(vec![1]));
    cache.reset();
    assert_eq!(cache.current(), None);
    assert!(cache.peek_and_maybe_refresh(1).0);
    assert_eq!(cache.ttl(), 20_000);
}
