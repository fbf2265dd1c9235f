use swim::cache::{TimeoutCache, TimerQueue};
use swim::constants::ROUND_TRIP_TIME;
use swim::message::NetAddr;

fn addr(text: &str) -> NetAddr {
    NetAddr::new(text.to_string())
}

#[test]
fn the_round_trip_time_is_a_third_of_a_second() {
    assert_eq!(ROUND_TRIP_TIME, 333);
}

#[test]
fn a_new_cache_has_no_timer() {
    let mut cache = TimeoutCache::new();
    assert_eq!(cache.suspect_timers().len(), 0);
    let timeouts = cache.poll_purge(u64::MAX);
    assert!(timeouts.ack_addr_vec.is_empty());
    assert!(timeouts.indirect_ack_addr_vec.is_empty());
    assert!(timeouts.probe_addr_vec.is_empty());
    assert!(timeouts.suspect_addr_vec.is_empty());
    assert!(timeouts.query_addr_vec.is_empty());
}

#[test]
fn creating_twice_leaves_one_timer() {
    let mut cache = TimeoutCache::new();
    cache.create_suspect_timeout(addr("a:1"), 100);
    cache.create_suspect_timeout(addr("a:1"), 200);
    assert_eq!(cache.suspect_timers().len(), 1);
    assert!(cache.suspect_timers().contains(&addr("a:1")));
    // The first timer stands: it expires 333 ms after 100, not after 200.
    let timeouts = cache.poll_purge(433);
    assert_eq!(timeouts.suspect_addr_vec, vec![addr("a:1")]);
    assert_eq!(cache.suspect_timers().len(), 0);
}

#[test]
fn a_timer_expires_after_the_round_trip_time() {
    let mut cache = TimeoutCache::new();
    cache.create_suspect_timeout(addr("a:1"), 1000);
    assert!(cache.poll_purge(1000).suspect_addr_vec.is_empty());
    assert!(cache.poll_purge(1332).suspect_addr_vec.is_empty());
    assert_eq!(cache.poll_purge(1333).suspect_addr_vec, vec![addr("a:1")]);
    // Each expired address comes out once.
    assert!(cache.poll_purge(5000).suspect_addr_vec.is_empty());
}

#[test]
fn a_clock_that_ran_backwards_expires_nothing() {
    let mut cache = TimeoutCache::new();
    cache.create_ack_timeout(addr("a:1"), 1000);
    assert!(cache.poll_purge(10).ack_addr_vec.is_empty());
    assert_eq!(cache.ack_timers().len(), 1);
}

#[test]
fn a_timer_started_at_the_end_of_time_never_expires() {
    let mut cache = TimeoutCache::new();
    cache.create_query_timeout(addr("a:1"), u64::MAX - 5);
    assert!(cache.poll_purge(u64::MAX).query_addr_vec.is_empty());
}

#[test]
fn a_removed_timer_does_not_expire() {
    let mut cache = TimeoutCache::new();
    cache.create_suspect_timeout(addr("a:1"), 0);
    cache.create_suspect_timeout(addr("b:2"), 0);
    cache.remove_suspect_timeout(&addr("a:1"));
    cache.remove_suspect_timeout(&addr("c:3"));
    assert_eq!(cache.poll_purge(333).suspect_addr_vec, vec![addr("b:2")]);
}

#[test]
fn the_drain_hands_out_the_expired_in_starting_order_and_keeps_the_rest() {
    let mut cache = TimeoutCache::new();
    cache.create_probe_timeout(addr("c:3"), 10);
    cache.create_probe_timeout(addr("a:1"), 20);
    cache.create_probe_timeout(addr("b:2"), 500);
    let timeouts = cache.poll_purge(400);
    assert_eq!(timeouts.probe_addr_vec, vec![addr("c:3"), addr("a:1")]);
    assert_eq!(cache.probe_timers().len(), 1);
    assert!(cache.probe_timers().contains(&addr("b:2")));
}

#[test]
fn the_classes_are_kept_apart() {
    let mut cache = TimeoutCache::new();
    cache.create_ack_timeout(addr("a:1"), 0);
    cache.create_probe_timeout(addr("a:1"), 0);
    cache.create_suspect_timeout(addr("a:1"), 0);
    cache.create_query_timeout(addr("a:1"), 0);
    cache.create_indirect_ack_timeout(addr("a:1"), addr("r:1"), 0);
    cache.remove_ack_timeout(&addr("a:1"));
    cache.remove_probe_timeout(&addr("a:1"));
    let timeouts = cache.poll_purge(333);
    assert!(timeouts.ack_addr_vec.is_empty());
    assert!(timeouts.probe_addr_vec.is_empty());
    assert_eq!(timeouts.suspect_addr_vec, vec![addr("a:1")]);
    assert_eq!(timeouts.query_addr_vec, vec![addr("a:1")]);
    assert_eq!(timeouts.indirect_ack_addr_vec, vec![addr("a:1")]);
    cache.create_query_timeout(addr("b:2"), 400);
    cache.remove_query_timeout(&addr("b:2"));
    assert_eq!(cache.query_timers().len(), 0);
}

#[test]
fn removing_an_owed_acknowledgement_names_the_requester() {
    let mut cache = TimeoutCache::new();
    cache.create_indirect_ack_timeout(addr("s:1"), addr("r:1"), 0);
    cache.create_indirect_ack_timeout(addr("s:1"), addr("r:2"), 5);
    cache.create_indirect_ack_timeout(addr("s:2"), addr("r:3"), 5);
    assert_eq!(cache.remove_indirect_ack_timeout(&addr("s:1")), Some(addr("r:1")));
    assert_eq!(cache.remove_indirect_ack_timeout(&addr("s:1")), None);
    assert_eq!(cache.indirect_ack_timers().len(), 1);
    assert_eq!(cache.remove_indirect_ack_timeout(&addr("s:2")), Some(addr("r:3")));
}

#[test]
fn a_queue_on_its_own() {
    let mut q = TimerQueue::new();
    q.create(addr("a:1"), None, 7);
    q.create(addr("b:2"), Some(addr("r:1")), 8);
    q.create(addr("a:1"), None, 9);
    assert_eq!(q.len(), 2);
    assert!(q.remove(&addr("a:1")).is_some());
    assert!(q.remove(&addr("a:1")).is_none());
    assert!(!q.contains(&addr("a:1")));
    assert_eq!(q.purge(341), vec![addr("b:2")]);
    assert_eq!(q.len(), 0);
}
