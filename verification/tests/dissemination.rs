use swim::constants::{budget_for, ceil_ln_succ, GOSSIP_RATE};
use swim::dissemination::Dissemination;
use swim::membership::Membership;
use swim::message::{Gossip, NetAddr};

fn addr(text: &str) -> NetAddr {
    NetAddr::new(text.to_string())
}

fn cluster(n: usize) -> Membership {
    let mut m = Membership::new();
    for i in 0..n {
        m.process_join(addr(&format!("10.0.0.{}:7000", i)));
    }
    m
}

#[test]
fn the_logarithm_is_rounded_up() {
    assert_eq!(ceil_ln_succ(0), 0);
    assert_eq!(ceil_ln_succ(1), 1);
    assert_eq!(ceil_ln_succ(2), 2);
    assert_eq!(ceil_ln_succ(6), 2);
    assert_eq!(ceil_ln_succ(7), 3);
    assert_eq!(ceil_ln_succ(8), 3);
    assert_eq!(ceil_ln_succ(19), 3);
    assert_eq!(ceil_ln_succ(20), 4);
    assert_eq!(ceil_ln_succ(22025), 10);
    assert_eq!(ceil_ln_succ(22026), 11);
    assert_eq!(ceil_ln_succ(u64::MAX), 45);
}

#[test]
fn the_logarithm_agrees_with_floating_point() {
    for n in 0u64..5000 {
        let expected = ((n + 1) as f64).ln().ceil() as usize;
        assert_eq!(ceil_ln_succ(n), expected);
    }
}

#[test]
fn the_budget_grows_with_the_cluster() {
    assert_eq!(GOSSIP_RATE, 3);
    assert_eq!(budget_for(0), 0);
    assert_eq!(budget_for(1), 3);
    assert_eq!(budget_for(2), 6);
    assert_eq!(budget_for(8), 9);
    assert_eq!(budget_for(20), 12);
}

#[test]
fn a_new_item_starts_at_zero() {
    let mut d = Dissemination::new();
    let g = Gossip::Suspect(addr("127.0.0.1:7001"));
    assert_eq!(d.count(&g), None);
    d.try_gossip(g.clone());
    assert_eq!(d.count(&g), Some(0));
    assert_eq!(d.count(&Gossip::Alive(addr("127.0.0.1:7001"))), None);
    assert_eq!(d.count(&Gossip::Suspect(addr("127.0.0.1:7002"))), None);
}

#[test]
fn the_helpers_observe_the_item_of_their_kind() {
    let mut d = Dissemination::new();
    d.gossip_join(addr("a:1"));
    d.gossip_alive(addr("a:2"));
    d.gossip_suspect(addr("a:3"));
    d.gossip_confirm(addr("a:4"));
    assert_eq!(d.count(&Gossip::Join(addr("a:1"))), Some(0));
    assert_eq!(d.count(&Gossip::Alive(addr("a:2"))), Some(0));
    assert_eq!(d.count(&Gossip::Suspect(addr("a:3"))), Some(0));
    assert_eq!(d.count(&Gossip::Confirm(addr("a:4"))), Some(0));
    assert_eq!(d.count(&Gossip::Join(addr("a:2"))), None);
}

#[test]
fn observing_again_does_not_reset_the_count() {
    let mut d = Dissemination::new();
    let m = cluster(8);
    let g = Gossip::Alive(addr("127.0.0.1:7001"));
    d.try_gossip(g.clone());
    d.acquire_gossip(&m);
    d.acquire_gossip(&m);
    assert_eq!(d.count(&g), Some(2));
    d.try_gossip(g.clone());
    assert_eq!(d.count(&g), Some(2));
}

#[test]
fn a_batch_is_in_ascending_order_by_kind_then_address() {
    let mut d = Dissemination::new();
    let m = cluster(3);
    d.gossip_confirm(addr("a:1"));
    d.gossip_suspect(addr("b:2"));
    d.gossip_suspect(addr("a:1"));
    d.gossip_join(addr("z:9"));
    d.gossip_alive(addr("c:3"));
    let batch = d.acquire_gossip(&m);
    assert_eq!(
        batch,
        vec![
            Gossip::Join(addr("z:9")),
            Gossip::Alive(addr("c:3")),
            Gossip::Suspect(addr("a:1")),
            Gossip::Suspect(addr("b:2")),
            Gossip::Confirm(addr("a:1")),
        ]
    );
}

#[test]
fn gossip_rate_in_a_cluster_of_eight() {
    // With eight members the budget is 3 * ceil(ln 9) = 9: after its first
    // emission the item goes out on nine more messages and is then dropped.
    let mut d = Dissemination::new();
    let m = cluster(8);
    let g = Gossip::Suspect(addr("10.0.0.3:7000"));
    d.try_gossip(g.clone());
    assert_eq!(d.acquire_gossip(&m), vec![g.clone()]);
    for _ in 0..9 {
        assert_eq!(d.acquire_gossip(&m), vec![g.clone()]);
    }
    for _ in 0..5 {
        assert_eq!(d.acquire_gossip(&m), Vec::<Gossip>::new());
    }
    assert_eq!(d.count(&g), Some(10));
}

#[test]
fn an_item_over_budget_is_passed_over_and_stays() {
    let mut d = Dissemination::new();
    let lonely = cluster(0);
    let g = Gossip::Join(addr("a:1"));
    d.try_gossip(g.clone());
    // Budget zero: one emission, then silence.
    assert_eq!(d.acquire_gossip(&lonely), vec![g.clone()]);
    assert_eq!(d.acquire_gossip(&lonely), Vec::<Gossip>::new());
    assert_eq!(d.count(&g), Some(1));
    // A larger cluster raises the budget, and the item goes out again.
    let m = cluster(1);
    assert_eq!(d.acquire_gossip(&m), vec![g.clone()]);
    assert_eq!(d.count(&g), Some(2));
}

#[test]
fn join_items_follow_the_same_rule() {
    let mut d = Dissemination::new();
    let m = cluster(1);
    let join = Gossip::Join(addr("a:1"));
    let alive = Gossip::Alive(addr("a:1"));
    d.try_gossip(join.clone());
    d.try_gossip(alive.clone());
    for _ in 0..4 {
        assert_eq!(d.acquire_gossip(&m), vec![join.clone(), alive.clone()]);
    }
    assert_eq!(d.acquire_gossip(&m), Vec::<Gossip>::new());
}
