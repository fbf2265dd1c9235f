use swim::membership::{arrange, contains_addr, Membership, State};
use swim::message::NetAddr;

fn addr(text: &str) -> NetAddr {
    NetAddr::new(text.to_string())
}

fn cluster(n: usize) -> Membership {
    let mut m = Membership::new();
    for i in 0..n {
        assert!(m.process_join(addr(&format!("10.0.0.{}:7000", i))));
    }
    m
}

#[test]
fn a_new_membership_is_empty() {
    let m = Membership::new();
    assert_eq!(m.len(), 0);
    assert_eq!(m.get(&addr("127.0.0.1:7001")), None);
}

#[test]
fn a_new_peer_joins_alive() {
    let mut m = Membership::new();
    assert!(m.process_join(addr("127.0.0.1:7001")));
    assert_eq!(m.len(), 1);
    assert_eq!(m.get(&addr("127.0.0.1:7001")), Some(State::Alive));
    assert_eq!(m.get(&addr("127.0.0.1:7002")), None);
}

#[test]
fn a_known_peer_keeps_its_state_on_joining_again() {
    let mut m = Membership::new();
    assert!(m.process_join(addr("127.0.0.1:7001")));
    m.suspect(addr("127.0.0.1:7001"));
    assert!(!m.process_join(addr("127.0.0.1:7001")));
    assert_eq!(m.get(&addr("127.0.0.1:7001")), Some(State::Suspected));
    assert_eq!(m.len(), 1);
}

#[test]
fn join_remove_join() {
    let mut m = Membership::new();
    let a = addr("127.0.0.1:7001");
    assert!(m.process_join(a.clone()));
    m.remove(&a);
    assert_eq!(m.get(&a), None);
    assert_eq!(m.len(), 0);
    assert!(m.process_join(a.clone()));
    assert_eq!(m.get(&a), Some(State::Alive));
}

#[test]
fn removing_an_unknown_peer_changes_nothing() {
    let mut m = cluster(2);
    m.remove(&addr("192.168.0.1:1"));
    assert_eq!(m.len(), 2);
}

#[test]
fn states_change_between_alive_and_suspected() {
    let mut m = Membership::new();
    let a = addr("127.0.0.1:7001");
    m.process_join(a.clone());
    m.suspect(a.clone());
    assert_eq!(m.get(&a), Some(State::Suspected));
    m.alive(a.clone());
    assert_eq!(m.get(&a), Some(State::Alive));
}

#[test]
fn an_unknown_peer_is_neither_marked_nor_admitted() {
    let mut m = Membership::new();
    m.suspect(addr("127.0.0.1:7001"));
    m.alive(addr("127.0.0.1:7002"));
    assert_eq!(m.len(), 0);
    assert_eq!(m.get(&addr("127.0.0.1:7001")), None);
    assert_eq!(m.get(&addr("127.0.0.1:7002")), None);
}

#[test]
fn candidates_come_in_ascending_order_without_the_excluded() {
    let mut m = Membership::new();
    m.process_join(addr("b:2"));
    m.process_join(addr("a:1"));
    m.process_join(addr("c:3"));
    m.process_join(addr("a:10"));
    let list = m.candidate_list(&vec![addr("b:2"), addr("z:9")]);
    assert_eq!(list, vec![addr("a:1"), addr("a:10"), addr("c:3")]);
    assert_eq!(m.candidate_count(&vec![addr("b:2")]), 3);
    assert_eq!(m.candidate_count(&vec![]), 4);
}

#[test]
fn contains_addr_finds_by_text() {
    let list = vec![addr("a:1"), addr("b:2")];
    assert!(contains_addr(&list, &addr("b:2")));
    assert!(!contains_addr(&list, &addr("c:3")));
}

#[test]
fn the_draws_pick_the_order() {
    let pool = vec![addr("a:1"), addr("b:2"), addr("c:3"), addr("d:4")];
    // Each pick leaves a gap, and the last item of the pool moves into it.
    assert_eq!(
        arrange(pool.clone(), &vec![0, 0, 0, 0]),
        vec![addr("a:1"), addr("d:4"), addr("c:3"), addr("b:2")]
    );
    assert_eq!(
        arrange(pool.clone(), &vec![3, 2, 1, 0]),
        vec![addr("d:4"), addr("c:3"), addr("b:2"), addr("a:1")]
    );
    assert_eq!(
        arrange(pool.clone(), &vec![1, 1, 0, 0]),
        vec![addr("b:2"), addr("d:4"), addr("a:1"), addr("c:3")]
    );
    // The pool comes out as it went in with these draws.
    assert_eq!(arrange(pool.clone(), &vec![0, 1, 1, 0]), pool);
    assert_eq!(arrange(vec![], &vec![]), Vec::<NetAddr>::new());
    assert_eq!(arrange(vec![addr("a:1")], &vec![0]), vec![addr("a:1")]);
}

#[test]
fn sample_gives_distinct_peers_outside_the_excluded() {
    let m = cluster(8);
    let own = addr("10.0.0.3:7000");
    for _ in 0..50 {
        let picked = m.sample(4, vec![own.clone()]);
        assert_eq!(picked.len(), 4);
        for (i, p) in picked.iter().enumerate() {
            assert!(*p != own);
            assert!(m.get(p).is_some());
            for q in &picked[i + 1..] {
                assert!(p != q);
            }
        }
    }
}

#[test]
fn sample_of_all_gives_every_candidate() {
    let m = cluster(5);
    let mut picked = m.sample(5, vec![]);
    picked.sort();
    assert_eq!(picked, m.candidate_list(&vec![]));
    assert_eq!(m.sample(0, vec![]).len(), 0);
}

#[test]
fn a_sweep_visits_every_peer_once() {
    let mut m = cluster(6);
    let mut seen: Vec<NetAddr> = Vec::new();
    for _ in 0..6 {
        let picked = m.sample_rr(1, vec![]);
        assert_eq!(picked.len(), 1);
        seen.push(picked[0].clone());
    }
    seen.sort();
    assert_eq!(seen, m.candidate_list(&vec![]));
    // The next sweep starts afresh.
    let mut again = m.sample_rr(6, vec![]);
    again.sort();
    assert_eq!(again, m.candidate_list(&vec![]));
}

#[test]
fn a_sweep_in_progress_is_finished_before_a_new_one_starts() {
    let mut m = cluster(3);
    let first = m.sample_rr(2, vec![]);
    // One peer of the first sweep is left; two more come from the next.
    let next = m.sample_rr(3, vec![]);
    assert_eq!(next.len(), 3);
    assert!(!first.contains(&next[0]));
    assert!(next[1] != next[2]);
    // One peer of the second sweep is left, and it is neither of those two.
    let last = m.sample_rr(1, vec![]);
    assert!(last[0] != next[1] && last[0] != next[2]);
}

#[test]
fn a_new_sweep_leaves_out_the_excluded() {
    let mut m = cluster(4);
    let own = addr("10.0.0.0:7000");
    let picked = m.sample_rr(3, vec![own.clone()]);
    assert_eq!(picked.len(), 3);
    assert!(!picked.contains(&own));
}

#[test]
fn churn_is_taken_up_at_the_next_sweep() {
    let mut m = cluster(2);
    let first = m.sample_rr(1, vec![]);
    m.process_join(addr("10.0.0.9:7000"));
    let second = m.sample_rr(1, vec![]);
    assert!(first[0] != second[0]);
    assert!(second[0] != addr("10.0.0.9:7000"));
    let mut third = m.sample_rr(3, vec![]);
    third.sort();
    assert_eq!(third, m.candidate_list(&vec![]));
}
