use swim::constants::{MINIMUM_MEMBERS, PROTOCOL_PERIOD, ROUND_TRIP_TIME};
use swim::membership::State;
use swim::message::{Gossip, NetAddr, Request, Response};
use swim::protocol::snowball::Snowball;
use swim::protocol::types::Colour;
use swim::swim::{PingReqStep, Swim};

fn addr(text: &str) -> NetAddr {
    NetAddr::new(text.to_string())
}

fn a() -> NetAddr {
    addr("127.0.0.1:7001")
}

fn b() -> NetAddr {
    addr("127.0.0.1:7002")
}

fn c() -> NetAddr {
    addr("127.0.0.1:7003")
}

/// Node `own`, knowing `peers`.
fn node(own: NetAddr, peers: &[NetAddr]) -> Swim {
    let mut swim = Swim::new(own, None);
    for p in peers {
        assert!(swim.handle_join(p.clone()).is_some());
    }
    swim
}

fn ack(response: &Response) -> Vec<Gossip> {
    match response {
        Response::Ack(gossip) => gossip.clone(),
        other => panic!("not an acknowledgement: {:?}", other),
    }
}

#[test]
fn the_periods() {
    assert_eq!(PROTOCOL_PERIOD, 1000);
    assert_eq!(ROUND_TRIP_TIME, 333);
    assert_eq!(MINIMUM_MEMBERS, 2);
}

#[test]
fn a_new_node_knows_nobody() {
    let swim = Swim::new(a(), Some(25));
    assert_eq!(swim.addr, a());
    assert_eq!(swim.latency(), Some(25));
    assert_eq!(swim.member_count(), 0);
    assert_eq!(swim.member_state(&b()), None);
    assert_eq!(swim.timeout_cache().suspect_timers().len(), 0);
    assert_eq!(swim.dissemination().count(&Gossip::Join(b())), None);
    assert_eq!(Swim::new(a(), None).latency(), None);
}

#[test]
fn two_node_join() {
    let mut node_a = Swim::new(a(), None);
    let mut node_b = Swim::new(b(), None);
    // B asks the seed A to admit it.
    let peer = match node_b.send_bootstrap_join() {
        Request::Join(peer) => peer,
        other => panic!("not a join: {:?}", other),
    };
    assert_eq!(peer, b());
    let answer = node_a.handle_join(peer).expect("a new peer is answered");
    match &answer {
        Response::Join(seed) => assert_eq!(*seed, a()),
        other => panic!("not a join: {:?}", other),
    }
    node_b.handle_bootstrap_response(answer);
    assert_eq!(node_a.member_count(), 1);
    assert_eq!(node_a.member_state(&b()), Some(State::Alive));
    assert_eq!(node_b.member_count(), 1);
    assert_eq!(node_b.member_state(&a()), Some(State::Alive));
    // Both pass the joining on.
    assert_eq!(node_a.dissemination().count(&Gossip::Join(b())), Some(0));
    assert_eq!(node_b.dissemination().count(&Gossip::Join(a())), Some(0));
}

#[test]
fn a_second_join_of_the_same_peer_gets_no_answer() {
    let mut node_a = Swim::new(a(), None);
    assert!(node_a.handle_join(b()).is_some());
    assert!(node_a.handle_join(b()).is_none());
    assert_eq!(node_a.member_count(), 1);
}

#[test]
fn a_node_does_not_admit_itself() {
    let mut node_a = Swim::new(a(), None);
    assert!(node_a.handle_join(a()).is_none());
    assert_eq!(node_a.member_count(), 0);
    assert_eq!(node_a.member_state(&a()), None);
    assert_eq!(node_a.dissemination().count(&Gossip::Join(a())), None);
    // Nor when it knows peers already.
    let mut node_a = node(a(), &[b(), c()]);
    assert!(node_a.handle_join(a()).is_none());
    assert_eq!(node_a.member_count(), 2);
    assert_eq!(node_a.member_state(&a()), None);
    assert_eq!(node_a.dissemination().count(&Gossip::Join(a())), None);
}

#[test]
fn a_seed_that_names_the_node_itself_is_not_admitted() {
    let mut node_a = Swim::new(a(), None);
    node_a.handle_bootstrap_response(Response::Join(a()));
    assert_eq!(node_a.member_count(), 0);
    assert_eq!(node_a.member_state(&a()), None);
    assert_eq!(node_a.dissemination().count(&Gossip::Join(a())), None);
    // A seed that is known already changes nothing either.
    let mut node_a = node(a(), &[b()]);
    node_a.send_ping(b());
    node_a.handle_bootstrap_response(Response::Join(b()));
    assert_eq!(node_a.member_count(), 1);
    assert_eq!(node_a.dissemination().count(&Gossip::Join(b())), Some(1));
}

#[test]
fn an_answer_that_is_no_join_does_not_bootstrap() {
    let mut node_b = Swim::new(b(), None);
    node_b.handle_bootstrap_response(Response::Ack(vec![Gossip::Join(c())]));
    node_b.handle_bootstrap_response(Response::Respond(Colour::Red));
    assert_eq!(node_b.member_count(), 0);
}

#[test]
fn the_messages_by_which_a_node_names_itself() {
    let swim = Swim::new(a(), None);
    assert!(matches!(swim.request_self_join(), Request::Join(p) if p == a()));
    assert!(matches!(swim.send_self_join(), Response::Join(p) if p == a()));
}

#[test]
fn join_gossip_admits_and_asks_for_an_introduction() {
    let mut swim = Swim::new(a(), None);
    assert!(swim.process_gossip(Gossip::Join(b()), 0));
    assert_eq!(swim.member_state(&b()), Some(State::Alive));
    assert_eq!(swim.dissemination().count(&Gossip::Join(b())), Some(0));
    // Seen again, it changes nothing.
    assert!(!swim.process_gossip(Gossip::Join(b()), 0));
    assert_eq!(swim.member_count(), 1);
}

#[test]
fn gossip_about_the_node_itself_is_ignored() {
    let mut swim = node(a(), &[b()]);
    for g in [Gossip::Join(a()), Gossip::Alive(a()), Gossip::Suspect(a()), Gossip::Confirm(a())] {
        assert!(!swim.process_gossip(g.clone(), 10));
        assert_eq!(swim.dissemination().count(&g), None);
    }
    assert_eq!(swim.member_count(), 1);
    assert_eq!(swim.member_state(&a()), None);
    assert_eq!(swim.timeout_cache().suspect_timers().len(), 0);
}

#[test]
fn suspect_gossip_marks_and_starts_the_timer() {
    let mut swim = node(a(), &[b(), c()]);
    assert!(!swim.process_gossip(Gossip::Suspect(c()), 100));
    assert_eq!(swim.member_state(&c()), Some(State::Suspected));
    assert_eq!(swim.member_state(&b()), Some(State::Alive));
    assert_eq!(swim.dissemination().count(&Gossip::Suspect(c())), Some(0));
    assert!(swim.timeout_cache().suspect_timers().contains(&c()));
}

#[test]
fn suspect_gossip_about_an_unknown_peer_starts_no_timer() {
    let mut swim = node(a(), &[b()]);
    swim.process_gossip(Gossip::Suspect(c()), 100);
    assert_eq!(swim.member_state(&c()), None);
    assert_eq!(swim.member_count(), 1);
    assert_eq!(swim.dissemination().count(&Gossip::Suspect(c())), Some(0));
    assert_eq!(swim.timeout_cache().suspect_timers().len(), 0);
}

#[test]
fn alive_gossip_clears_the_suspicion() {
    let mut swim = node(a(), &[b(), c()]);
    swim.process_gossip(Gossip::Suspect(c()), 100);
    swim.process_gossip(Gossip::Alive(c()), 200);
    assert_eq!(swim.member_state(&c()), Some(State::Alive));
    assert_eq!(swim.timeout_cache().suspect_timers().len(), 0);
    assert_eq!(swim.dissemination().count(&Gossip::Alive(c())), Some(0));
    assert!(swim.handle_timeouts(10_000).is_empty());
    assert_eq!(swim.member_count(), 2);
}

#[test]
fn confirm_is_final_until_a_fresh_join() {
    let mut swim = node(a(), &[b(), c()]);
    swim.process_gossip(Gossip::Confirm(c()), 0);
    assert_eq!(swim.member_state(&c()), None);
    assert_eq!(swim.dissemination().count(&Gossip::Confirm(c())), Some(0));
    swim.process_gossip(Gossip::Alive(c()), 1);
    swim.process_gossip(Gossip::Suspect(c()), 2);
    assert_eq!(swim.member_state(&c()), None);
    assert_eq!(swim.member_count(), 1);
    assert!(swim.process_gossip(Gossip::Join(c()), 3));
    assert_eq!(swim.member_state(&c()), Some(State::Alive));
}

#[test]
fn a_ping_carries_the_batch_and_is_answered_with_one() {
    let mut node_a = node(a(), &[b()]);
    let mut node_b = node(b(), &[a()]);
    let out = node_a.send_ping(b());
    assert_eq!(out.to, b());
    let gossip = match out.message {
        Request::Ping(from, gossip) => {
            assert_eq!(from, a());
            gossip
        }
        other => panic!("not a ping: {:?}", other),
    };
    assert_eq!(gossip, vec![Gossip::Join(b())]);
    assert_eq!(node_a.dissemination().count(&Gossip::Join(b())), Some(1));
    // B ignores the item about itself and answers with its own batch.
    let reply = node_b.handle_ping(gossip, 0);
    assert!(reply.joins.is_empty());
    assert_eq!(ack(&reply.response), vec![Gossip::Join(a())]);
    assert!(node_a.handle_ack(reply.response, 0).is_empty());
    assert_eq!(node_a.member_count(), 1);
}

#[test]
fn gossip_on_a_ping_spreads_membership() {
    let mut node_b = node(b(), &[a()]);
    let reply = node_b.handle_ping(vec![Gossip::Join(c()), Gossip::Join(a()), Gossip::Join(c())], 0);
    assert_eq!(reply.joins, vec![c()]);
    assert_eq!(node_b.member_state(&c()), Some(State::Alive));
    assert_eq!(ack(&reply.response), vec![Gossip::Join(a()), Gossip::Join(c())]);
}

#[test]
fn an_answer_that_is_no_acknowledgement_changes_nothing() {
    let mut swim = node(a(), &[b()]);
    assert!(swim.handle_ack(Response::Join(c()), 0).is_empty());
    assert!(swim.handle_ack(Response::Respond(Colour::Blue), 0).is_empty());
    let (forward, joins) = swim.handle_probe_ack(Response::Join(c()), 0);
    assert!(forward.is_none());
    assert!(joins.is_empty());
    assert_eq!(swim.member_count(), 1);
}

#[test]
fn a_missing_ack_escalates_to_one_other_peer() {
    let node_a = node(a(), &[b(), c()]);
    for _ in 0..20 {
        let out = node_a.send_ping_req(c()).expect("another peer is known");
        assert_eq!(out.to, b());
        match out.message {
            Request::PingReq(from, suspect) => {
                assert_eq!(from, a());
                assert_eq!(suspect, c());
            }
            other => panic!("not a request to probe: {:?}", other),
        }
    }
}

#[test]
fn without_another_peer_nobody_is_asked() {
    let node_a = node(a(), &[c()]);
    assert!(node_a.send_ping_req(c()).is_none());
    assert!(Swim::new(a(), None).send_ping_req(c()).is_none());
}

#[test]
fn silent_peer_suspicion() {
    // A knows B and C; C has gone silent.
    let mut node_a = node(a(), &[b(), c()]);
    let now = 5_000;
    // The probe of C is not answered: A asks B to probe C.
    let ask = node_a.send_ping_req(c()).expect("B can be asked");
    assert_eq!(ask.to, b());
    // B does not get an answer either: the suspicion timer starts, once.
    node_a.handle_ping_req_timeout(c(), now);
    node_a.handle_ping_req_timeout(c(), now + 50);
    assert_eq!(node_a.timeout_cache().suspect_timers().len(), 1);
    assert_eq!(node_a.member_state(&c()), Some(State::Alive));
    // Before the round-trip time is over nothing is confirmed.
    assert!(node_a.handle_timeouts(now + ROUND_TRIP_TIME - 1).is_empty());
    assert_eq!(node_a.member_count(), 2);
    // Then the failure is confirmed, once.
    assert_eq!(node_a.handle_timeouts(now + ROUND_TRIP_TIME), vec![c()]);
    assert_eq!(node_a.member_state(&c()), None);
    assert_eq!(node_a.member_count(), 1);
    assert_eq!(node_a.dissemination().count(&Gossip::Confirm(c())), Some(0));
    assert!(node_a.handle_timeouts(now + 10 * ROUND_TRIP_TIME).is_empty());
    // The confirmation goes out with the next message.
    let out = node_a.send_ping(b());
    match out.message {
        Request::Ping(_, gossip) => assert!(gossip.contains(&Gossip::Confirm(c()))),
        other => panic!("not a ping: {:?}", other),
    }
}

#[test]
fn indirect_probe_save() {
    let mut node_a = node(a(), &[b(), c()]);
    let mut node_b = node(b(), &[a(), c()]);
    let mut node_c = node(c(), &[a(), b()]);
    // A's probe of C is lost; A asks B.
    let ask = node_a.send_ping_req(c()).expect("B can be asked");
    let suspect = match ask.message {
        Request::PingReq(_, suspect) => suspect,
        other => panic!("not a request to probe: {:?}", other),
    };
    // B probes C.
    let probe = match node_b.handle_ping_req(suspect) {
        PingReqStep::Probe(out) => out,
        PingReqStep::Reply(_) => panic!("B is not the suspect"),
    };
    assert_eq!(probe.to, c());
    let gossip = match probe.message {
        Request::Ping(from, gossip) => {
            assert_eq!(from, b());
            gossip
        }
        other => panic!("not a ping: {:?}", other),
    };
    // C answers; B passes the answer on to A.
    let reply = node_c.handle_ping(gossip, 0);
    let expected = ack(&reply.response);
    let (forward, _) = node_b.handle_probe_ack(reply.response, 0);
    let forward = forward.expect("an acknowledgement is passed on");
    assert_eq!(ack(&forward), expected);
    node_a.handle_ack(forward, 0);
    // C is not suspected at A.
    assert_eq!(node_a.member_state(&c()), Some(State::Alive));
    assert_eq!(node_a.timeout_cache().suspect_timers().len(), 0);
    assert!(node_a.handle_timeouts(100_000).is_empty());
    assert_eq!(node_a.member_count(), 2);
}

#[test]
fn a_suspect_asked_about_itself_answers_at_once() {
    let mut node_c = node(c(), &[a()]);
    match node_c.handle_ping_req(c()) {
        PingReqStep::Reply(response) => assert_eq!(ack(&response), vec![Gossip::Join(a())]),
        PingReqStep::Probe(_) => panic!("the suspect does not probe itself"),
    }
    assert_eq!(node_c.dissemination().count(&Gossip::Join(a())), Some(1));
}

#[test]
fn a_period_with_fewer_than_two_peers_does_nothing() {
    let mut swim = node(a(), &[b()]);
    swim.handle_ping_req_timeout(b(), 0);
    let mut snowball = Snowball::with_colour(a(), Colour::Red);
    let mut inbox = vec![Colour::Blue; 4];
    let tick = swim.run(&mut snowball, &mut inbox, 10_000);
    assert_eq!(inbox.len(), 4);
    assert!(tick.ping.is_none());
    assert!(tick.round.is_none());
    assert!(tick.failed.is_empty());
    assert_eq!(swim.member_count(), 1);
    assert_eq!(swim.timeout_cache().suspect_timers().len(), 1);
    assert_eq!(swim.dissemination().count(&Gossip::Join(b())), Some(0));
}

#[test]
fn a_period_probes_the_next_peer_of_the_sweep() {
    let mut swim = node(a(), &[b(), c()]);
    let mut snowball = Snowball::with_colour(a(), Colour::Red);
    let mut probed: Vec<NetAddr> = Vec::new();
    for _ in 0..2 {
        let tick = swim.run(&mut snowball, &mut vec![], 0);
        let ping = tick.ping.expect("two peers are known");
        assert!(matches!(&ping.message, Request::Ping(from, _) if *from == a()));
        probed.push(ping.to);
        let round = tick.round.expect("a round is run");
        assert!(round.peers.is_empty());
        assert!(!round.decided);
    }
    probed.sort();
    assert_eq!(probed, vec![b(), c()]);
    assert_eq!(swim.dissemination().count(&Gossip::Join(b())), Some(2));
}

#[test]
fn a_period_runs_the_consensus_round_and_drains_the_timers() {
    let peers: Vec<NetAddr> = (0..5).map(|i| addr(&format!("10.0.0.{}:7000", i))).collect();
    let mut swim = node(a(), &peers);
    swim.handle_ping_req_timeout(peers[4].clone(), 1_000);
    let mut snowball = Snowball::with_colour(a(), Colour::Blue);
    let mut inbox = vec![Colour::Red; 5];
    let tick = swim.run(&mut snowball, &mut inbox, 1_333);
    assert_eq!(inbox, vec![Colour::Red]);
    assert!(tick.ping.is_some());
    let round = tick.round.expect("a round is run");
    assert_eq!(round.col, Colour::Blue);
    assert_eq!(round.peers.len(), 4);
    assert_eq!((snowball.col, snowball.lastcol, snowball.d.red), (Colour::Red, Colour::Red, 1));
    assert_eq!(tick.failed, vec![peers[4].clone()]);
    assert_eq!(swim.member_count(), 4);
    assert_eq!(swim.member_state(&peers[4]), None);
}
