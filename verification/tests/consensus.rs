use swim::membership::Membership;
use swim::message::{NetAddr, Request, Response};
use swim::protocol::slush::Slush;
use swim::protocol::snowball::{
    colour_with, outcome, take_counted, Snowball, B, K, QUIESCENT_POINT,
};
use swim::protocol::types::Colour;

fn addr(text: &str) -> NetAddr {
    NetAddr::new(text.to_string())
}

fn node(i: usize) -> NetAddr {
    addr(&format!("10.0.0.{}:7000", i))
}

/// The view of node `own` in a cluster of `n`: every other node.
fn others(n: usize, own: usize) -> Membership {
    let mut m = Membership::new();
    for i in 0..n {
        if i != own {
            m.process_join(node(i));
        }
    }
    m
}

fn respond(answer: Response) -> Colour {
    match answer {
        Response::Respond(col) => col,
        other => panic!("not an answer to a query: {:?}", other),
    }
}

#[test]
fn the_parameters() {
    assert_eq!(K, 4);
    assert_eq!(B, 11);
    assert_eq!(QUIESCENT_POINT, 2);
}

#[test]
fn colours_by_index() {
    assert_eq!(colour_with(0), Colour::Undecided);
    assert_eq!(colour_with(1), Colour::Red);
    assert_eq!(colour_with(2), Colour::Blue);
}

#[test]
fn outcome_counts_red_and_blue_and_ignores_undecided() {
    assert_eq!(outcome(vec![]), (0, 0));
    assert_eq!(
        outcome(vec![Colour::Red, Colour::Blue, Colour::Undecided, Colour::Red, Colour::Red]),
        (3, 1)
    );
    assert_eq!(outcome(vec![Colour::Undecided, Colour::Undecided]), (0, 0));
}

#[test]
fn a_new_node_starts_with_a_clean_record() {
    for _ in 0..20 {
        let s = Snowball::new(addr("a:1"));
        assert_eq!(s.addr, addr("a:1"));
        assert_eq!(s.lastcol, s.col);
        assert_eq!(s.cnt, 0);
        assert_eq!((s.d.red, s.d.blue), (0, 0));
        let t = Slush::new(addr("b:2"));
        assert_eq!(t.addr, addr("b:2"));
    }
}

#[test]
fn setters_set() {
    let mut s = Snowball::with_colour(addr("a:1"), Colour::Red);
    s.set_col(Colour::Blue);
    s.set_lastcol(Colour::Undecided);
    s.set_cnt(7);
    assert_eq!((s.col, s.lastcol, s.cnt), (Colour::Blue, Colour::Undecided, 7));
    let mut t = Slush::with_colour(addr("a:1"), Colour::Red);
    t.set_col(Colour::Blue);
    assert_eq!(t.col, Colour::Blue);
}

#[test]
fn a_query_names_the_sender_and_the_colour() {
    let s = Snowball::with_colour(addr("a:1"), Colour::Red);
    match s.send_query(Colour::Red) {
        Request::Query(from, col) => {
            assert_eq!(from, addr("a:1"));
            assert_eq!(col, Colour::Red);
        }
        other => panic!("not a query: {:?}", other),
    }
    let t = Slush::with_colour(addr("b:2"), Colour::Blue);
    match t.send_query(Colour::Blue) {
        Request::Query(from, col) => {
            assert_eq!(from, addr("b:2"));
            assert_eq!(col, Colour::Blue);
        }
        other => panic!("not a query: {:?}", other),
    }
}

#[test]
fn an_undecided_node_takes_the_colour_of_the_first_query() {
    let mut s = Snowball::with_colour(addr("a:1"), Colour::Undecided);
    assert_eq!(respond(s.handle_query(Colour::Blue)), Colour::Blue);
    assert_eq!(s.col, Colour::Blue);
    assert_eq!(respond(s.handle_query(Colour::Red)), Colour::Blue);
    assert_eq!(s.col, Colour::Blue);
}

#[test]
fn a_node_with_a_preference_keeps_it_when_queried() {
    let mut s = Snowball::with_colour(addr("a:1"), Colour::Red);
    assert_eq!(respond(s.handle_query(Colour::Blue)), Colour::Red);
    assert_eq!(s.col, Colour::Red);
}

#[test]
fn an_undecided_query_leaves_an_undecided_node_undecided() {
    let mut s = Snowball::with_colour(addr("a:1"), Colour::Undecided);
    assert_eq!(respond(s.handle_query(Colour::Undecided)), Colour::Undecided);
    assert_eq!(s.col, Colour::Undecided);
}

#[test]
fn too_few_peers_no_round() {
    let mut s = Snowball::with_colour(node(0), Colour::Red);
    let m = others(4, 0);
    let round = s.run(&mut vec![Colour::Blue; 4], &m);
    assert!(round.peers.is_empty());
    assert!(!round.decided);
    assert_eq!((s.col, s.cnt, s.d.red, s.d.blue), (Colour::Red, 0, 0, 0));
}

#[test]
fn an_undecided_node_does_not_sample() {
    let mut s = Snowball::with_colour(node(0), Colour::Undecided);
    let m = others(6, 0);
    let round = s.run(&mut vec![Colour::Blue; 4], &m);
    assert!(round.peers.is_empty());
    assert_eq!(s.col, Colour::Undecided);
}

#[test]
fn a_round_asks_k_distinct_peers_other_than_the_node() {
    let mut s = Snowball::with_colour(node(0), Colour::Red);
    let mut m = others(7, 0);
    m.process_join(node(0));
    for _ in 0..20 {
        let round = s.run(&mut vec![], &m);
        assert_eq!(round.col, Colour::Red);
        assert_eq!(round.peers.len(), 4);
        for (i, p) in round.peers.iter().enumerate() {
            assert!(*p != node(0));
            assert!(!round.peers[i + 1..].contains(p));
        }
    }
}

#[test]
fn a_quorum_needs_more_than_the_threshold() {
    let mut s = Snowball::with_colour(node(0), Colour::Red);
    let m = others(5, 0);
    s.run(&mut vec![Colour::Blue, Colour::Blue, Colour::Red, Colour::Red], &m);
    assert_eq!((s.col, s.lastcol, s.cnt, s.d.red, s.d.blue), (Colour::Red, Colour::Red, 0, 0, 0));
    s.run(&mut vec![Colour::Blue, Colour::Blue, Colour::Blue, Colour::Red], &m);
    assert_eq!((s.col, s.lastcol, s.cnt, s.d.red, s.d.blue), (Colour::Blue, Colour::Blue, 0, 0, 1));
}

#[test]
fn a_round_takes_the_votes_that_it_counts() {
    let mut votes = vec![Colour::Red, Colour::Blue, Colour::Red];
    assert_eq!(take_counted(&mut votes), vec![Colour::Red, Colour::Blue, Colour::Red]);
    assert!(votes.is_empty());
    let mut votes =
        vec![Colour::Red, Colour::Red, Colour::Red, Colour::Blue, Colour::Blue, Colour::Undecided];
    assert_eq!(
        take_counted(&mut votes),
        vec![Colour::Red, Colour::Red, Colour::Red, Colour::Blue]
    );
    assert_eq!(votes, vec![Colour::Blue, Colour::Undecided]);

    let m = others(5, 0);
    let mut s = Snowball::with_colour(node(0), Colour::Blue);
    let mut inbox = vec![Colour::Red; 4];
    inbox.extend(vec![Colour::Blue; 3]);
    s.run(&mut inbox, &m);
    assert_eq!(inbox, vec![Colour::Blue; 3]);
    assert_eq!((s.col, s.d.red, s.d.blue), (Colour::Red, 1, 0));
    s.run(&mut inbox, &m);
    assert!(inbox.is_empty());
    assert_eq!((s.col, s.lastcol, s.d.red, s.d.blue), (Colour::Red, Colour::Blue, 1, 1));
}

#[test]
fn a_node_that_does_not_take_part_leaves_the_votes() {
    let mut inbox = vec![Colour::Red; 6];
    let mut s = Snowball::with_colour(node(0), Colour::Undecided);
    s.run(&mut inbox, &others(6, 0));
    assert_eq!(inbox.len(), 6);
    let mut s = Snowball::with_colour(node(0), Colour::Red);
    s.run(&mut inbox, &others(4, 0));
    assert_eq!(inbox.len(), 6);
    let mut t = Slush::with_colour(node(0), Colour::Undecided);
    t.run(&mut inbox, &others(6, 0));
    assert_eq!(inbox.len(), 6);
    let mut t = Slush::with_colour(node(0), Colour::Blue);
    t.run(&mut inbox, &others(6, 0));
    assert_eq!(inbox.len(), 2);
    assert_eq!(t.col, Colour::Red);
}

#[test]
fn only_the_first_k_votes_count() {
    let mut s = Snowball::with_colour(node(0), Colour::Red);
    let m = others(5, 0);
    s.run(
        &mut vec![Colour::Red, Colour::Red, Colour::Blue, Colour::Blue, Colour::Blue, Colour::Blue],
        &m,
    );
    assert_eq!((s.col, s.cnt, s.d.red, s.d.blue), (Colour::Red, 0, 0, 0));
}

#[test]
fn confidence_decides_the_preference_and_a_streak_decides_the_node() {
    let mut s = Snowball::with_colour(node(0), Colour::Blue);
    let m = others(5, 0);
    let blue = vec![Colour::Blue, Colour::Blue, Colour::Blue, Colour::Red];
    let red = vec![Colour::Red; 4];
    // Two rounds for blue.
    s.run(&mut blue.clone(), &m);
    s.run(&mut blue.clone(), &m);
    assert_eq!((s.col, s.lastcol, s.cnt, s.d.red, s.d.blue), (Colour::Blue, Colour::Blue, 2, 0, 2));
    // Red carries two rounds: the streak starts over, the preference stays.
    s.run(&mut red.clone(), &m);
    assert_eq!((s.col, s.lastcol, s.cnt, s.d.red, s.d.blue), (Colour::Blue, Colour::Red, 0, 1, 2));
    s.run(&mut red.clone(), &m);
    assert_eq!((s.col, s.lastcol, s.cnt, s.d.red, s.d.blue), (Colour::Blue, Colour::Red, 1, 2, 2));
    // With the third, red is ahead and becomes the preference.
    let round = s.run(&mut red.clone(), &m);
    assert_eq!(round.col, Colour::Blue);
    assert_eq!((s.col, s.lastcol, s.cnt, s.d.red, s.d.blue), (Colour::Red, Colour::Red, 2, 3, 2));
    // The node decides when the streak exceeds eleven.
    for expected in 3..=11 {
        let round = s.run(&mut red.clone(), &m);
        assert!(!round.decided);
        assert_eq!(s.cnt, expected);
    }
    let round = s.run(&mut red.clone(), &m);
    assert!(round.decided);
    assert_eq!((s.col, s.cnt), (Colour::Red, 12));
    assert_eq!(round.peers.len(), 4);
}

#[test]
fn a_decided_node_stays_as_it_is() {
    let mut s = Snowball::with_colour(node(0), Colour::Red);
    let m = others(5, 0);
    for _ in 0..12 {
        s.run(&mut vec![Colour::Red; 4], &m);
    }
    assert_eq!((s.col, s.cnt, s.d.red), (Colour::Red, 12, 12));
    let round = s.run(&mut vec![Colour::Blue; 4], &m);
    assert!(round.decided);
    assert!(round.peers.is_empty());
    assert_eq!((s.col, s.lastcol, s.cnt, s.d.red, s.d.blue), (Colour::Red, Colour::Red, 12, 12, 0));
    assert_eq!(respond(s.handle_query(Colour::Blue)), Colour::Red);
}

#[test]
fn snowball_convergence() {
    // Five nodes that all know one another; K = 4, so each asks all others.
    let start = [Colour::Red, Colour::Red, Colour::Red, Colour::Blue, Colour::Undecided];
    let mut nodes: Vec<Snowball> = Vec::new();
    let mut views: Vec<Membership> = Vec::new();
    let mut inbox: Vec<Vec<Colour>> = Vec::new();
    for (i, col) in start.iter().enumerate() {
        nodes.push(Snowball::with_colour(node(i), *col));
        views.push(others(5, i));
        inbox.push(Vec::new());
    }
    let mut periods = 0;
    while periods < 50 && !nodes.iter().all(|n| n.cnt > B) {
        for i in 0..5 {
            let round = nodes[i].run(&mut inbox[i], &views[i]);
            for peer in round.peers {
                let j = (0..5).find(|j| node(*j) == peer).unwrap();
                let answer = nodes[j].handle_query(round.col);
                inbox[i].push(respond(answer));
            }
        }
        periods += 1;
    }
    assert!(periods < 50);
    for n in &nodes {
        assert_eq!(n.col, Colour::Red);
        assert!(n.cnt > B);
    }
}

#[test]
fn slush_quick_flip() {
    // Three nodes: red, blue, undecided. The undecided one ends up at the
    // colour that reaches it first, and answers with it.
    let mut undecided = Slush::with_colour(node(2), Colour::Undecided);
    let first = Slush::with_colour(node(1), Colour::Blue);
    let second = Slush::with_colour(node(0), Colour::Red);
    assert_eq!(respond(undecided.handle_query(first.col)), Colour::Blue);
    assert_eq!(undecided.col, Colour::Blue);
    assert_eq!(respond(undecided.handle_query(second.col)), Colour::Blue);
    let mut other = Slush::with_colour(node(2), Colour::Undecided);
    assert_eq!(respond(other.handle_query(second.col)), Colour::Red);
    assert_eq!(other.col, Colour::Red);
}

#[test]
fn slush_flips_whenever_a_colour_carries_a_round() {
    let mut s = Slush::with_colour(node(0), Colour::Red);
    let m = others(5, 0);
    let peers = s.run(&mut vec![Colour::Blue, Colour::Blue, Colour::Blue], &m);
    assert_eq!(peers.len(), 4);
    assert!(!peers.contains(&node(0)));
    assert_eq!(s.col, Colour::Blue);
    s.run(&mut vec![Colour::Red, Colour::Red, Colour::Blue, Colour::Blue], &m);
    assert_eq!(s.col, Colour::Blue);
    s.run(&mut vec![Colour::Red, Colour::Red, Colour::Red, Colour::Blue], &m);
    assert_eq!(s.col, Colour::Red);
}

#[test]
fn slush_does_not_sample_without_a_preference_or_with_too_few_peers() {
    let mut s = Slush::with_colour(node(0), Colour::Undecided);
    assert!(s.run(&mut vec![Colour::Red; 4], &others(6, 0)).is_empty());
    assert_eq!(s.col, Colour::Undecided);
    let mut t = Slush::with_colour(node(0), Colour::Blue);
    assert!(t.run(&mut vec![Colour::Red; 4], &others(4, 0)).is_empty());
    assert_eq!(t.col, Colour::Blue);
}
