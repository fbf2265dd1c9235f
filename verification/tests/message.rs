use swim::message::{describe_gossip_vec, clone_gossip_vec, Gossip, GossipKind, NetAddr, Request, Response};
use swim::protocol::types::Colour;

fn addr(text: &str) -> NetAddr {
    NetAddr::new(text.to_string())
}

#[test]
fn an_address_is_its_text() {
    let a = addr("127.0.0.1:7001");
    assert_eq!(a.text(), "127.0.0.1:7001");
    assert_eq!(a.clone(), a);
    assert_eq!(a.clone().into_text(), "127.0.0.1:7001");
    assert!(a == addr("127.0.0.1:7001"));
    assert!(a != addr("127.0.0.1:7002"));
    assert!(a < addr("127.0.0.1:7002"));
}

#[test]
fn gossip_items_are_equal_by_kind_and_address() {
    let a = addr("a:1");
    assert_eq!(Gossip::Join(a.clone()), Gossip::Join(addr("a:1")));
    assert_ne!(Gossip::Join(a.clone()), Gossip::Alive(a.clone()));
    assert_ne!(Gossip::Suspect(a.clone()), Gossip::Suspect(addr("a:2")));
    assert_eq!(Gossip::Confirm(a.clone()).clone(), Gossip::Confirm(a.clone()));
}

#[test]
fn gossip_items_from_their_parts() {
    let a = addr("a:1");
    for kind in [GossipKind::Join, GossipKind::Alive, GossipKind::Suspect, GossipKind::Confirm] {
        let g = Gossip::from_parts(kind, a.clone());
        assert_eq!(g.kind(), kind);
        assert_eq!(*g.addr(), a);
    }
    assert_eq!(Gossip::from_parts(GossipKind::Suspect, a.clone()), Gossip::Suspect(a));
}

#[test]
fn a_copy_of_a_list_of_gossip() {
    let list = vec![Gossip::Join(addr("a:1")), Gossip::Confirm(addr("b:2"))];
    assert_eq!(clone_gossip_vec(&list), list);
    assert_eq!(clone_gossip_vec(&vec![]), Vec::<Gossip>::new());
}

#[test]
fn gossip_in_words() {
    assert_eq!(Gossip::Join(addr("127.0.0.1:7001")).describe(), "JOIN(127.0.0.1:7001)");
    assert_eq!(Gossip::Alive(addr("a:1")).describe(), "ALIVE(a:1)");
    assert_eq!(Gossip::Suspect(addr("a:1")).describe(), "SUSPECT(a:1)");
    assert_eq!(Gossip::Confirm(addr("a:1")).describe(), "CONFIRM(a:1)");
    assert_eq!(describe_gossip_vec(&vec![]), "[]");
    assert_eq!(describe_gossip_vec(&vec![Gossip::Join(addr("a:1"))]), "[JOIN(a:1)]");
    assert_eq!(
        describe_gossip_vec(&vec![
            Gossip::Join(addr("a:1")),
            Gossip::Alive(addr("b:2")),
            Gossip::Confirm(addr("c:3"))
        ]),
        "[JOIN(a:1), ALIVE(b:2), CONFIRM(c:3)]"
    );
}

#[test]
fn colours_in_words() {
    assert_eq!(Colour::Undecided.name(), "Undecided");
    assert_eq!(Colour::Red.name(), "Red");
    assert_eq!(Colour::Blue.name(), "Blue");
}

#[test]
fn requests_in_words() {
    assert_eq!(Request::Join(addr("a:1")).describe(), "JOIN(a:1)");
    assert_eq!(
        Request::Ping(addr("a:1"), vec![Gossip::Suspect(addr("c:3")), Gossip::Join(addr("b:2"))])
            .describe(),
        "PING(a:1,[SUSPECT(c:3), JOIN(b:2)])"
    );
    assert_eq!(Request::PingReq(addr("a:1"), addr("c:3")).describe(), "PING-REQ(a:1,c:3)");
    assert_eq!(Request::Query(addr("a:1"), Colour::Red).describe(), "QUERY(a:1,Red)");
}

#[test]
fn responses_in_words() {
    assert_eq!(Response::Join(addr("a:1")).describe(), "JOIN(a:1)");
    assert_eq!(Response::Ack(vec![]).describe(), "ACK([])");
    assert_eq!(Response::Ack(vec![Gossip::Alive(addr("b:2"))]).describe(), "ACK([ALIVE(b:2)])");
    assert_eq!(Response::Respond(Colour::Blue).describe(), "RESPOND(Blue)");
}

#[test]
fn messages_are_copied_whole() {
    let request = Request::Ping(addr("a:1"), vec![Gossip::Join(addr("b:2"))]);
    assert_eq!(request.clone().describe(), request.describe());
    let response = Response::Ack(vec![Gossip::Join(addr("b:2")), Gossip::Alive(addr("c:3"))]);
    assert_eq!(response.clone().describe(), response.describe());
}
