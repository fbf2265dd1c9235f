//! Peer identities and the messages that peers exchange.

use crate::protocol::types::{colour_word, Colour};
use vstd::prelude::*;
use vstd::string::StringExecFns;
use vstd::std_specs::cmp::PartialEqSpecImpl;

verus! {

/// The identity of a peer: the text of its endpoint, `<ip>:<port>`.
///
/// Two addresses are the same peer exactly when their texts are equal.
#[derive(Debug, Eq, Hash, PartialOrd, Ord)]
pub struct NetAddr {
    inner: String,
}

impl View for NetAddr {
    type V = Seq<char>;

    closed spec fn view(&self) -> Seq<char> {
        self.inner@
    }
}

impl PartialEq for NetAddr {
    fn eq(&self, other: &NetAddr) -> (r: bool) {
        self.inner == other.inner
    }
}

impl PartialEqSpecImpl for NetAddr {
    open spec fn obeys_eq_spec() -> bool {
        true
    }

    open spec fn eq_spec(&self, other: &NetAddr) -> bool {
        self@ == other@
    }
}

impl Clone for NetAddr {
    fn clone(&self) -> (r: NetAddr)
        ensures
            r == *self,
    {
        NetAddr { inner: self.inner.clone() }
    }
}

impl NetAddr {
    /// The address whose text is `addr`.
    pub fn new(addr: String) -> (r: NetAddr)
        ensures
            r@ == addr@,
    {
        NetAddr { inner: addr }
    }

    /// The text of the endpoint.
    pub fn text(&self) -> (r: &String)
        ensures
            r@ == self@,
    {
        &self.inner
    }

    /// The address, giving up its text.
    pub fn into_text(self) -> (r: String)
        ensures
            r@ == self@,
    {
        self.inner
    }
}

/// What a gossip item says about the peer it names.
#[derive(Debug, Clone, Copy, Hash, PartialEq, Eq, Structural)]
pub enum GossipKind {
    Join,
    Alive,
    Suspect,
    Confirm,
}

/// A membership event, carried along with pings and acknowledgements.
#[derive(Debug, Eq, Hash, PartialOrd, Ord)]
pub enum Gossip {
    /// The peer has just joined.
    Join(NetAddr),
    /// The peer is known to be alive.
    Alive(NetAddr),
    /// The peer is suspected of having failed.
    Suspect(NetAddr),
    /// The peer is confirmed to have failed.
    Confirm(NetAddr),
}

/// A gossip item as a value: its kind and the text of the address it names.
pub struct GossipView {
    pub kind: GossipKind,
    pub addr: Seq<char>,
}

impl View for Gossip {
    type V = GossipView;

    open spec fn view(&self) -> GossipView {
        match self {
            Gossip::Join(a) => GossipView { kind: GossipKind::Join, addr: a@ },
            Gossip::Alive(a) => GossipView { kind: GossipKind::Alive, addr: a@ },
            Gossip::Suspect(a) => GossipView { kind: GossipKind::Suspect, addr: a@ },
            Gossip::Confirm(a) => GossipView { kind: GossipKind::Confirm, addr: a@ },
        }
    }
}

impl PartialEq for Gossip {
    fn eq(&self, other: &Gossip) -> (r: bool) {
        match (self, other) {
            (Gossip::Join(a), Gossip::Join(b)) => a == b,
            (Gossip::Alive(a), Gossip::Alive(b)) => a == b,
            (Gossip::Suspect(a), Gossip::Suspect(b)) => a == b,
            (Gossip::Confirm(a), Gossip::Confirm(b)) => a == b,
            _ => false,
        }
    }
}

impl PartialEqSpecImpl for Gossip {
    open spec fn obeys_eq_spec() -> bool {
        true
    }

    open spec fn eq_spec(&self, other: &Gossip) -> bool {
        self@ == other@
    }
}

impl Clone for Gossip {
    fn clone(&self) -> (r: Gossip)
        ensures
            r == *self,
    {
        match self {
            Gossip::Join(a) => Gossip::Join(a.clone()),
            Gossip::Alive(a) => Gossip::Alive(a.clone()),
            Gossip::Suspect(a) => Gossip::Suspect(a.clone()),
            Gossip::Confirm(a) => Gossip::Confirm(a.clone()),
        }
    }
}

impl Gossip {
    /// The item of the given kind about `addr`.
    pub fn from_parts(kind: GossipKind, addr: NetAddr) -> (g: Gossip)
        ensures
            g@ == (GossipView { kind, addr: addr@ }),
    {
        match kind {
            GossipKind::Join => Gossip::Join(addr),
            GossipKind::Alive => Gossip::Alive(addr),
            GossipKind::Suspect => Gossip::Suspect(addr),
            GossipKind::Confirm => Gossip::Confirm(addr),
        }
    }

    /// The item in words.
    pub fn describe(&self) -> (text: String)
        ensures
            text@ == gossip_text(self@),
    {
        let mut text = match self.kind() {
            GossipKind::Join => String::from_str("JOIN"),
            GossipKind::Alive => String::from_str("ALIVE"),
            GossipKind::Suspect => String::from_str("SUSPECT"),
            GossipKind::Confirm => String::from_str("CONFIRM"),
        };
        text.append("(");
        text.append(self.addr().text().as_str());
        text.append(")");
        text
    }

    /// What the item says.
    pub fn kind(&self) -> (k: GossipKind)
        ensures
            k == self@.kind,
    {
        match self {
            Gossip::Join(_) => GossipKind::Join,
            Gossip::Alive(_) => GossipKind::Alive,
            Gossip::Suspect(_) => GossipKind::Suspect,
            Gossip::Confirm(_) => GossipKind::Confirm,
        }
    }

    /// The peer that the item is about.
    pub fn addr(&self) -> (a: &NetAddr)
        ensures
            a@ == self@.addr,
    {
        match self {
            Gossip::Join(a) => a,
            Gossip::Alive(a) => a,
            Gossip::Suspect(a) => a,
            Gossip::Confirm(a) => a,
        }
    }
}

/// The word for a kind.
pub open spec fn kind_word(kind: GossipKind) -> Seq<char> {
    match kind {
        GossipKind::Join => "JOIN"@,
        GossipKind::Alive => "ALIVE"@,
        GossipKind::Suspect => "SUSPECT"@,
        GossipKind::Confirm => "CONFIRM"@,
    }
}

/// A gossip item in words: its kind, and the address in brackets, as in
/// `SUSPECT(127.0.0.1:7001)`.
pub open spec fn gossip_text(g: GossipView) -> Seq<char> {
    kind_word(g.kind) + "("@ + g.addr + ")"@
}

/// Gossip items in words, with a comma and a blank between them.
pub open spec fn gossip_texts(items: Seq<GossipView>) -> Seq<char>
    decreases items.len(),
{
    if items.len() == 0 {
        Seq::empty()
    } else if items.len() == 1 {
        gossip_text(items[0])
    } else {
        gossip_texts(items.drop_last()) + ", "@ + gossip_text(items.last())
    }
}

/// A list of gossip items in words, in square brackets.
pub open spec fn gossip_list_text(items: Seq<GossipView>) -> Seq<char> {
    "["@ + gossip_texts(items) + "]"@
}

/// A request in words, as in `PING-REQ(127.0.0.1:7001,127.0.0.1:7003)`.
pub open spec fn request_text(r: RequestView) -> Seq<char> {
    match r {
        RequestView::Join(a) => "JOIN("@ + a + ")"@,
        RequestView::Ping(a, items) => "PING("@ + a + ","@ + gossip_list_text(items) + ")"@,
        RequestView::PingReq(a, b) => "PING-REQ("@ + a + ","@ + b + ")"@,
        RequestView::Query(a, c) => "QUERY("@ + a + ","@ + colour_word(c) + ")"@,
    }
}

/// A response in words, as in `RESPOND(Red)`.
pub open spec fn response_text(r: ResponseView) -> Seq<char> {
    match r {
        ResponseView::Join(a) => "JOIN("@ + a + ")"@,
        ResponseView::Ack(items) => "ACK("@ + gossip_list_text(items) + ")"@,
        ResponseView::Respond(c) => "RESPOND("@ + colour_word(c) + ")"@,
    }
}

/// A list of gossip items in words.
pub fn describe_gossip_vec(items: &Vec<Gossip>) -> (text: String)
    ensures
        text@ == gossip_list_text(gossip_views(items@)),
{
    let ghost views = gossip_views(items@);
    let mut text = String::from_str("[");
    let mut i: usize = 0;
    proof {
        assert(views.take(0) =~= Seq::<GossipView>::empty());
        assert("["@ + gossip_texts(views.take(0)) =~= "["@);
    }
    while i < items.len()
        invariant
            i <= items.len(),
            views == gossip_views(items@),
            text@ == "["@ + gossip_texts(views.take(i as int)),
        decreases items.len() - i,
    {
        let ghost before = text@;
        if i > 0 {
            text.append(", ");
        }
        let item = items[i].describe();
        text.append(item.as_str());
        proof {
            let head = views.take(i as int);
            let next = views.take(i + 1);
            assert(next.drop_last() =~= head);
            assert(next.last() == views[i as int]);
            if i == 0 {
                assert(text@ =~= "["@ + gossip_texts(next));
            } else {
                assert(text@ =~= "["@ + gossip_texts(next));
            }
        }
        i = i + 1;
    }
    proof {
        assert(views.take(i as int) =~= views);
    }
    text.append("]");
    text
}

/// The views of a list of gossip items, in order.
pub open spec fn gossip_views(items: Seq<Gossip>) -> Seq<GossipView> {
    items.map_values(|g: Gossip| g@)
}

/// The texts of a list of addresses, in order.
pub open spec fn addr_views(addrs: Seq<NetAddr>) -> Seq<Seq<char>> {
    addrs.map_values(|a: NetAddr| a@)
}

/// A copy of `items`.
pub fn clone_gossip_vec(items: &Vec<Gossip>) -> (r: Vec<Gossip>)
    ensures
        r@ == items@,
{
    let mut r: Vec<Gossip> = Vec::new();
    let mut i: usize = 0;
    while i < items.len()
        invariant
            i <= items.len(),
            r@ == items@.take(i as int),
        decreases items.len() - i,
    {
        r.push(items[i].clone());
        assert(r@ =~= items@.take(i + 1));
        i = i + 1;
    }
    assert(r@ =~= items@);
    r
}

/// What one peer asks of another.
#[derive(Debug)]
pub enum Request {
    /// The sender asks to be admitted; it names itself.
    Join(NetAddr),
    /// A direct probe from the named sender, with gossip attached.
    Ping(NetAddr, Vec<Gossip>),
    /// The first peer asks the receiver to probe the second on its behalf.
    PingReq(NetAddr, NetAddr),
    /// The named sender asks for the receiver's colour and tells its own.
    Query(NetAddr, Colour),
}

/// What a peer answers.
#[derive(Debug)]
pub enum Response {
    /// The answer to an admitted `Join`: the responder names itself.
    Join(NetAddr),
    /// The answer to a probe, with gossip attached.
    Ack(Vec<Gossip>),
    /// The answer to a `Query`: the responder's colour.
    Respond(Colour),
}

/// A request as a value.
pub enum RequestView {
    Join(Seq<char>),
    Ping(Seq<char>, Seq<GossipView>),
    PingReq(Seq<char>, Seq<char>),
    Query(Seq<char>, Colour),
}

/// A response as a value.
pub enum ResponseView {
    Join(Seq<char>),
    Ack(Seq<GossipView>),
    Respond(Colour),
}

impl View for Request {
    type V = RequestView;

    open spec fn view(&self) -> RequestView {
        match self {
            Request::Join(a) => RequestView::Join(a@),
            Request::Ping(a, g) => RequestView::Ping(a@, gossip_views(g@)),
            Request::PingReq(a, b) => RequestView::PingReq(a@, b@),
            Request::Query(a, c) => RequestView::Query(a@, *c),
        }
    }
}

impl View for Response {
    type V = ResponseView;

    open spec fn view(&self) -> ResponseView {
        match self {
            Response::Join(a) => ResponseView::Join(a@),
            Response::Ack(g) => ResponseView::Ack(gossip_views(g@)),
            Response::Respond(c) => ResponseView::Respond(*c),
        }
    }
}

impl Request {
    /// The request in words.
    pub fn describe(&self) -> (text: String)
        ensures
            text@ == request_text(self@),
    {
        match self {
            Request::Join(a) => {
                let mut text = String::from_str("JOIN(");
                text.append(a.text().as_str());
                text.append(")");
                text
            },
            Request::Ping(a, items) => {
                let mut text = String::from_str("PING(");
                text.append(a.text().as_str());
                text.append(",");
                text.append(describe_gossip_vec(items).as_str());
                text.append(")");
                text
            },
            Request::PingReq(a, b) => {
                let mut text = String::from_str("PING-REQ(");
                text.append(a.text().as_str());
                text.append(",");
                text.append(b.text().as_str());
                text.append(")");
                text
            },
            Request::Query(a, c) => {
                let mut text = String::from_str("QUERY(");
                text.append(a.text().as_str());
                text.append(",");
                text.append(c.name().as_str());
                text.append(")");
                text
            },
        }
    }
}

impl Response {
    /// The response in words.
    pub fn describe(&self) -> (text: String)
        ensures
            text@ == response_text(self@),
    {
        match self {
            Response::Join(a) => {
                let mut text = String::from_str("JOIN(");
                text.append(a.text().as_str());
                text.append(")");
                text
            },
            Response::Ack(items) => {
                let mut text = String::from_str("ACK(");
                text.append(describe_gossip_vec(items).as_str());
                text.append(")");
                text
            },
            Response::Respond(c) => {
                let mut text = String::from_str("RESPOND(");
                text.append(c.name().as_str());
                text.append(")");
                text
            },
        }
    }
}

impl Clone for Request {
    fn clone(&self) -> (r: Request)
        ensures
            r@ == self@,
    {
        match self {
            Request::Join(a) => Request::Join(a.clone()),
            Request::Ping(a, g) => Request::Ping(a.clone(), clone_gossip_vec(g)),
            Request::PingReq(a, b) => Request::PingReq(a.clone(), b.clone()),
            Request::Query(a, c) => Request::Query(a.clone(), *c),
        }
    }
}

impl Clone for Response {
    fn clone(&self) -> (r: Response)
        ensures
            r@ == self@,
    {
        match self {
            Response::Join(a) => Response::Join(a.clone()),
            Response::Ack(g) => Response::Ack(clone_gossip_vec(g)),
            Response::Respond(c) => Response::Respond(*c),
        }
    }
}

} // verus!
