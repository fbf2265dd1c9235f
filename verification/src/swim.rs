//! The failure detector: what a node does on each request, answer, timeout
//! and protocol period.
//!
//! Every function here decides; none sends or waits. A request is handed
//! in as a value and the answer comes back as one. Where a message must go
//! out, the function names the peer and the message, and the caller reports
//! later what came of it: the answer, or that none came in time.

use crate::cache::{cancelled, expired_addrs, running, started, CacheView, TimeoutCache};
use crate::constants::{gossip_budget, MINIMUM_MEMBERS};
use crate::dissemination::{acquired, is_batch, observed, Dissemination};
use crate::membership::{
    candidates, is_sweep_step, joined, lemma_candidates_left, marked, Membership, State,
};
use crate::message::{
    addr_views, gossip_views, Gossip, GossipKind, GossipView, NetAddr, Request, RequestView,
    Response, ResponseView,
};
use crate::protocol::snowball::{decided, is_round, votes_after, Round, Snowball};
use crate::protocol::types::Colour;
use vstd::prelude::*;

verus! {

/// The state of a node as a value.
pub struct SwimView {
    /// The node's own address.
    pub addr: Seq<char>,
    /// The known peers with their states.
    pub members: Map<Seq<char>, State>,
    /// The rest of the round-robin sweep of probe targets.
    pub sweep: Seq<Seq<char>>,
    /// The gossip items that wait, with their counts.
    pub gossip: Map<GossipView, nat>,
    /// The pending timers.
    pub timers: CacheView,
}

/// Whether the node does not list itself among its peers.
pub open spec fn self_excluded(s: SwimView) -> bool {
    !s.members.contains_key(s.addr)
}

/// Whether applying `g` admits a peer to whom the node must then introduce
/// itself.
pub open spec fn admits(s: SwimView, g: GossipView) -> bool {
    g.kind == GossipKind::Join && g.addr != s.addr && !s.members.contains_key(g.addr)
}

/// The state after the gossip item `g` has been applied at clock reading
/// `now`.
///
/// An item about the node itself is ignored. `Join` admits an unknown peer
/// and is passed on; about a known peer it changes nothing. `Alive` and
/// `Suspect` mark a known peer, are passed on, and stop or start the peer's
/// suspicion timer; the timer of an unknown peer is not started. `Confirm`
/// removes the peer and is passed on.
pub open spec fn applied(s: SwimView, g: GossipView, now: u64) -> SwimView {
    if g.addr == s.addr {
        s
    } else {
        match g.kind {
            GossipKind::Join => if s.members.contains_key(g.addr) {
                s
            } else {
                SwimView {
                    members: joined(s.members, g.addr),
                    gossip: observed(s.gossip, g),
                    ..s
                }
            },
            GossipKind::Alive => SwimView {
                members: marked(s.members, g.addr, State::Alive),
                gossip: observed(s.gossip, g),
                timers: CacheView { suspect: cancelled(s.timers.suspect, g.addr), ..s.timers },
                ..s
            },
            GossipKind::Suspect => SwimView {
                members: marked(s.members, g.addr, State::Suspected),
                gossip: observed(s.gossip, g),
                timers: if s.members.contains_key(g.addr) {
                    CacheView {
                        suspect: started(s.timers.suspect, g.addr, None, now),
                        ..s.timers
                    }
                } else {
                    s.timers
                },
                ..s
            },
            GossipKind::Confirm => SwimView {
                members: s.members.remove(g.addr),
                gossip: observed(s.gossip, g),
                ..s
            },
        }
    }
}

/// The state after the items of `items` have been applied in order.
pub open spec fn applied_all(s: SwimView, items: Seq<GossipView>, now: u64) -> SwimView
    decreases items.len(),
{
    if items.len() == 0 {
        s
    } else {
        applied(applied_all(s, items.drop_last(), now), items.last(), now)
    }
}

/// The peers that are admitted while the items of `items` are applied in
/// order, in the order of their admission.
pub open spec fn admitted(s: SwimView, items: Seq<GossipView>, now: u64) -> Seq<Seq<char>>
    decreases items.len(),
{
    if items.len() == 0 {
        Seq::empty()
    } else if admits(applied_all(s, items.drop_last(), now), items.last()) {
        admitted(s, items.drop_last(), now).push(items.last().addr)
    } else {
        admitted(s, items.drop_last(), now)
    }
}

/// The state after a batch of gossip has been taken for an outgoing
/// message.
pub open spec fn drawn(s: SwimView) -> SwimView {
    SwimView { gossip: acquired(s.gossip, gossip_budget(s.members.len())), ..s }
}

/// Whether `items` is the batch that a node in state `s` attaches to its
/// next message.
pub open spec fn is_batch_of(items: Seq<GossipView>, s: SwimView) -> bool {
    is_batch(items, s.gossip, gossip_budget(s.members.len()))
}

/// Whether `message` is the probe of a node in state `s`: it names the node
/// and carries the node's next batch.
pub open spec fn is_ping_of(message: RequestView, s: SwimView) -> bool {
    match message {
        RequestView::Ping(from, items) => from == s.addr && is_batch_of(items, s),
        _ => false,
    }
}

/// Whether `response` is the acknowledgement of a node in state `s`: it
/// carries the node's next batch.
pub open spec fn is_ack_of(response: ResponseView, s: SwimView) -> bool {
    match response {
        ResponseView::Ack(items) => is_batch_of(items, s),
        _ => false,
    }
}

/// The state after the failure of each peer of `addrs` has been confirmed:
/// the peer is removed and its `Confirm` item is passed on.
pub open spec fn confirmed(s: SwimView, addrs: Seq<Seq<char>>) -> SwimView
    decreases addrs.len(),
{
    if addrs.len() == 0 {
        s
    } else {
        let before = confirmed(s, addrs.drop_last());
        SwimView {
            members: before.members.remove(addrs.last()),
            gossip: observed(
                before.gossip,
                GossipView { kind: GossipKind::Confirm, addr: addrs.last() },
            ),
            ..before
        }
    }
}

/// Confirming failures touches the peers and the gossip only.
pub proof fn lemma_confirmed_keeps(s: SwimView, addrs: Seq<Seq<char>>)
    ensures
        confirmed(s, addrs).addr == s.addr,
        confirmed(s, addrs).sweep == s.sweep,
        confirmed(s, addrs).timers == s.timers,
    decreases addrs.len(),
{
    if addrs.len() > 0 {
        lemma_confirmed_keeps(s, addrs.drop_last());
    }
}

/// The state after the timers that have expired at `now` have been drained
/// and the suspicions among them confirmed.
pub open spec fn purged(s: SwimView, now: u64) -> SwimView {
    confirmed(
        SwimView {
            timers: CacheView {
                ack: running(s.timers.ack, now),
                indirect_ack: running(s.timers.indirect_ack, now),
                probe: running(s.timers.probe, now),
                suspect: running(s.timers.suspect, now),
                query: running(s.timers.query, now),
            },
            ..s
        },
        expired_addrs(s.timers.suspect, now),
    )
}

/// The state after a suspicion timer has been started for `addr`.
pub open spec fn suspected(s: SwimView, addr: Seq<char>, now: u64) -> SwimView {
    SwimView {
        timers: CacheView { suspect: started(s.timers.suspect, addr, None, now), ..s.timers },
        ..s
    }
}

/// Whether a node in state `s` admits `peer` when the peer asks to join, or
/// when a seed names itself as `peer`: the peer is unknown, and it is not the
/// node itself.
pub open spec fn welcomes(s: SwimView, peer: Seq<char>) -> bool {
    peer != s.addr && !s.members.contains_key(peer)
}

/// The state after the request of `peer` to join has been handled. A node
/// does not admit itself, and a known peer stays as it is.
pub open spec fn welcomed(s: SwimView, peer: Seq<char>) -> SwimView {
    if !welcomes(s, peer) {
        s
    } else {
        SwimView {
            members: joined(s.members, peer),
            gossip: observed(s.gossip, GossipView { kind: GossipKind::Join, addr: peer }),
            ..s
        }
    }
}

/// Self-exclusion. A node that does not list itself among its peers does not
/// come to list itself: not by gossip, whatever the items say, not by a
/// request to join or a seed's answer, whomever they name, not by taking a
/// batch, and not by a timer.
pub proof fn law_self_exclusion(
    s: SwimView,
    items: Seq<GossipView>,
    peer: Seq<char>,
    suspect: Seq<char>,
    now: u64,
)
    requires
        self_excluded(s),
    ensures
        self_excluded(applied_all(s, items, now)),
        self_excluded(welcomed(s, peer)),
        self_excluded(drawn(s)),
        self_excluded(suspected(s, suspect, now)),
        self_excluded(purged(s, now)),
{
    lemma_applied_all_keeps_out(s, items, s.addr, now);
    lemma_purged_members(s, now, s.addr);
}

/// Applying gossip leaves the node's address as it is, and admits no peer
/// that no `Join` item names.
pub proof fn lemma_applied_all_keeps_out(
    s: SwimView,
    items: Seq<GossipView>,
    addr: Seq<char>,
    now: u64,
)
    requires
        !s.members.contains_key(addr),
        addr == s.addr || forall|i: int|
            0 <= i < items.len() ==> !((#[trigger] items[i]).kind == GossipKind::Join
                && items[i].addr == addr),
    ensures
        applied_all(s, items, now).addr == s.addr,
        !applied_all(s, items, now).members.contains_key(addr),
    decreases items.len(),
{
    if items.len() > 0 {
        let head = items.drop_last();
        assert(addr == s.addr || forall|i: int|
            0 <= i < head.len() ==> !((#[trigger] head[i]).kind == GossipKind::Join
                && head[i].addr == addr)) by {
            if addr != s.addr {
                assert forall|i: int| 0 <= i < head.len() implies !((#[trigger] head[i]).kind
                    == GossipKind::Join && head[i].addr == addr) by {
                    assert(head[i] == items[i]);
                }
            }
        }
        lemma_applied_all_keeps_out(s, head, addr, now);
        if addr != s.addr {
            assert(!(items[items.len() - 1].kind == GossipKind::Join && items[items.len()
                - 1].addr == addr));
        }
    }
}

/// Draining the timers admits no peer.
pub proof fn lemma_purged_members(s: SwimView, now: u64, addr: Seq<char>)
    requires
        !s.members.contains_key(addr),
    ensures
        !purged(s, now).members.contains_key(addr),
        purged(s, now).addr == s.addr,
{
    let drained = SwimView {
        timers: CacheView {
            ack: running(s.timers.ack, now),
            indirect_ack: running(s.timers.indirect_ack, now),
            probe: running(s.timers.probe, now),
            suspect: running(s.timers.suspect, now),
            query: running(s.timers.query, now),
        },
        ..s
    };
    lemma_confirmed_members(drained, expired_addrs(s.timers.suspect, now), addr);
    lemma_confirmed_keeps(drained, expired_addrs(s.timers.suspect, now));
}

/// Confirming failures admits no peer, removes every peer whose failure is
/// confirmed, and passes its `Confirm` item on.
pub proof fn lemma_confirmed_members(s: SwimView, addrs: Seq<Seq<char>>, addr: Seq<char>)
    ensures
        !s.members.contains_key(addr) ==> !confirmed(s, addrs).members.contains_key(addr),
        addrs.contains(addr) ==> !confirmed(s, addrs).members.contains_key(addr) && confirmed(
            s,
            addrs,
        ).gossip.contains_key(GossipView { kind: GossipKind::Confirm, addr }),
        forall|g: GossipView|
            s.gossip.contains_key(g) ==> #[trigger] confirmed(s, addrs).gossip.contains_key(g),
    decreases addrs.len(),
{
    if addrs.len() > 0 {
        let head = addrs.drop_last();
        lemma_confirmed_members(s, head, addr);
        if addrs.contains(addr) && addrs.last() != addr {
            let k = choose|k: int| 0 <= k < addrs.len() && addrs[k] == addr;
            assert(head[k] == addr);
        }
    }
}

/// Monotone confirmation. Once the failure of a peer has been confirmed, the
/// peer stays unknown whatever gossip follows, `Alive` and `Suspect` items
/// about it included, until a `Join` item names it.
///
/// A node ignores the confirmation of its own failure, so the peer is taken
/// to be another node, or the node not to list itself.
pub proof fn law_confirm_is_monotone(
    s: SwimView,
    addr: Seq<char>,
    items: Seq<GossipView>,
    now: u64,
)
    requires
        addr != s.addr || self_excluded(s),
        forall|i: int|
            0 <= i < items.len() ==> !((#[trigger] items[i]).kind == GossipKind::Join
                && items[i].addr == addr),
    ensures
        !applied(s, GossipView { kind: GossipKind::Confirm, addr }, now).members.contains_key(
            addr,
        ),
        !applied_all(
            applied(s, GossipView { kind: GossipKind::Confirm, addr }, now),
            items,
            now,
        ).members.contains_key(addr),
{
    let after = applied(s, GossipView { kind: GossipKind::Confirm, addr }, now);
    lemma_applied_all_keeps_out(after, items, addr, now);
}

/// Only joining admits. No step other than the taking in of a `Join` item,
/// of a request to join or of a seed's answer makes a peer known.
pub proof fn law_only_joins_admit(
    s: SwimView,
    g: GossipView,
    suspect: Seq<char>,
    addr: Seq<char>,
    now: u64,
)
    requires
        !s.members.contains_key(addr),
        !(g.kind == GossipKind::Join && g.addr == addr),
    ensures
        !applied(s, g, now).members.contains_key(addr),
        !drawn(s).members.contains_key(addr),
        !suspected(s, suspect, now).members.contains_key(addr),
        !purged(s, now).members.contains_key(addr),
{
    lemma_purged_members(s, now, addr);
}

/// Escalation ends in confirmation. When the suspicion timer of a peer
/// expires, draining the timers names the peer once, removes it from the
/// known peers, passes its `Confirm` item on, and leaves no suspicion timer
/// pending for it.
pub proof fn law_expiry_confirms(s: SwimView, timer: crate::cache::TimerView, now: u64)
    requires
        crate::cache::one_each(s.timers.suspect),
        s.timers.suspect.contains(timer),
        crate::cache::expired(timer, now),
    ensures
        expired_addrs(s.timers.suspect, now).contains(timer.addr),
        expired_addrs(s.timers.suspect, now).no_duplicates(),
        !purged(s, now).members.contains_key(timer.addr),
        purged(s, now).gossip.contains_key(
            GossipView { kind: GossipKind::Confirm, addr: timer.addr },
        ),
        !crate::cache::pending(purged(s, now).timers.suspect, timer.addr),
{
    let timers = s.timers.suspect;
    let go = |t: crate::cache::TimerView| crate::cache::expired(t, now);
    let stay = |t: crate::cache::TimerView| !crate::cache::expired(t, now);
    let gone = crate::cache::kept(timers, go);
    let addrs = expired_addrs(timers, now);
    crate::cache::lemma_kept(timers, go);
    crate::cache::lemma_kept(timers, stay);
    assert(gone.contains(timer));
    let k = choose|k: int| 0 <= k < gone.len() && gone[k] == timer;
    assert(addrs[k] == timer.addr);
    assert forall|i: int, j: int| 0 <= i < addrs.len() && 0 <= j < addrs.len() && i != j implies addrs[i]
        != addrs[j] by {
        assert(gone[i].addr != gone[j].addr);
    }
    let drained = SwimView {
        timers: CacheView {
            ack: running(s.timers.ack, now),
            indirect_ack: running(s.timers.indirect_ack, now),
            probe: running(s.timers.probe, now),
            suspect: running(s.timers.suspect, now),
            query: running(s.timers.query, now),
        },
        ..s
    };
    lemma_confirmed_members(drained, addrs, timer.addr);
    lemma_confirmed_keeps(drained, addrs);
    let left = running(timers, now);
    if crate::cache::pending(left, timer.addr) {
        let i = choose|i: int| 0 <= i < left.len() && (#[trigger] left[i]).addr == timer.addr;
        assert(left.contains(left[i]));
        let a = choose|a: int| 0 <= a < timers.len() && timers[a] == left[i];
        let b = choose|b: int| 0 <= b < timers.len() && timers[b] == timer;
        assert(timers[a].addr == timers[b].addr);
        assert(a == b);
    }
}

/// A message and the peer it goes to.
pub struct Outbound {
    pub to: NetAddr,
    pub message: Request,
}

/// What a node does about a request to probe a peer on another's behalf.
pub enum PingReqStep {
    /// The node is the peer in question: it answers at once.
    Reply(Response),
    /// The node probes the peer; the answer to the probe, if one comes in
    /// time, goes back to the node that asked.
    Probe(Outbound),
}

/// The answer to a probe, and the peers to whom the node must introduce
/// itself because the probe's gossip made them known.
pub struct PingReply {
    pub response: Response,
    pub joins: Vec<NetAddr>,
}

/// What a protocol period asks of the caller.
pub struct Tick {
    /// The probe to send, if the node probes in this period.
    pub ping: Option<Outbound>,
    /// The consensus round, if the node probes in this period.
    pub round: Option<Round>,
    /// The peers whose failure was confirmed in this period.
    pub failed: Vec<NetAddr>,
}

/// One node of the cluster: what it knows of its peers, the gossip that it
/// has to pass on, and its pending timers.
pub struct Swim {
    /// The node's own address.
    pub addr: NetAddr,
    delay: Option<u64>,
    membership: Membership,
    dissemination: Dissemination,
    timeout_cache: TimeoutCache,
}

impl View for Swim {
    type V = SwimView;

    closed spec fn view(&self) -> SwimView {
        SwimView {
            addr: self.addr@,
            members: self.membership@,
            sweep: self.membership.sweep(),
            gossip: self.dissemination@,
            timers: self.timeout_cache@,
        }
    }
}

impl Swim {
    /// The parts of the node are in order, and the node does not list
    /// itself among its peers.
    pub closed spec fn wf(&self) -> bool {
        &&& self.dissemination.wf()
        &&& self.timeout_cache.wf()
        &&& !self.membership@.contains_key(self.addr@)
    }

    /// A node never lists itself among its peers.
    pub proof fn lemma_self_excluded(&self)
        requires
            self.wf(),
        ensures
            self_excluded(self@),
    {
    }

    /// A node that knows no peer. `delay` is an artificial latency in
    /// milliseconds that the caller may add to its handling of requests.
    pub fn new(addr: NetAddr, delay: Option<u64>) -> (swim: Swim)
        ensures
            swim.wf(),
            swim@ == (SwimView {
                addr: addr@,
                members: Map::empty(),
                sweep: Seq::empty(),
                gossip: Map::empty(),
                timers: CacheView {
                    ack: Seq::empty(),
                    indirect_ack: Seq::empty(),
                    probe: Seq::empty(),
                    suspect: Seq::empty(),
                    query: Seq::empty(),
                },
            }),
            swim.delay() == delay,
    {
        Swim {
            addr,
            delay,
            membership: Membership::new(),
            dissemination: Dissemination::new(),
            timeout_cache: TimeoutCache::new(),
        }
    }

    /// The artificial latency, in milliseconds.
    pub closed spec fn delay(&self) -> Option<u64> {
        self.delay
    }

    /// The artificial latency, in milliseconds.
    pub fn latency(&self) -> (delay: Option<u64>)
        ensures
            delay == self.delay(),
    {
        self.delay
    }

    /// The number of known peers.
    pub fn member_count(&self) -> (n: usize)
        ensures
            self@.members.dom().finite(),
            n == self@.members.len(),
    {
        self.membership.len()
    }

    /// The state of `addr`, or `None` when the peer is not known.
    pub fn member_state(&self, addr: &NetAddr) -> (state: Option<State>)
        ensures
            state == if self@.members.contains_key(addr@) {
                Some(self@.members[addr@])
            } else {
                None::<State>
            },
    {
        self.membership.get(addr)
    }

    /// The known peers.
    pub fn membership(&self) -> (membership: &Membership)
        ensures
            membership@ == self@.members,
            membership.sweep() == self@.sweep,
    {
        &self.membership
    }

    /// The gossip items that wait.
    pub fn dissemination(&self) -> (dissemination: &Dissemination)
        ensures
            dissemination@ == self@.gossip,
            self.wf() ==> dissemination.wf(),
    {
        &self.dissemination
    }

    /// The pending timers.
    pub fn timeout_cache(&self) -> (cache: &TimeoutCache)
        ensures
            cache@ == self@.timers,
            self.wf() ==> cache.wf(),
    {
        &self.timeout_cache
    }

    /// The request by which the node asks the seed to admit it.
    pub fn send_bootstrap_join(&self) -> (message: Request)
        ensures
            message@ == RequestView::Join(self@.addr),
    {
        Request::Join(self.addr.clone())
    }

    /// Takes in the seed's answer: the seed that names itself is admitted,
    /// and its joining is passed on. Any other answer changes nothing, and so
    /// does an answer that names this node or a known peer.
    pub fn handle_bootstrap_response(&mut self, response: Response)
        requires
            old(self).wf(),
        ensures
            final(self).wf(),
            final(self)@ == (match response@ {
                ResponseView::Join(peer) => welcomed(old(self)@, peer),
                _ => old(self)@,
            }),
    {
        if let Response::Join(peer_addr) = response {
            if peer_addr != self.addr && self.membership.process_join(peer_addr.clone()) {
                self.dissemination.gossip_join(peer_addr);
            }
        }
    }

    /// The request by which the node introduces itself to a peer that it
    /// has just come to know.
    pub fn request_self_join(&self) -> (message: Request)
        ensures
            message@ == RequestView::Join(self@.addr),
    {
        Request::Join(self.addr.clone())
    }

    /// The answer by which the node names itself to a peer that it has
    /// admitted.
    pub fn send_self_join(&self) -> (message: Response)
        ensures
            message@ == ResponseView::Join(self@.addr),
    {
        Response::Join(self.addr.clone())
    }

    /// The probe for `peer_addr`, with the next batch of gossip attached.
    pub fn send_ping(&mut self, peer_addr: NetAddr) -> (out: Outbound)
        requires
            old(self).wf(),
        ensures
            final(self).wf(),
            final(self)@ == drawn(old(self)@),
            out.to@ == peer_addr@,
            is_ping_of(out.message@, old(self)@),
    {
        let gossip = self.dissemination.acquire_gossip(&self.membership);
        Outbound { to: peer_addr, message: Request::Ping(self.addr.clone(), gossip) }
    }

    /// What to do when a probe of `suspect_addr` was not answered in time:
    /// ask one other peer, picked at random, to probe it. Nothing goes out
    /// when the node knows no peer other than the suspect.
    pub fn send_ping_req(&self, suspect_addr: NetAddr) -> (out: Option<Outbound>)
        ensures
            out.is_some() == (candidates(
                self@.members,
                seq![self@.addr, suspect_addr@],
            ).len() > 0),
            out matches Some(o) ==> (candidates(
                self@.members,
                seq![self@.addr, suspect_addr@],
            ).contains(o.to@) && o.message@ == RequestView::PingReq(self@.addr, suspect_addr@)),
    {
        let mut exclude: Vec<NetAddr> = Vec::new();
        exclude.push(self.addr.clone());
        exclude.push(suspect_addr.clone());
        assert(addr_views(exclude@) =~= seq![self@.addr, suspect_addr@]);
        if self.membership.candidate_count(&exclude) == 0 {
            return None;
        }
        let mut members = self.membership.sample(1, exclude);
        let ghost picked = addr_views(members@);
        let proxy = members.remove(0);
        assert(picked.to_set().contains(picked[0]));
        Some(Outbound { to: proxy, message: Request::PingReq(self.addr.clone(), suspect_addr) })
    }

    /// What to do when nobody answered for `suspect_addr` in time, neither
    /// the peer itself nor one asked to probe it: its suspicion timer is
    /// started at clock reading `now`, unless it runs already.
    pub fn handle_ping_req_timeout(&mut self, suspect_addr: NetAddr, now: u64)
        requires
            old(self).wf(),
        ensures
            final(self).wf(),
            final(self)@ == suspected(old(self)@, suspect_addr@, now),
    {
        self.timeout_cache.create_suspect_timeout(suspect_addr, now);
    }

    /// Handles the request of `peer_addr` to join. A new peer is admitted,
    /// its joining is passed on, and the node names itself in its answer. A
    /// known peer gets no answer, and neither does a request that names this
    /// node: a node does not admit itself.
    pub fn handle_join(&mut self, peer_addr: NetAddr) -> (answer: Option<Response>)
        requires
            old(self).wf(),
        ensures
            final(self).wf(),
            final(self)@ == welcomed(old(self)@, peer_addr@),
            answer.is_some() == welcomes(old(self)@, peer_addr@),
            answer matches Some(r) ==> r@ == ResponseView::Join(old(self)@.addr),
    {
        if peer_addr != self.addr && self.membership.process_join(peer_addr.clone()) {
            let answer = self.send_self_join();
            self.dissemination.gossip_join(peer_addr);
            Some(answer)
        } else {
            None
        }
    }

    /// Applies one gossip item at clock reading `now`, and says whether the
    /// node must introduce itself to the peer that the item names.
    pub fn process_gossip(&mut self, gossip: Gossip, now: u64) -> (join: bool)
        requires
            old(self).wf(),
        ensures
            final(self).wf(),
            final(self)@ == applied(old(self)@, gossip@, now),
            join == admits(old(self)@, gossip@),
    {
        if *gossip.addr() == self.addr {
            return false;
        }
        match gossip {
            Gossip::Join(peer_addr) => {
                if self.membership.process_join(peer_addr.clone()) {
                    self.dissemination.gossip_join(peer_addr);
                    true
                } else {
                    false
                }
            },
            Gossip::Alive(peer_addr) => {
                self.membership.alive(peer_addr.clone());
                self.dissemination.gossip_alive(peer_addr.clone());
                self.timeout_cache.remove_suspect_timeout(&peer_addr);
                false
            },
            Gossip::Suspect(peer_addr) => {
                let known = self.membership.get(&peer_addr).is_some();
                self.membership.suspect(peer_addr.clone());
                self.dissemination.gossip_suspect(peer_addr.clone());
                if known {
                    self.timeout_cache.create_suspect_timeout(peer_addr, now);
                }
                false
            },
            Gossip::Confirm(peer_addr) => {
                self.membership.remove(&peer_addr);
                self.dissemination.gossip_confirm(peer_addr);
                false
            },
        }
    }

    /// Applies the items of `gossip_vec` in order at clock reading `now`,
    /// and names the peers to whom the node must introduce itself.
    pub fn process_gossip_vec(&mut self, gossip_vec: Vec<Gossip>, now: u64) -> (joins: Vec<NetAddr>)
        requires
            old(self).wf(),
        ensures
            final(self).wf(),
            final(self)@ == applied_all(old(self)@, gossip_views(gossip_vec@), now),
            addr_views(joins@) == admitted(old(self)@, gossip_views(gossip_vec@), now),
    {
        let ghost items = gossip_views(gossip_vec@);
        let mut joins: Vec<NetAddr> = Vec::new();
        let mut i: usize = 0;
        while i < gossip_vec.len()
            invariant
                i <= gossip_vec.len(),
                self.wf(),
                items == gossip_views(gossip_vec@),
                self@ == applied_all(old(self)@, items.take(i as int), now),
                addr_views(joins@) == admitted(old(self)@, items.take(i as int), now),
            decreases gossip_vec.len() - i,
        {
            let ghost done = addr_views(joins@);
            let gossip = gossip_vec[i].clone();
            assert(items.take(i + 1).drop_last() =~= items.take(i as int));
            assert(items.take(i + 1).last() == gossip@);
            let peer_addr = gossip.addr().clone();
            if self.process_gossip(gossip, now) {
                joins.push(peer_addr);
                assert(addr_views(joins@) =~= done.push(peer_addr@));
            }
            i = i + 1;
        }
        assert(items.take(i as int) =~= items);
        joins
    }

    /// Handles a probe: applies the gossip that came with it, and answers
    /// with the next batch of the node's own.
    pub fn handle_ping(&mut self, gossip_vec: Vec<Gossip>, now: u64) -> (reply: PingReply)
        requires
            old(self).wf(),
        ensures
            final(self).wf(),
            final(self)@ == drawn(applied_all(old(self)@, gossip_views(gossip_vec@), now)),
            addr_views(reply.joins@) == admitted(old(self)@, gossip_views(gossip_vec@), now),
            is_ack_of(
                reply.response@,
                applied_all(old(self)@, gossip_views(gossip_vec@), now),
            ),
    {
        let joins = self.process_gossip_vec(gossip_vec, now);
        let gossip = self.dissemination.acquire_gossip(&self.membership);
        PingReply { response: Response::Ack(gossip), joins }
    }

    /// Takes in the answer to a probe or to a request to probe: the gossip
    /// of an acknowledgement is applied at clock reading `now`. Any other
    /// answer changes nothing. The result names the peers to whom the node
    /// must introduce itself.
    pub fn handle_ack(&mut self, response: Response, now: u64) -> (joins: Vec<NetAddr>)
        requires
            old(self).wf(),
        ensures
            final(self).wf(),
            final(self)@ == (match response@ {
                ResponseView::Ack(items) => applied_all(old(self)@, items, now),
                _ => old(self)@,
            }),
            addr_views(joins@) == (match response@ {
                ResponseView::Ack(items) => admitted(old(self)@, items, now),
                _ => Seq::empty(),
            }),
    {
        match response {
            Response::Ack(gossip_vec) => self.process_gossip_vec(gossip_vec, now),
            _ => {
                let joins: Vec<NetAddr> = Vec::new();
                assert(addr_views(joins@) =~= Seq::<Seq<char>>::empty());
                joins
            },
        }
    }

    /// Handles a request to probe `suspect_addr` on behalf of another peer.
    /// The node that is itself the suspect answers at once with its next
    /// batch of gossip. Any other node probes the suspect, with the batch
    /// attached to the probe.
    pub fn handle_ping_req(&mut self, suspect_addr: NetAddr) -> (step: PingReqStep)
        requires
            old(self).wf(),
        ensures
            final(self).wf(),
            final(self)@ == drawn(old(self)@),
            suspect_addr@ == old(self)@.addr ==> (step matches PingReqStep::Reply(r) && is_ack_of(
                r@,
                old(self)@,
            )),
            suspect_addr@ != old(self)@.addr ==> (step matches PingReqStep::Probe(o) && o.to@
                == suspect_addr@ && is_ping_of(o.message@, old(self)@)),
    {
        let gossip = self.dissemination.acquire_gossip(&self.membership);
        if self.addr == suspect_addr {
            PingReqStep::Reply(Response::Ack(gossip))
        } else {
            PingReqStep::Probe(
                Outbound { to: suspect_addr, message: Request::Ping(self.addr.clone(), gossip) },
            )
        }
    }

    /// Takes in the suspect's answer to a probe made on behalf of another
    /// peer: the gossip of an acknowledgement is applied at clock reading
    /// `now`, and the acknowledgement goes on to the peer that asked. Any
    /// other answer changes nothing and is not passed on.
    pub fn handle_probe_ack(&mut self, response: Response, now: u64) -> (r: (
        Option<Response>,
        Vec<NetAddr>,
    ))
        requires
            old(self).wf(),
        ensures
            final(self).wf(),
            final(self)@ == (match response@ {
                ResponseView::Ack(items) => applied_all(old(self)@, items, now),
                _ => old(self)@,
            }),
            addr_views(r.1@) == (match response@ {
                ResponseView::Ack(items) => admitted(old(self)@, items, now),
                _ => Seq::empty(),
            }),
            r.0.is_some() == (response@ is Ack),
            r.0 matches Some(forward) ==> forward@ == response@,
    {
        let forward = match &response {
            Response::Ack(_) => Some(response.clone()),
            _ => None,
        };
        let joins = self.handle_ack(response, now);
        (forward, joins)
    }

    /// Drains the timers that have expired when the clock reads `now`. The
    /// failure of every peer whose suspicion timer has expired is confirmed:
    /// the peer is removed and its `Confirm` item is passed on. The result
    /// names those peers.
    pub fn handle_timeouts(&mut self, now: u64) -> (failed: Vec<NetAddr>)
        requires
            old(self).wf(),
        ensures
            final(self).wf(),
            final(self)@ == purged(old(self)@, now),
            addr_views(failed@) == expired_addrs(old(self)@.timers.suspect, now),
    {
        let timeouts = self.timeout_cache.poll_purge(now);
        let failed = timeouts.suspect_addr_vec;
        let ghost addrs = addr_views(failed@);
        let ghost drained = self@;
        let mut i: usize = 0;
        while i < failed.len()
            invariant
                i <= failed.len(),
                self.wf(),
                addrs == addr_views(failed@),
                self@ == confirmed(drained, addrs.take(i as int)),
            decreases failed.len() - i,
        {
            let expired_addr = failed[i].clone();
            assert(addrs.take(i + 1).drop_last() =~= addrs.take(i as int));
            assert(addrs.take(i + 1).last() == expired_addr@);
            self.membership.remove(&expired_addr);
            self.dissemination.gossip_confirm(expired_addr);
            i = i + 1;
        }
        assert(addrs.take(i as int) =~= addrs);
        failed
    }

    /// One protocol period, at clock reading `now`. `votes` are the answers
    /// to earlier consensus queries that have come in and not been counted
    /// yet, oldest first.
    ///
    /// A node that knows fewer than two peers does nothing. Any other node
    /// takes the next peer of the round-robin sweep and probes it, runs a
    /// consensus round, which takes the votes that it counts out of `votes`,
    /// and drains the timers that have expired.
    pub fn run(&mut self, snowball: &mut Snowball, votes: &mut Vec<Colour>, now: u64) -> (tick:
        Tick)
        requires
            old(self).wf(),
            old(snowball).d.red < u32::MAX,
            old(snowball).d.blue < u32::MAX,
        ensures
            final(self).wf(),
            old(self)@.members.dom().finite(),
            old(self)@.members.len() < MINIMUM_MEMBERS ==> final(self)@ == old(self)@
                && final(snowball)@ == old(snowball)@ && final(votes)@ == old(votes)@
                && tick.ping.is_none() && tick.round.is_none() && tick.failed.len() == 0,
            old(self)@.members.len() >= MINIMUM_MEMBERS ==> (tick.ping matches Some(o)
                && is_sweep_step(
                old(self)@.sweep,
                candidates(old(self)@.members, seq![old(self)@.addr]),
                seq![o.to@],
                final(self)@.sweep,
            ) && is_ping_of(o.message@, old(self)@) && final(self)@ == purged(
                drawn(SwimView { sweep: final(self)@.sweep, ..old(self)@ }),
                now,
            )),
            old(self)@.members.len() >= MINIMUM_MEMBERS ==> (tick.round matches Some(r) && r.col
                == old(snowball)@.col && r.decided == decided(final(snowball)@) && is_round(
                old(snowball)@,
                old(votes)@,
                candidates(old(self)@.members, seq![old(snowball)@.addr]),
                final(snowball)@,
                addr_views(r.peers@),
            )),
            old(self)@.members.len() >= MINIMUM_MEMBERS ==> final(votes)@ == votes_after(
                old(snowball)@,
                old(votes)@,
                candidates(old(self)@.members, seq![old(snowball)@.addr]),
            ),
            old(self)@.members.len() >= MINIMUM_MEMBERS ==> addr_views(tick.failed@)
                == expired_addrs(old(self)@.timers.suspect, now),
    {
        if self.membership.len() < MINIMUM_MEMBERS {
            return Tick { ping: None, round: None, failed: Vec::new() };
        }
        let mut exclude: Vec<NetAddr> = Vec::new();
        exclude.push(self.addr.clone());
        proof {
            assert(addr_views(exclude@) =~= seq![self@.addr]);
            lemma_candidates_left(self@.members, self@.addr);
        }
        let mut addrs = self.membership.sample_rr(1, exclude);
        let ghost picked = addr_views(addrs@);
        let peer_addr = addrs.remove(0);
        assert(picked =~= seq![peer_addr@]);
        let ghost swept = self@;
        assert(swept == (SwimView { sweep: swept.sweep, ..old(self)@ }));
        let ping = self.send_ping(peer_addr);
        let round = snowball.run(votes, &self.membership);
        let failed = self.handle_timeouts(now);
        proof {
            lemma_confirmed_keeps(
                SwimView {
                    timers: CacheView {
                        ack: running(drawn(swept).timers.ack, now),
                        indirect_ack: running(drawn(swept).timers.indirect_ack, now),
                        probe: running(drawn(swept).timers.probe, now),
                        suspect: running(drawn(swept).timers.suspect, now),
                        query: running(drawn(swept).timers.query, now),
                    },
                    ..drawn(swept)
                },
                expired_addrs(drawn(swept).timers.suspect, now),
            );
            assert(self@.sweep == swept.sweep);
        }
        Tick { ping: Some(ping), round: Some(round), failed }
    }
}

} // verus!
