//! Pending timers, by class and by peer.
//!
//! A timer records when it was started. It has expired once the round-trip
//! time has passed since then. The caller reads the clock and passes the
//! reading in, in milliseconds.

use crate::constants::ROUND_TRIP_TIME;
use crate::message::{addr_views, NetAddr};
use vstd::prelude::*;

verus! {

/// A pending timer as a value.
pub struct TimerView {
    /// The peer that the timer is about.
    pub addr: Seq<char>,
    /// The peer on whose behalf the timer runs, where there is one.
    pub requester: Option<Seq<char>>,
    /// The clock reading at which the timer was started.
    pub started: u64,
}

/// Whether a timer for `addr` is pending in `timers`.
pub open spec fn pending(timers: Seq<TimerView>, addr: Seq<char>) -> bool {
    exists|i: int| 0 <= i < timers.len() && (#[trigger] timers[i]).addr == addr
}

/// Whether no peer has two timers in `timers`.
pub open spec fn one_each(timers: Seq<TimerView>) -> bool {
    forall|i: int, j: int|
        0 <= i < timers.len() && 0 <= j < timers.len() && i != j ==> (#[trigger] timers[i]).addr
            != (#[trigger] timers[j]).addr
}

/// Whether `timer` has run for the round-trip time when the clock reads
/// `now`.
pub open spec fn expired(timer: TimerView, now: u64) -> bool {
    timer.started + ROUND_TRIP_TIME <= now
}

/// The timers of `timers` that `keep` holds of, in their order.
pub open spec fn kept(timers: Seq<TimerView>, keep: spec_fn(TimerView) -> bool) -> Seq<TimerView>
    decreases timers.len(),
{
    if timers.len() == 0 {
        Seq::empty()
    } else if keep(timers.last()) {
        kept(timers.drop_last(), keep).push(timers.last())
    } else {
        kept(timers.drop_last(), keep)
    }
}

/// What starting a timer does: nothing when one is pending for the peer;
/// else the new timer is added behind the others.
pub open spec fn started(
    timers: Seq<TimerView>,
    addr: Seq<char>,
    requester: Option<Seq<char>>,
    now: u64,
) -> Seq<TimerView> {
    if pending(timers, addr) {
        timers
    } else {
        timers.push(TimerView { addr, requester, started: now })
    }
}

/// What cancelling does: the timer of `addr` leaves, the others stay.
pub open spec fn cancelled(timers: Seq<TimerView>, addr: Seq<char>) -> Seq<TimerView> {
    kept(timers, |t: TimerView| t.addr != addr)
}

/// The timers that are still running when the clock reads `now`.
pub open spec fn running(timers: Seq<TimerView>, now: u64) -> Seq<TimerView> {
    kept(timers, |t: TimerView| !expired(t, now))
}

/// The peers whose timers have expired when the clock reads `now`, in the
/// order in which the timers were started.
pub open spec fn expired_addrs(timers: Seq<TimerView>, now: u64) -> Seq<Seq<char>> {
    kept(timers, |t: TimerView| expired(t, now)).map_values(|t: TimerView| t.addr)
}

/// The peer on whose behalf the timer of `addr` runs, if such a timer is
/// pending and runs on behalf of a peer.
pub open spec fn requester_of(timers: Seq<TimerView>, addr: Seq<char>) -> Option<Seq<char>> {
    if pending(timers, addr) {
        let i = choose|i: int| 0 <= i < timers.len() && (#[trigger] timers[i]).addr == addr;
        timers[i].requester
    } else {
        None
    }
}

/// `kept` holds exactly the timers that `keep` holds of, and no peer gets a
/// second timer by it.
pub proof fn lemma_kept(timers: Seq<TimerView>, keep: spec_fn(TimerView) -> bool)
    ensures
        forall|t: TimerView| #[trigger]
            kept(timers, keep).contains(t) <==> timers.contains(t) && keep(t),
        one_each(timers) ==> one_each(kept(timers, keep)),
        kept(timers, keep).len() <= timers.len(),
    decreases timers.len(),
{
    let all = kept(timers, keep);
    if timers.len() > 0 {
        let head = timers.drop_last();
        let last = timers.last();
        let rest = kept(head, keep);
        lemma_kept(head, keep);
        assert forall|t: TimerView| #[trigger] all.contains(t) <==> timers.contains(t) && keep(
            t,
        ) by {
            if all.contains(t) {
                let k = choose|k: int| 0 <= k < all.len() && all[k] == t;
                if k < rest.len() {
                    assert(rest[k] == t);
                    assert(rest.contains(t));
                    let q = choose|q: int| 0 <= q < head.len() && head[q] == t;
                    assert(timers[q] == t);
                } else {
                    assert(timers[timers.len() - 1] == t);
                }
            }
            if timers.contains(t) && keep(t) {
                let q = choose|q: int| 0 <= q < timers.len() && timers[q] == t;
                if q < head.len() {
                    assert(head[q] == t);
                    assert(rest.contains(t));
                    let k = choose|k: int| 0 <= k < rest.len() && rest[k] == t;
                    assert(all[k] == t);
                } else {
                    assert(all[all.len() - 1] == t);
                }
            }
        }
        if one_each(timers) {
            assert(one_each(head)) by {
                assert forall|i: int, j: int|
                    0 <= i < head.len() && 0 <= j < head.len() && i != j implies (
                #[trigger] head[i]).addr != (#[trigger] head[j]).addr by {
                    assert(timers[i].addr != timers[j].addr);
                }
            }
            if keep(last) {
                assert forall|i: int, j: int|
                    0 <= i < all.len() && 0 <= j < all.len() && i != j implies (
                #[trigger] all[i]).addr != (#[trigger] all[j]).addr by {
                    if i < rest.len() && j < rest.len() {
                        assert(rest[i].addr != rest[j].addr);
                    } else {
                        let inner = if i < rest.len() {
                            i
                        } else {
                            j
                        };
                        assert(rest.contains(rest[inner]));
                        let q = choose|q: int| 0 <= q < head.len() && head[q] == rest[inner];
                        assert(timers[q].addr != timers[timers.len() - 1].addr);
                    }
                }
            }
        }
    }
}

/// Among timers of which no peer has two, a peer with a pending timer has
/// exactly one.
pub proof fn lemma_one_timer(timers: Seq<TimerView>, addr: Seq<char>)
    requires
        one_each(timers),
    ensures
        kept(timers, |t: TimerView| t.addr == addr).len() == if pending(timers, addr) {
            1nat
        } else {
            0nat
        },
    decreases timers.len(),
{
    let same = |t: TimerView| t.addr == addr;
    if timers.len() > 0 {
        let head = timers.drop_last();
        let last = timers.last();
        assert(one_each(head)) by {
            assert forall|i: int, j: int|
                0 <= i < head.len() && 0 <= j < head.len() && i != j implies (
            #[trigger] head[i]).addr != (#[trigger] head[j]).addr by {
                assert(timers[i].addr != timers[j].addr);
            }
        }
        lemma_one_timer(head, addr);
        if pending(head, addr) {
            let k = choose|k: int| 0 <= k < head.len() && (#[trigger] head[k]).addr == addr;
            assert(timers[k].addr == addr);
            assert(timers[k].addr != timers[timers.len() - 1].addr);
            assert(pending(timers, addr));
        } else if last.addr == addr {
            assert(timers[timers.len() - 1].addr == addr);
        } else {
            if pending(timers, addr) {
                let k = choose|k: int| 0 <= k < timers.len() && (#[trigger] timers[k]).addr == addr;
                assert(head[k].addr == addr);
            }
        }
    }
}

/// Starting a timer twice for one peer is the same as starting it once:
/// the first timer stays as it is, and it is the only one that is pending
/// for the peer.
pub proof fn law_timer_idempotent(
    timers: Seq<TimerView>,
    addr: Seq<char>,
    first: Option<Seq<char>>,
    at: u64,
    second: Option<Seq<char>>,
    later: u64,
)
    requires
        one_each(timers),
    ensures
        started(started(timers, addr, first, at), addr, second, later) == started(
            timers,
            addr,
            first,
            at,
        ),
        one_each(started(timers, addr, first, at)),
        kept(started(timers, addr, first, at), |t: TimerView| t.addr == addr).len() == 1,
{
    let once = started(timers, addr, first, at);
    if !pending(timers, addr) {
        assert(once[once.len() - 1].addr == addr);
        assert forall|i: int, j: int|
            0 <= i < once.len() && 0 <= j < once.len() && i != j implies (#[trigger] once[i]).addr
            != (#[trigger] once[j]).addr by {
            if i < timers.len() && j < timers.len() {
                assert(timers[i].addr != timers[j].addr);
            } else if i < timers.len() {
                assert(timers[i].addr != addr);
            } else {
                assert(timers[j].addr != addr);
            }
        }
    }
    assert(pending(once, addr));
    lemma_one_timer(once, addr);
}

/// A pending timer.
pub struct Timer {
    addr: NetAddr,
    requester: Option<NetAddr>,
    started: u64,
}

impl View for Timer {
    type V = TimerView;

    closed spec fn view(&self) -> TimerView {
        TimerView {
            addr: self.addr@,
            requester: match self.requester {
                Some(r) => Some(r@),
                None => None,
            },
            started: self.started,
        }
    }
}

impl Clone for Timer {
    fn clone(&self) -> (r: Timer)
        ensures
            r@ == self@,
    {
        let requester = match &self.requester {
            Some(r) => Some(r.clone()),
            None => None,
        };
        Timer { addr: self.addr.clone(), requester, started: self.started }
    }
}

/// The timers as values, in order.
pub open spec fn timer_views(timers: Seq<Timer>) -> Seq<TimerView> {
    timers.map_values(|t: Timer| t@)
}

/// The timers of one class, in the order in which they were started.
pub struct TimerQueue {
    timers: Vec<Timer>,
}

impl View for TimerQueue {
    type V = Seq<TimerView>;

    closed spec fn view(&self) -> Seq<TimerView> {
        timer_views(self.timers@)
    }
}

impl TimerQueue {
    /// No timer is pending.
    pub fn new() -> (q: TimerQueue)
        ensures
            q@ == Seq::<TimerView>::empty(),
    {
        let q = TimerQueue { timers: Vec::new() };
        assert(q@ =~= Seq::<TimerView>::empty());
        q
    }

    /// The number of pending timers.
    pub fn len(&self) -> (n: usize)
        ensures
            n == self@.len(),
    {
        self.timers.len()
    }

    /// Whether a timer is pending for `addr`.
    pub fn contains(&self, addr: &NetAddr) -> (found: bool)
        ensures
            found == pending(self@, addr@),
    {
        let mut i: usize = 0;
        while i < self.timers.len()
            invariant
                i <= self.timers.len(),
                forall|k: int| 0 <= k < i ==> (#[trigger] self@[k]).addr != addr@,
            decreases self.timers.len() - i,
        {
            if self.timers[i].addr == *addr {
                assert(self@[i as int].addr == addr@);
                return true;
            }
            i = i + 1;
        }
        false
    }

    /// Starts a timer for `addr` at clock reading `now`, unless one is
    /// pending.
    pub fn create(&mut self, addr: NetAddr, requester: Option<NetAddr>, now: u64)
        requires
            one_each(old(self)@),
        ensures
            one_each(final(self)@),
            final(self)@ == started(
                old(self)@,
                addr@,
                match requester {
                    Some(r) => Some(r@),
                    None => None,
                },
                now,
            ),
    {
        if !self.contains(&addr) {
            let ghost before = self@;
            let timer = Timer { addr, requester, started: now };
            self.timers.push(timer);
            assert(self@ =~= before.push(timer@));
        }
    }

    /// Cancels the timer of `addr`, if one is pending, and hands it out.
    pub fn remove(&mut self, addr: &NetAddr) -> (removed: Option<Timer>)
        requires
            one_each(old(self)@),
        ensures
            one_each(final(self)@),
            final(self)@ == cancelled(old(self)@, addr@),
            removed.is_some() == pending(old(self)@, addr@),
            removed.is_some() ==> old(self)@.contains(removed.unwrap()@) && removed.unwrap()@.addr
                == addr@,
    {
        let ghost keep = |t: TimerView| t.addr != addr@;
        let ghost all = self@;
        let mut rest: Vec<Timer> = Vec::new();
        let mut removed: Option<Timer> = None;
        let mut i: usize = 0;
        while i < self.timers.len()
            invariant
                i <= self.timers.len(),
                self@ == all,
                keep == |t: TimerView| t.addr != addr@,
                timer_views(rest@) == kept(all.take(i as int), keep),
                removed.is_some() == pending(all.take(i as int), addr@),
                removed.is_some() ==> all.contains(removed.unwrap()@) && removed.unwrap()@.addr
                    == addr@,
            decreases self.timers.len() - i,
        {
            let ghost done = timer_views(rest@);
            let timer = self.timers[i].clone();
            assert(timer@ == all[i as int]);
            assert(all.take(i + 1).drop_last() =~= all.take(i as int));
            assert(pending(all.take(i + 1), addr@) == (pending(all.take(i as int), addr@)
                || timer@.addr == addr@)) by {
                let next = all.take(i + 1);
                let head = all.take(i as int);
                if pending(next, addr@) {
                    let k = choose|k: int| 0 <= k < next.len() && (#[trigger] next[k]).addr == addr@;
                    if k < i {
                        assert(head[k].addr == addr@);
                    }
                }
                if pending(head, addr@) {
                    let k = choose|k: int| 0 <= k < head.len() && (#[trigger] head[k]).addr == addr@;
                    assert(next[k].addr == addr@);
                }
                if timer@.addr == addr@ {
                    assert(next[i as int].addr == addr@);
                }
            }
            if timer.addr == *addr {
                removed = Some(timer);
            } else {
                rest.push(timer);
                assert(timer_views(rest@) =~= done.push(timer@));
            }
            i = i + 1;
        }
        proof {
            assert(all.take(i as int) =~= all);
            lemma_kept(all, keep);
        }
        self.timers = rest;
        removed
    }

    /// Hands out the peers whose timers have expired when the clock reads
    /// `now`, and keeps the timers that still run.
    pub fn purge(&mut self, now: u64) -> (addrs: Vec<NetAddr>)
        requires
            one_each(old(self)@),
        ensures
            one_each(final(self)@),
            final(self)@ == running(old(self)@, now),
            addr_views(addrs@) == expired_addrs(old(self)@, now),
    {
        let ghost stay = |t: TimerView| !expired(t, now);
        let ghost go = |t: TimerView| expired(t, now);
        let ghost all = self@;
        let mut rest: Vec<Timer> = Vec::new();
        let mut addrs: Vec<NetAddr> = Vec::new();
        let mut i: usize = 0;
        while i < self.timers.len()
            invariant
                i <= self.timers.len(),
                self@ == all,
                stay == |t: TimerView| !expired(t, now),
                go == |t: TimerView| expired(t, now),
                timer_views(rest@) == kept(all.take(i as int), stay),
                addr_views(addrs@) == kept(all.take(i as int), go).map_values(
                    |t: TimerView| t.addr,
                ),
            decreases self.timers.len() - i,
        {
            let ghost done = timer_views(rest@);
            let ghost out = addr_views(addrs@);
            let timer = self.timers[i].clone();
            assert(timer@ == all[i as int]);
            assert(all.take(i + 1).drop_last() =~= all.take(i as int));
            if now >= timer.started && now - timer.started >= ROUND_TRIP_TIME {
                addrs.push(timer.addr);
                assert(addr_views(addrs@) =~= out.push(timer@.addr));
                assert(kept(all.take(i + 1), go).map_values(|t: TimerView| t.addr) =~= out.push(
                    timer@.addr,
                ));
            } else {
                rest.push(timer);
                assert(timer_views(rest@) =~= done.push(timer@));
            }
            i = i + 1;
        }
        proof {
            assert(all.take(i as int) =~= all);
            lemma_kept(all, stay);
        }
        self.timers = rest;
        addrs
    }
}

/// The peers whose timers have expired, by class.
pub struct Timeouts {
    pub ack_addr_vec: Vec<NetAddr>,
    pub indirect_ack_addr_vec: Vec<NetAddr>,
    pub probe_addr_vec: Vec<NetAddr>,
    pub suspect_addr_vec: Vec<NetAddr>,
    pub query_addr_vec: Vec<NetAddr>,
}

/// The pending timers of a cache as values, by class.
pub struct CacheView {
    /// A probe was sent to the peer; its acknowledgement is awaited.
    pub ack: Seq<TimerView>,
    /// This node probes the peer on behalf of the requester.
    pub indirect_ack: Seq<TimerView>,
    /// The peer is being probed through another peer.
    pub probe: Seq<TimerView>,
    /// The peer is suspected; expiry confirms its failure.
    pub suspect: Seq<TimerView>,
    /// A query was sent to the peer; its answer is awaited.
    pub query: Seq<TimerView>,
}

/// The timers of five classes, each class keyed by peer.
pub struct TimeoutCache {
    ack: TimerQueue,
    indirect_ack: TimerQueue,
    probe: TimerQueue,
    suspect: TimerQueue,
    query: TimerQueue,
}

impl View for TimeoutCache {
    type V = CacheView;

    closed spec fn view(&self) -> CacheView {
        CacheView {
            ack: self.ack@,
            indirect_ack: self.indirect_ack@,
            probe: self.probe@,
            suspect: self.suspect@,
            query: self.query@,
        }
    }
}

impl TimeoutCache {
    /// In every class, no peer has two timers.
    pub open spec fn wf(&self) -> bool {
        &&& one_each(self@.ack)
        &&& one_each(self@.indirect_ack)
        &&& one_each(self@.probe)
        &&& one_each(self@.suspect)
        &&& one_each(self@.query)
    }

    /// No timer is pending.
    pub fn new() -> (cache: TimeoutCache)
        ensures
            cache.wf(),
            cache@ == (CacheView {
                ack: Seq::empty(),
                indirect_ack: Seq::empty(),
                probe: Seq::empty(),
                suspect: Seq::empty(),
                query: Seq::empty(),
            }),
    {
        TimeoutCache {
            ack: TimerQueue::new(),
            indirect_ack: TimerQueue::new(),
            probe: TimerQueue::new(),
            suspect: TimerQueue::new(),
            query: TimerQueue::new(),
        }
    }

    /// The pending acknowledgement timers.
    pub fn ack_timers(&self) -> (timers: &TimerQueue)
        ensures
            timers@ == self@.ack,
    {
        &self.ack
    }

    /// The pending owed-acknowledgement timers.
    pub fn indirect_ack_timers(&self) -> (timers: &TimerQueue)
        ensures
            timers@ == self@.indirect_ack,
    {
        &self.indirect_ack
    }

    /// The pending probe timers.
    pub fn probe_timers(&self) -> (timers: &TimerQueue)
        ensures
            timers@ == self@.probe,
    {
        &self.probe
    }

    /// The pending suspicion timers.
    pub fn suspect_timers(&self) -> (timers: &TimerQueue)
        ensures
            timers@ == self@.suspect,
    {
        &self.suspect
    }

    /// The pending query timers.
    pub fn query_timers(&self) -> (timers: &TimerQueue)
        ensures
            timers@ == self@.query,
    {
        &self.query
    }

    /// Starts the acknowledgement timer of `peer_addr` at clock reading `now`. Nothing
    /// changes when one is pending.
    pub fn create_ack_timeout(&mut self, peer_addr: NetAddr, now: u64)
        requires
            old(self).wf(),
        ensures
            final(self).wf(),
            final(self)@ == (CacheView {
                ack: started(old(self)@.ack, peer_addr@, None, now),
                ..old(self)@
            }),
    {
        self.ack.create(peer_addr, None, now);
    }

    /// Cancels the acknowledgement timer of `peer_addr`. Nothing changes when none is
    /// pending.
    pub fn remove_ack_timeout(&mut self, peer_addr: &NetAddr)
        requires
            old(self).wf(),
        ensures
            final(self).wf(),
            final(self)@ == (CacheView { ack: cancelled(old(self)@.ack, peer_addr@), ..old(self)@ }),
    {
        let _ = self.ack.remove(peer_addr);
    }

    /// Starts the probe timer of `suspect_addr` at clock reading `now`. Nothing
    /// changes when one is pending.
    pub fn create_probe_timeout(&mut self, suspect_addr: NetAddr, now: u64)
        requires
            old(self).wf(),
        ensures
            final(self).wf(),
            final(self)@ == (CacheView {
                probe: started(old(self)@.probe, suspect_addr@, None, now),
                ..old(self)@
            }),
    {
        self.probe.create(suspect_addr, None, now);
    }

    /// Cancels the probe timer of `suspect_addr`. Nothing changes when none is
    /// pending.
    pub fn remove_probe_timeout(&mut self, suspect_addr: &NetAddr)
        requires
            old(self).wf(),
        ensures
            final(self).wf(),
            final(self)@ == (CacheView { probe: cancelled(old(self)@.probe, suspect_addr@), ..old(self)@ }),
    {
        let _ = self.probe.remove(suspect_addr);
    }

    /// Starts the suspicion timer of `suspect_addr` at clock reading `now`. Nothing
    /// changes when one is pending.
    pub fn create_suspect_timeout(&mut self, suspect_addr: NetAddr, now: u64)
        requires
            old(self).wf(),
        ensures
            final(self).wf(),
            final(self)@ == (CacheView {
                suspect: started(old(self)@.suspect, suspect_addr@, None, now),
                ..old(self)@
            }),
    {
        self.suspect.create(suspect_addr, None, now);
    }

    /// Cancels the suspicion timer of `suspect_addr`. Nothing changes when none is
    /// pending.
    pub fn remove_suspect_timeout(&mut self, suspect_addr: &NetAddr)
        requires
            old(self).wf(),
        ensures
            final(self).wf(),
            final(self)@ == (CacheView { suspect: cancelled(old(self)@.suspect, suspect_addr@), ..old(self)@ }),
    {
        let _ = self.suspect.remove(suspect_addr);
    }

    /// Starts the query timer of `peer_addr` at clock reading `now`. Nothing
    /// changes when one is pending.
    pub fn create_query_timeout(&mut self, peer_addr: NetAddr, now: u64)
        requires
            old(self).wf(),
        ensures
            final(self).wf(),
            final(self)@ == (CacheView {
                query: started(old(self)@.query, peer_addr@, None, now),
                ..old(self)@
            }),
    {
        self.query.create(peer_addr, None, now);
    }

    /// Cancels the query timer of `peer_addr`. Nothing changes when none is
    /// pending.
    pub fn remove_query_timeout(&mut self, peer_addr: &NetAddr)
        requires
            old(self).wf(),
        ensures
            final(self).wf(),
            final(self)@ == (CacheView { query: cancelled(old(self)@.query, peer_addr@), ..old(self)@ }),
    {
        let _ = self.query.remove(peer_addr);
    }

    /// Starts the timer within which this node owes `requester_addr` an
    /// acknowledgement of `suspect_addr`, at clock reading `now`. Nothing
    /// changes when one is pending for `suspect_addr`.
    pub fn create_indirect_ack_timeout(
        &mut self,
        suspect_addr: NetAddr,
        requester_addr: NetAddr,
        now: u64,
    )
        requires
            old(self).wf(),
        ensures
            final(self).wf(),
            final(self)@ == (CacheView {
                indirect_ack: started(
                    old(self)@.indirect_ack,
                    suspect_addr@,
                    Some(requester_addr@),
                    now,
                ),
                ..old(self)@
            }),
    {
        self.indirect_ack.create(suspect_addr, Some(requester_addr), now);
    }

    /// Cancels the timer within which an acknowledgement of `suspect_addr`
    /// is owed, and hands out the peer to which it is owed. Gives `None`,
    /// and changes nothing, when no such timer is pending.
    pub fn remove_indirect_ack_timeout(&mut self, suspect_addr: &NetAddr) -> (requester: Option<
        NetAddr,
    >)
        requires
            old(self).wf(),
        ensures
            final(self).wf(),
            final(self)@ == (CacheView {
                indirect_ack: cancelled(old(self)@.indirect_ack, suspect_addr@),
                ..old(self)@
            }),
            (match requester {
                Some(r) => Some(r@),
                None => None,
            }) == requester_of(old(self)@.indirect_ack, suspect_addr@),
    {
        let ghost timers = self@.indirect_ack;
        match self.indirect_ack.remove(suspect_addr) {
            Some(timer) => {
                proof {
                    let k = choose|k: int| 0 <= k < timers.len() && timers[k] == timer@;
                    let i = choose|i: int|
                        0 <= i < timers.len() && (#[trigger] timers[i]).addr == suspect_addr@;
                    assert(i == k);
                }
                timer.requester
            },
            None => None,
        }
    }

    /// Hands out, class by class, the peers whose timers have expired when
    /// the clock reads `now`, each once and in the order in which the timers
    /// were started, and forgets those timers. The timers that still run
    /// stay.
    pub fn poll_purge(&mut self, now: u64) -> (timeouts: Timeouts)
        requires
            old(self).wf(),
        ensures
            final(self).wf(),
            final(self)@ == (CacheView {
                ack: running(old(self)@.ack, now),
                indirect_ack: running(old(self)@.indirect_ack, now),
                probe: running(old(self)@.probe, now),
                suspect: running(old(self)@.suspect, now),
                query: running(old(self)@.query, now),
            }),
            addr_views(timeouts.ack_addr_vec@) == expired_addrs(old(self)@.ack, now),
            addr_views(timeouts.indirect_ack_addr_vec@) == expired_addrs(
                old(self)@.indirect_ack,
                now,
            ),
            addr_views(timeouts.probe_addr_vec@) == expired_addrs(old(self)@.probe, now),
            addr_views(timeouts.suspect_addr_vec@) == expired_addrs(old(self)@.suspect, now),
            addr_views(timeouts.query_addr_vec@) == expired_addrs(old(self)@.query, now),
    {
        let ack_addr_vec = self.ack.purge(now);
        let indirect_ack_addr_vec = self.indirect_ack.purge(now);
        let probe_addr_vec = self.probe.purge(now);
        let suspect_addr_vec = self.suspect.purge(now);
        let query_addr_vec = self.query.purge(now);
        Timeouts {
            ack_addr_vec,
            indirect_ack_addr_vec,
            probe_addr_vec,
            suspect_addr_vec,
            query_addr_vec,
        }
    }
}

} // verus!
