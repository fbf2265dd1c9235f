//! The local view of the cluster: which peers are known, and in what state.

use crate::deque::{queue_new, queue_push, queue_steal, queued};
use crate::message::{addr_views, NetAddr};
use crate::order::lemma_texts_ascending_distinct;
use crate::random::random_below;
use crate::skiplist::{
    member_states, members_get, members_insert, members_keys, members_len, members_new,
    members_remove, string_views,
};
use crossbeam::deque::Worker;
use crossbeam_skiplist::SkipMap;
use vstd::prelude::*;

verus! {

/// The state of a known peer. A peer that is not known has none.
#[derive(Debug, Clone, Copy, PartialEq, Eq, Structural)]
pub enum State {
    Alive,
    Suspected,
}

/// What joining does to a member map: a new peer enters as `Alive`, a known
/// one keeps its state.
pub open spec fn joined(members: Map<Seq<char>, State>, addr: Seq<char>) -> Map<Seq<char>, State> {
    if members.contains_key(addr) {
        members
    } else {
        members.insert(addr, State::Alive)
    }
}

/// What a change of state does to a member map: a known peer takes the new
/// state, an unknown one stays unknown.
pub open spec fn marked(members: Map<Seq<char>, State>, addr: Seq<char>, state: State) -> Map<
    Seq<char>,
    State,
> {
    if members.contains_key(addr) {
        members.insert(addr, state)
    } else {
        members
    }
}

/// The peers that a sampler may return: the known ones that are not excluded.
pub open spec fn candidates(members: Map<Seq<char>, State>, exclude: Seq<Seq<char>>) -> Set<
    Seq<char>,
> {
    members.dom().difference(exclude.to_set())
}

/// Whether `order` lists every element of `pool` exactly once.
pub open spec fn arranges(order: Seq<Seq<char>>, pool: Set<Seq<char>>) -> bool {
    order.no_duplicates() && order.to_set() == pool
}

/// Whether `addr` occurs in `list`.
pub fn contains_addr(list: &Vec<NetAddr>, addr: &NetAddr) -> (found: bool)
    ensures
        found == addr_views(list@).contains(addr@),
{
    let mut i: usize = 0;
    while i < list.len()
        invariant
            i <= list.len(),
            forall|k: int| 0 <= k < i ==> (#[trigger] list@[k])@ != addr@,
        decreases list.len() - i,
    {
        if list[i] == *addr {
            assert(addr_views(list@)[i as int] == addr@);
            return true;
        }
        i = i + 1;
    }
    assert forall|k: int| 0 <= k < addr_views(list@).len() implies addr_views(list@)[k]
        != addr@ by {
        assert(list@[k]@ != addr@);
    }
    false
}

/// The items of `pool` in the order that draws made at random pick.
fn random_order(pool: Vec<NetAddr>) -> (order: Vec<NetAddr>)
    requires
        addr_views(pool@).no_duplicates(),
    ensures
        exists|draws: Seq<usize>|
            draws_fit(draws, pool.len() as nat) && addr_views(order@) == #[trigger] arranged(
                addr_views(pool@),
                draws,
            ),
        arranges(addr_views(order@), addr_views(pool@).to_set()),
        order.len() == pool.len(),
{
    let n = pool.len();
    let mut draws: Vec<usize> = Vec::new();
    let mut i: usize = 0;
    while i < n
        invariant
            i <= n,
            draws.len() == i,
            forall|k: int| 0 <= k < i ==> (#[trigger] draws@[k]) < n - k,
        decreases n - i,
    {
        draws.push(random_below(n - i));
        i = i + 1;
    }
    let order = arrange(pool, &draws);
    proof {
        lemma_arranged(addr_views(pool@), draws@);
    }
    order
}

/// Whether `draws` can pick an order of `n` items: there is one draw for each
/// item, and each is below the number of items that are still to be placed.
pub open spec fn draws_fit(draws: Seq<usize>, n: nat) -> bool {
    draws.len() == n && forall|i: int| 0 <= i < draws.len() ==> (#[trigger] draws[i]) < n - i
}

/// What is left of `pool` once the item at position `j` has been taken: the
/// last item has moved to the gap.
pub open spec fn without_picked(pool: Seq<Seq<char>>, j: int) -> Seq<Seq<char>> {
    pool.update(j, pool.last()).drop_last()
}

/// The order that `draws` picks from `pool`. Each draw names a position in
/// what is left of the pool; the item there comes next, and the last item of
/// the pool moves to the gap.
pub open spec fn arranged(pool: Seq<Seq<char>>, draws: Seq<usize>) -> Seq<Seq<char>>
    decreases draws.len(),
{
    if draws.len() == 0 || pool.len() == 0 {
        Seq::empty()
    } else {
        seq![pool[draws.first() as int]] + arranged(
            without_picked(pool, draws.first() as int),
            draws.drop_first(),
        )
    }
}

/// Whatever the draws, the order that they pick lists every item of a pool
/// without duplicates exactly once.
pub proof fn lemma_arranged(pool: Seq<Seq<char>>, draws: Seq<usize>)
    requires
        pool.no_duplicates(),
        draws_fit(draws, pool.len()),
    ensures
        arranges(arranged(pool, draws), pool.to_set()),
        arranged(pool, draws).len() == pool.len(),
    decreases draws.len(),
{
    let order = arranged(pool, draws);
    if draws.len() == 0 {
        assert(order.to_set() =~= pool.to_set());
    } else {
        let n = pool.len() as int;
        let j = draws.first() as int;
        let left = without_picked(pool, j);
        let rest = arranged(left, draws.drop_first());
        assert(draws[0] < n - 0);
        assert forall|a: int, b: int| 0 <= a < left.len() && 0 <= b < left.len() && a != b implies left[a]
            != left[b] by {
            let from_a = if a == j {
                n - 1
            } else {
                a
            };
            let from_b = if b == j {
                n - 1
            } else {
                b
            };
            assert(left[a] == pool[from_a] && left[b] == pool[from_b]);
        }
        assert(draws_fit(draws.drop_first(), left.len())) by {
            assert forall|i: int| 0 <= i < draws.drop_first().len() implies (
            #[trigger] draws.drop_first()[i]) < left.len() - i by {
                assert(draws[i + 1] < n - (i + 1));
            }
        }
        lemma_arranged(left, draws.drop_first());
        assert(!left.contains(pool[j])) by {
            if left.contains(pool[j]) {
                let k = choose|k: int| 0 <= k < left.len() && left[k] == pool[j];
                let from = if k == j {
                    n - 1
                } else {
                    k
                };
                assert(pool[from] == pool[j]);
            }
        }
        assert(!rest.contains(pool[j])) by {
            assert(rest.to_set().contains(pool[j]) == left.to_set().contains(pool[j]));
        }
        assert forall|a: int, b: int|
            0 <= a < order.len() && 0 <= b < order.len() && a != b implies order[a]
            != order[b] by {
            if a > 0 && b > 0 {
                assert(rest[a - 1] != rest[b - 1]);
            } else if a > 0 {
                assert(rest.contains(rest[a - 1]));
            } else {
                assert(rest.contains(rest[b - 1]));
            }
        }
        assert forall|t: Seq<char>| order.contains(t) <==> pool.contains(t) by {
            if order.contains(t) {
                let k = choose|k: int| 0 <= k < order.len() && order[k] == t;
                if k > 0 {
                    assert(rest.contains(rest[k - 1]));
                    assert(left.to_set().contains(t));
                    let q = choose|q: int| 0 <= q < left.len() && left[q] == t;
                    let from = if q == j {
                        n - 1
                    } else {
                        q
                    };
                    assert(pool[from] == t);
                }
            }
            if pool.contains(t) {
                let q = choose|q: int| 0 <= q < pool.len() && pool[q] == t;
                if q == j {
                    assert(order[0] == t);
                } else {
                    let to = if q == n - 1 {
                        j
                    } else {
                        q
                    };
                    assert(left[to] == t);
                    assert(left.to_set().contains(t));
                    assert(rest.contains(t));
                    let k = choose|k: int| 0 <= k < rest.len() && rest[k] == t;
                    assert(order[k + 1] == t);
                }
            }
        }
        assert(order.to_set() =~= pool.to_set());
    }
}

/// The items of `pool` in the order that `draws` picks.
pub fn arrange(pool: Vec<NetAddr>, draws: &Vec<usize>) -> (order: Vec<NetAddr>)
    requires
        draws_fit(draws@, pool.len() as nat),
    ensures
        addr_views(order@) == arranged(addr_views(pool@), draws@),
{
    let ghost all = addr_views(pool@);
    let mut pool = pool;
    let mut order: Vec<NetAddr> = Vec::new();
    let mut i: usize = 0;
    proof {
        assert(draws@.skip(0) =~= draws@);
        assert(addr_views(order@) + arranged(all, draws@) =~= arranged(all, draws@));
    }
    while i < draws.len()
        invariant
            i <= draws.len(),
            pool.len() == draws.len() - i,
            draws_fit(draws@, all.len()),
            arranged(all, draws@) == addr_views(order@) + arranged(
                addr_views(pool@),
                draws@.skip(i as int),
            ),
        decreases draws.len() - i,
    {
        let ghost left = addr_views(pool@);
        let ghost done = addr_views(order@);
        let ghost ahead = draws@.skip(i as int);
        let j = draws[i];
        assert(draws@[i as int] < all.len() - i);
        let addr = pool.swap_remove(j);
        order.push(addr);
        proof {
            assert(ahead.first() == j);
            assert(ahead.drop_first() =~= draws@.skip(i + 1));
            assert(addr_views(pool@) =~= without_picked(left, j as int));
            assert(addr_views(order@) =~= done.push(left[j as int]));
            assert(done.push(left[j as int]) + arranged(addr_views(pool@), draws@.skip(i + 1))
                =~= done + (seq![left[j as int]] + arranged(
                without_picked(left, j as int),
                ahead.drop_first(),
            )));
        }
        i = i + 1;
    }
    proof {
        assert(draws@.skip(i as int) =~= Seq::<usize>::empty());
        assert(addr_views(order@) + Seq::<Seq<char>>::empty() =~= addr_views(order@));
    }
    order
}

/// A peer that is unknown is admitted when it joins; once it has been
/// removed it is unknown as before, and is admitted again when it joins
/// again. Removing it in between restores the member map.
pub proof fn law_join_remove_join(members: Map<Seq<char>, State>, addr: Seq<char>)
    requires
        !members.contains_key(addr),
    ensures
        joined(members, addr).contains_key(addr),
        joined(members, addr)[addr] == State::Alive,
        joined(members, addr).remove(addr) == members,
        !joined(members, addr).remove(addr).contains_key(addr),
{
    assert(joined(members, addr).remove(addr) =~= members);
}

/// Whether handing out `picked` turns the sweep `before` into `after`.
///
/// While the sweep lasts, its peers are handed out in order. When it runs
/// out, what is still owed comes from the head of a new sweep, which lists
/// every peer of `pool` once.
pub open spec fn is_sweep_step(
    before: Seq<Seq<char>>,
    pool: Set<Seq<char>>,
    picked: Seq<Seq<char>>,
    after: Seq<Seq<char>>,
) -> bool {
    if picked.len() <= before.len() {
        picked == before.take(picked.len() as int) && after == before.skip(picked.len() as int)
    } else {
        picked.take(before.len() as int) == before && arranges(
            picked.skip(before.len() as int) + after,
            pool,
        )
    }
}

/// Removing one peer from at least two leaves at least one.
pub proof fn lemma_candidates_left(members: Map<Seq<char>, State>, addr: Seq<char>)
    requires
        members.dom().finite(),
        members.len() >= 2,
    ensures
        candidates(members, seq![addr]).len() >= 1,
{
    assert(candidates(members, seq![addr]) =~= members.dom().remove(addr)) by {
        assert forall|t: Seq<char>| seq![addr].to_set().contains(t) <==> t == addr by {
            if t == addr {
                assert(seq![addr][0] == addr);
            }
        }
    }
}

/// The known peers, and the round-robin sweep over them.
pub struct Membership {
    /// The state of each known peer, by the text of its address.
    elements: SkipMap<String, State>,
    /// The peers that the sweep has still to hand out.
    ordering: Worker<String>,
}

impl View for Membership {
    type V = Map<Seq<char>, State>;

    /// The known peers with their states.
    closed spec fn view(&self) -> Map<Seq<char>, State> {
        member_states(self.elements)
    }
}

impl Membership {
    /// The rest of the current round-robin sweep: the peers that `sample_rr`
    /// hands out next, in that order.
    pub closed spec fn sweep(&self) -> Seq<Seq<char>> {
        queued(self.ordering)
    }

    /// No peer is known, and no sweep is under way.
    pub fn new() -> (m: Membership)
        ensures
            m@ == Map::<Seq<char>, State>::empty(),
            m.sweep() == Seq::<Seq<char>>::empty(),
    {
        let elements = members_new();
        assert(member_states(elements) =~= Map::<Seq<char>, State>::empty());
        Membership { elements, ordering: queue_new() }
    }

    /// The number of known peers.
    pub fn len(&self) -> (n: usize)
        ensures
            self@.dom().finite(),
            n == self@.len(),
    {
        members_len(&self.elements)
    }

    /// The state of `addr`, or `None` when the peer is not known.
    pub fn get(&self, addr: &NetAddr) -> (r: Option<State>)
        ensures
            r == if self@.contains_key(addr@) {
                Some(self@[addr@])
            } else {
                None::<State>
            },
    {
        members_get(&self.elements, addr.text())
    }

    /// Forgets `addr`. Nothing changes when the peer is not known.
    pub fn remove(&mut self, addr: &NetAddr)
        ensures
            final(self)@ == old(self)@.remove(addr@),
            final(self).sweep() == old(self).sweep(),
    {
        match self.get(addr) {
            Some(_) => {
                members_remove(&mut self.elements, addr.text());
            },
            None => {
                assert(self@.remove(addr@) =~= self@);
            },
        }
    }

    /// Marks a known peer as alive. An unknown peer stays unknown.
    pub fn alive(&mut self, addr: NetAddr)
        ensures
            final(self)@ == marked(old(self)@, addr@, State::Alive),
            final(self).sweep() == old(self).sweep(),
    {
        match self.get(&addr) {
            Some(_) => {
                members_insert(&mut self.elements, addr.into_text(), State::Alive);
            },
            None => (),
        }
    }

    /// Marks a known peer as suspected. An unknown peer stays unknown.
    pub fn suspect(&mut self, addr: NetAddr)
        ensures
            final(self)@ == marked(old(self)@, addr@, State::Suspected),
            final(self).sweep() == old(self).sweep(),
    {
        match self.get(&addr) {
            Some(_) => {
                members_insert(&mut self.elements, addr.into_text(), State::Suspected);
            },
            None => (),
        }
    }

    /// The known peers that are not in `exclude`, in ascending order.
    pub fn candidate_list(&self, exclude: &Vec<NetAddr>) -> (list: Vec<NetAddr>)
        ensures
            arranges(addr_views(list@), candidates(self@, addr_views(exclude@))),
            self@.dom().finite(),
            list.len() == candidates(self@, addr_views(exclude@)).len(),
    {
        let keys = members_keys(&self.elements);
        let ghost texts = string_views(keys@);
        proof {
            lemma_texts_ascending_distinct(texts);
        }
        let mut list: Vec<NetAddr> = Vec::new();
        let mut i: usize = 0;
        while i < keys.len()
            invariant
                i <= keys.len(),
                texts == string_views(keys@),
                texts.no_duplicates(),
                addr_views(list@).no_duplicates(),
                forall|t: Seq<char>|
                    addr_views(list@).contains(t) <==> texts.take(i as int).contains(t)
                        && !addr_views(exclude@).contains(t),
            decreases keys.len() - i,
        {
            let ghost before = addr_views(list@);
            let addr = NetAddr::new(keys[i].clone());
            let ghost head = texts.take(i as int);
            let ghost next = texts.take(i + 1);
            assert(addr@ == texts[i as int]);
            assert(next =~= head.push(addr@));
            if !contains_addr(exclude, &addr) {
                list.push(addr);
                proof {
                    assert(addr_views(list@) =~= before.push(addr@));
                    assert(!before.contains(addr@)) by {
                        if head.contains(addr@) {
                            let k = choose|k: int|
                                0 <= k < head.len() && head[k] == addr@;
                            assert(texts[k] == texts[i as int]);
                        }
                    }
                    assert forall|t: Seq<char>|
                        addr_views(list@).contains(t) <==> next.contains(t)
                            && !addr_views(exclude@).contains(t) by {
                        if addr_views(list@).contains(t) {
                            let k = choose|k: int|
                                0 <= k < addr_views(list@).len() && addr_views(list@)[k] == t;
                            if k < before.len() {
                                assert(before[k] == t);
                                assert(before.contains(t));
                                let q = choose|q: int|
                                    0 <= q < head.len() && head[q] == t;
                                assert(next[q] == t);
                            } else {
                                assert(next[i as int] == t);
                            }
                        }
                        if next.contains(t) && !addr_views(exclude@).contains(t) {
                            let q = choose|q: int| 0 <= q < next.len() && next[q] == t;
                            if q < i {
                                assert(head[q] == t);
                                assert(before.contains(t));
                                let k = choose|k: int| 0 <= k < before.len() && before[k] == t;
                                assert(addr_views(list@)[k] == t);
                            } else {
                                assert(addr_views(list@)[before.len() as int] == t);
                            }
                        }
                    }
                }
            } else {
                proof {
                    assert forall|t: Seq<char>|
                        addr_views(list@).contains(t) <==> next.contains(t)
                            && !addr_views(exclude@).contains(t) by {
                        if addr_views(list@).contains(t) {
                            let q = choose|q: int|
                                0 <= q < head.len() && head[q] == t;
                            assert(next[q] == t);
                        }
                        if next.contains(t) && !addr_views(exclude@).contains(t) {
                            let q = choose|q: int| 0 <= q < next.len() && next[q] == t;
                            if q < i {
                                assert(head[q] == t);
                            }
                        }
                    }
                }
            }
            i = i + 1;
        }
        proof {
            assert(texts.take(i as int) =~= texts);
            assert(addr_views(list@).to_set() =~= candidates(self@, addr_views(exclude@)));
            vstd::seq_lib::seq_to_set_is_finite(texts);
            addr_views(list@).unique_seq_to_set();
        }
        list
    }

    /// The number of peers that a sampler may return.
    pub fn candidate_count(&self, exclude: &Vec<NetAddr>) -> (n: usize)
        ensures
            n == candidates(self@, addr_views(exclude@)).len(),
    {
        self.candidate_list(exclude).len()
    }

    /// Admits `peer_addr` as alive unless it is already known, and says
    /// whether it was admitted.
    pub fn process_join(&mut self, peer_addr: NetAddr) -> (admitted: bool)
        ensures
            admitted == !old(self)@.contains_key(peer_addr@),
            final(self)@ == joined(old(self)@, peer_addr@),
            final(self).sweep() == old(self).sweep(),
    {
        match self.get(&peer_addr) {
            Some(_) => false,
            None => {
                members_insert(&mut self.elements, peer_addr.into_text(), State::Alive);
                true
            },
        }
    }

    /// Starts a new sweep: `order` becomes what `sample_rr` hands out next.
    fn refill(&mut self, order: &Vec<NetAddr>)
        requires
            old(self).sweep().len() == 0,
        ensures
            final(self).sweep() == addr_views(order@),
            final(self)@ == old(self)@,
    {
        let mut i: usize = 0;
        while i < order.len()
            invariant
                i <= order.len(),
                self@ == old(self)@,
                self.sweep() == addr_views(order@).take(i as int),
            decreases order.len() - i,
        {
            queue_push(&mut self.ordering, order[i].text().clone());
            assert(self.sweep() =~= addr_views(order@).take(i + 1));
            i = i + 1;
        }
        assert(addr_views(order@).take(i as int) =~= addr_views(order@));
    }

    /// Hands out the next `count` peers of the round-robin sweep.
    ///
    /// Peers leave the current sweep in its order. When the sweep runs out, a
    /// new one starts: every known peer that is not in `exclude`, once, in an
    /// order drawn at random. Peers that joined or left while a sweep was
    /// under way are taken up at the next one.
    pub fn sample_rr(&mut self, count: usize, exclude: Vec<NetAddr>) -> (addrs: Vec<NetAddr>)
        requires
            count <= candidates(old(self)@, addr_views(exclude@)).len(),
        ensures
            final(self)@ == old(self)@,
            addrs.len() == count,
            is_sweep_step(
                old(self).sweep(),
                candidates(old(self)@, addr_views(exclude@)),
                addr_views(addrs@),
                final(self).sweep(),
            ),
    {
        let ghost start = self.sweep();
        let ghost members = self@;
        let ghost pool = candidates(self@, addr_views(exclude@));
        let ghost mut refilled = false;
        let mut addrs: Vec<NetAddr> = Vec::new();
        proof {
            assert(addr_views(addrs@) + self.sweep() =~= start);
        }
        while addrs.len() < count
            invariant
                self@ == members,
                pool == candidates(members, addr_views(exclude@)),
                addrs.len() <= count,
                count <= pool.len(),
                !refilled ==> addr_views(addrs@) + self.sweep() == start,
                refilled ==> start.len() < count && addrs.len() >= start.len() && addr_views(
                    addrs@,
                ).take(start.len() as int) == start && arranges(
                    addr_views(addrs@).skip(start.len() as int) + self.sweep(),
                    pool,
                ),
            decreases
                    count - addrs.len(),
                    (if self.sweep().len() == 0 {
                        1int
                    } else {
                        0int
                    }),
        {
            let ghost taken = addr_views(addrs@);
            let ghost waiting = self.sweep();
            match queue_steal(&mut self.ordering) {
                Some(text) => {
                    addrs.push(NetAddr::new(text));
                    proof {
                        assert(addr_views(addrs@) =~= taken.push(waiting.first()));
                        assert(addr_views(addrs@) + self.sweep() =~= taken + waiting);
                        if refilled {
                            assert(addr_views(addrs@).take(start.len() as int) =~= taken.take(
                                start.len() as int,
                            ));
                            assert(addr_views(addrs@).skip(start.len() as int) + self.sweep()
                                =~= taken.skip(start.len() as int) + waiting);
                        }
                    }
                },
                None => {
                    proof {
                        if refilled {
                            let rest = taken.skip(start.len() as int);
                            assert(rest + waiting =~= rest);
                            rest.unique_seq_to_set();
                        } else {
                            assert(taken + waiting =~= taken);
                        }
                    }
                    let order = random_order(self.candidate_list(&exclude));
                    self.refill(&order);
                    proof {
                        refilled = true;
                        assert(taken.take(start.len() as int) =~= start);
                        assert(taken.skip(start.len() as int) + self.sweep() =~= self.sweep());
                    }
                },
            }
        }
        proof {
            if !refilled {
                assert(addr_views(addrs@) =~= start.take(count as int));
                assert(self.sweep() =~= start.skip(count as int));
            }
        }
        addrs
    }

    /// Picks `count` distinct peers at random among the known ones that are
    /// not in `exclude`.
    pub fn sample(&self, count: usize, exclude: Vec<NetAddr>) -> (addrs: Vec<NetAddr>)
        requires
            count <= candidates(self@, addr_views(exclude@)).len(),
        ensures
            addrs.len() == count,
            addr_views(addrs@).no_duplicates(),
            addr_views(addrs@).to_set().subset_of(candidates(self@, addr_views(exclude@))),
    {
        let mut order = random_order(self.candidate_list(&exclude));
        let ghost full = addr_views(order@);
        order.truncate(count);
        proof {
            assert(addr_views(order@) =~= full.take(count as int));
            assert forall|t: Seq<char>| addr_views(order@).contains(t) implies full.contains(t) by {
                let k = choose|k: int| 0 <= k < addr_views(order@).len() && addr_views(order@)[k] == t;
                assert(full[k] == t);
            }
        }
        order
    }
}

} // verus!
