//! The gossip items that wait to be passed on, each with the number of times
//! it has been attached to an outgoing message.

use crate::constants::{budget_for, gossip_budget};
use crate::membership::Membership;
use crate::message::{gossip_views, Gossip, GossipKind, GossipView, NetAddr};
use crate::order::{gossip_ascending, gossip_lt, kind_rank};
use crate::skiplist::{
    gossip_entries, gossip_get, gossip_insert, gossip_keys, gossip_new, key_views, keys_ascending,
};
use crossbeam_skiplist::SkipMap;
use vstd::prelude::*;

verus! {

/// The key under which an item is kept: the rank of its kind, then its
/// address.
pub open spec fn key_of(g: GossipView) -> (u8, Seq<char>) {
    (kind_rank(g.kind) as u8, g.addr)
}

/// The kind with the given rank.
pub open spec fn kind_at(rank: u8) -> GossipKind {
    if rank == 0 {
        GossipKind::Join
    } else if rank == 1 {
        GossipKind::Alive
    } else if rank == 2 {
        GossipKind::Suspect
    } else {
        GossipKind::Confirm
    }
}

/// The item that is kept under `key`.
pub open spec fn item_of(key: (u8, Seq<char>)) -> GossipView {
    GossipView { kind: kind_at(key.0), addr: key.1 }
}

/// What observing `g` does to the counters: a new item starts at zero, a
/// known one keeps its count.
pub open spec fn observed(counts: Map<GossipView, nat>, g: GossipView) -> Map<GossipView, nat> {
    if counts.contains_key(g) {
        counts
    } else {
        counts.insert(g, 0)
    }
}

/// Whether an item with the given count is attached to the next message.
pub open spec fn due(count: nat, budget: nat) -> bool {
    count <= budget
}

/// What one batch does to the counters: the count of every item that is due
/// goes up by one, the others stay.
pub open spec fn acquired(counts: Map<GossipView, nat>, budget: nat) -> Map<GossipView, nat> {
    Map::new(
        |g: GossipView| counts.contains_key(g),
        |g: GossipView|
            if due(counts[g], budget) {
                counts[g] + 1
            } else {
                counts[g]
            },
    )
}

/// Whether `items` is the batch for the counters `counts`: the items that are
/// due, each once, in ascending order.
pub open spec fn is_batch(items: Seq<GossipView>, counts: Map<GossipView, nat>, budget: nat) -> bool {
    &&& gossip_ascending(items)
    &&& forall|g: GossipView| #[trigger]
        items.contains(g) <==> counts.contains_key(g) && due(counts[g], budget)
}

/// The counters and the budget determine the batch, its order included, and
/// no item is in it twice.
pub proof fn law_batch_is_determined(
    first: Seq<GossipView>,
    second: Seq<GossipView>,
    counts: Map<GossipView, nat>,
    budget: nat,
)
    requires
        is_batch(first, counts, budget),
        is_batch(second, counts, budget),
    ensures
        first == second,
        first.no_duplicates(),
{
    crate::order::lemma_ascending_lists_agree(first, second);
    crate::order::lemma_gossip_ascending_distinct(first);
}

/// The counters after `n` batches in a row under one budget.
pub open spec fn acquired_times(counts: Map<GossipView, nat>, budget: nat, n: nat) -> Map<
    GossipView,
    nat,
>
    decreases n,
{
    if n == 0 {
        counts
    } else {
        acquired(acquired_times(counts, budget, (n - 1) as nat), budget)
    }
}

/// An item whose count exceeds the budget is in no batch, and its count
/// stays.
pub proof fn law_over_budget_is_silent(
    items: Seq<GossipView>,
    counts: Map<GossipView, nat>,
    budget: nat,
    g: GossipView,
)
    requires
        is_batch(items, counts, budget),
        counts.contains_key(g),
        counts[g] > budget,
    ensures
        !items.contains(g),
        acquired(counts, budget)[g] == counts[g],
{
}

/// Under one budget an item is in every batch until its count exceeds the
/// budget, and in none after that: after `n` batches a count that started at
/// `c <= budget` stands at `c + n` or at `budget + 1`, whichever is less. An
/// item that starts at zero is therefore passed on `budget + 1` times in
/// all.
pub proof fn law_bounded_emission(counts: Map<GossipView, nat>, budget: nat, g: GossipView, n: nat)
    requires
        counts.contains_key(g),
    ensures
        acquired_times(counts, budget, n).contains_key(g),
        acquired_times(counts, budget, n)[g] == if counts[g] > budget {
            counts[g]
        } else if counts[g] + n <= budget + 1 {
            counts[g] + n
        } else {
            budget + 1
        },
    decreases n,
{
    if n > 0 {
        law_bounded_emission(counts, budget, g, (n - 1) as nat);
    }
}

/// The items among `keys` that are due, in the order of `keys`.
pub open spec fn batch_of(
    keys: Seq<(u8, Seq<char>)>,
    entries: Map<(u8, Seq<char>), usize>,
    budget: nat,
) -> Seq<GossipView>
    decreases keys.len(),
{
    if keys.len() == 0 {
        Seq::empty()
    } else if due(entries[keys.last()] as nat, budget) {
        batch_of(keys.drop_last(), entries, budget).push(item_of(keys.last()))
    } else {
        batch_of(keys.drop_last(), entries, budget)
    }
}

/// What `batch_of` holds: the due items of `keys`, each once, in ascending
/// order.
pub proof fn lemma_batch_of(
    keys: Seq<(u8, Seq<char>)>,
    entries: Map<(u8, Seq<char>), usize>,
    budget: nat,
)
    requires
        keys_ascending(keys),
        forall|i: int| 0 <= i < keys.len() ==> (#[trigger] keys[i]).0 < 4,
    ensures
        gossip_ascending(batch_of(keys, entries, budget)),
        forall|g: GossipView| #[trigger]
            batch_of(keys, entries, budget).contains(g) <==> keys.contains(key_of(g)) && due(
                entries[key_of(g)] as nat,
                budget,
            ),
    decreases keys.len(),
{
    let batch = batch_of(keys, entries, budget);
    if keys.len() == 0 {
    } else {
        let head = keys.drop_last();
        let last = keys.last();
        let rest = batch_of(head, entries, budget);
        lemma_batch_of(head, entries, budget);
        assert(key_of(item_of(last)) == last);
        assert forall|g: GossipView| #[trigger]
            batch.contains(g) <==> keys.contains(key_of(g)) && due(
                entries[key_of(g)] as nat,
                budget,
            ) by {
            assert(item_of(key_of(g)) == g);
            if batch.contains(g) {
                let k = choose|k: int| 0 <= k < batch.len() && batch[k] == g;
                if k < rest.len() {
                    assert(rest[k] == g);
                    assert(rest.contains(g));
                    let q = choose|q: int| 0 <= q < head.len() && head[q] == key_of(g);
                    assert(keys[q] == key_of(g));
                } else {
                    assert(g == item_of(last));
                    assert(keys[keys.len() - 1] == key_of(g));
                }
            }
            if keys.contains(key_of(g)) && due(entries[key_of(g)] as nat, budget) {
                let q = choose|q: int| 0 <= q < keys.len() && keys[q] == key_of(g);
                if q < head.len() {
                    assert(head[q] == key_of(g));
                    assert(rest.contains(g));
                    let k = choose|k: int| 0 <= k < rest.len() && rest[k] == g;
                    assert(batch[k] == g);
                } else {
                    assert(batch[batch.len() - 1] == g);
                }
            }
        }
        if due(entries[last] as nat, budget) {
            assert forall|i: int, j: int| 0 <= i < j < batch.len() implies gossip_lt(
                #[trigger] batch[i],
                #[trigger] batch[j],
            ) by {
                if j < rest.len() {
                    assert(gossip_lt(rest[i], rest[j]));
                } else {
                    assert(rest.contains(rest[i]));
                    let q = choose|q: int| 0 <= q < head.len() && head[q] == key_of(rest[i]);
                    assert(keys[q] == key_of(rest[i]));
                    let a = keys[q];
                    let b = keys[keys.len() - 1];
                    assert(a.0 < b.0 || (a.0 == b.0 && crate::order::text_lt(a.1, b.1)));
                    assert(item_of(key_of(rest[i])) == rest[i]);
                }
            }
        }
    }
}

/// The gossip items that wait to be passed on.
pub struct Dissemination {
    /// How often each item has been passed on, by the rank of its kind and
    /// the text of its address.
    gossip_map: SkipMap<(u8, String), usize>,
}

/// The rank of a kind.
fn rank_of(kind: GossipKind) -> (rank: u8)
    ensures
        rank == kind_rank(kind),
        rank < 4,
        kind_at(rank) == kind,
{
    match kind {
        GossipKind::Join => 0,
        GossipKind::Alive => 1,
        GossipKind::Suspect => 2,
        GossipKind::Confirm => 3,
    }
}

/// The kind with the given rank.
fn kind_with(rank: u8) -> (kind: GossipKind)
    ensures
        kind == kind_at(rank),
{
    if rank == 0 {
        GossipKind::Join
    } else if rank == 1 {
        GossipKind::Alive
    } else if rank == 2 {
        GossipKind::Suspect
    } else {
        GossipKind::Confirm
    }
}

impl View for Dissemination {
    type V = Map<GossipView, nat>;

    /// The items that wait, each with the number of times it has been passed
    /// on.
    closed spec fn view(&self) -> Map<GossipView, nat> {
        Map::new(
            |g: GossipView| gossip_entries(self.gossip_map).contains_key(key_of(g)),
            |g: GossipView| gossip_entries(self.gossip_map)[key_of(g)] as nat,
        )
    }
}

impl Dissemination {
    /// Every entry is kept under the rank of one of the four kinds.
    pub closed spec fn wf(&self) -> bool {
        forall|k: (u8, Seq<char>)| #[trigger] gossip_entries(self.gossip_map).contains_key(k) ==> k.0 < 4
    }

    /// No item waits.
    pub fn new() -> (d: Dissemination)
        ensures
            d.wf(),
            d@ == Map::<GossipView, nat>::empty(),
    {
        let gossip_map = gossip_new();
        let d = Dissemination { gossip_map };
        assert(d@ =~= Map::<GossipView, nat>::empty());
        d
    }

    /// How often `gossip` has been passed on, or `None` when the item does
    /// not wait.
    pub fn count(&self, gossip: &Gossip) -> (count: Option<usize>)
        ensures
            count.is_some() == self@.contains_key(gossip@),
            count matches Some(c) ==> c == self@[gossip@],
    {
        let rank = rank_of(gossip.kind());
        assert(key_of(gossip@) == (rank, gossip@.addr));
        gossip_get(&self.gossip_map, rank, gossip.addr().text())
    }

    /// Takes note of `gossip`: a new item starts to wait with count zero; an
    /// item that already waits keeps its count.
    pub fn try_gossip(&mut self, gossip: Gossip)
        requires
            old(self).wf(),
        ensures
            final(self).wf(),
            final(self)@ == observed(old(self)@, gossip@),
    {
        let rank = rank_of(gossip.kind());
        let ghost g = gossip@;
        let ghost before = gossip_entries(self.gossip_map);
        assert(key_of(g) == (rank, g.addr));
        match gossip_get(&self.gossip_map, rank, gossip.addr().text()) {
            Some(_) => (),
            None => {
                gossip_insert(&mut self.gossip_map, rank, gossip.addr().text().clone(), 0);
                proof {
                    assert forall|h: GossipView| #[trigger]
                        self@.contains_key(h) <==> observed(old(self)@, g).contains_key(h) by {
                        assert(item_of(key_of(h)) == h);
                    }
                    assert(self@ =~= observed(old(self)@, g));
                }
            },
        }
    }

    /// Takes note that `peer_addr` has joined.
    pub fn gossip_join(&mut self, peer_addr: NetAddr)
        requires
            old(self).wf(),
        ensures
            final(self).wf(),
            final(self)@ == observed(
                old(self)@,
                GossipView { kind: GossipKind::Join, addr: peer_addr@ },
            ),
    {
        self.try_gossip(Gossip::Join(peer_addr))
    }

    /// Takes note that `peer_addr` is alive.
    pub fn gossip_alive(&mut self, peer_addr: NetAddr)
        requires
            old(self).wf(),
        ensures
            final(self).wf(),
            final(self)@ == observed(
                old(self)@,
                GossipView { kind: GossipKind::Alive, addr: peer_addr@ },
            ),
    {
        self.try_gossip(Gossip::Alive(peer_addr))
    }

    /// Takes note that `peer_addr` is suspected.
    pub fn gossip_suspect(&mut self, peer_addr: NetAddr)
        requires
            old(self).wf(),
        ensures
            final(self).wf(),
            final(self)@ == observed(
                old(self)@,
                GossipView { kind: GossipKind::Suspect, addr: peer_addr@ },
            ),
    {
        self.try_gossip(Gossip::Suspect(peer_addr))
    }

    /// Takes note that the failure of `peer_addr` is confirmed.
    pub fn gossip_confirm(&mut self, peer_addr: NetAddr)
        requires
            old(self).wf(),
        ensures
            final(self).wf(),
            final(self)@ == observed(
                old(self)@,
                GossipView { kind: GossipKind::Confirm, addr: peer_addr@ },
            ),
    {
        self.try_gossip(Gossip::Confirm(peer_addr))
    }

    /// The batch for the next outgoing message: every item whose count does
    /// not exceed the budget for the present cluster size, in ascending
    /// order. The count of each item in the batch goes up by one; an item
    /// over budget stays where it is and is passed over.
    pub fn acquire_gossip(&mut self, membership: &Membership) -> (gossip_vec: Vec<Gossip>)
        requires
            old(self).wf(),
        ensures
            final(self).wf(),
            final(self)@ == acquired(old(self)@, gossip_budget(membership@.len())),
            is_batch(gossip_views(gossip_vec@), old(self)@, gossip_budget(membership@.len())),
    {
        let member_count = membership.len();
        let gossip_rate = budget_for(member_count);
        let ghost budget = gossip_budget(membership@.len());
        let ghost before = gossip_entries(self.gossip_map);
        let keys = gossip_keys(&self.gossip_map);
        let ghost ks = key_views(keys@);
        let mut gossip_vec: Vec<Gossip> = Vec::new();
        let mut i: usize = 0;
        proof {
            crate::dissemination::lemma_keys_distinct(ks);
            assert forall|j: int| 0 <= j < ks.len() implies (#[trigger] ks[j]).0 < 4 by {
                assert(ks.to_set().contains(ks[j]));
            }
        }
        while i < keys.len()
            invariant
                i <= keys.len(),
                ks == key_views(keys@),
                ks.no_duplicates(),
                ks.to_set() == before.dom(),
                forall|j: int| 0 <= j < ks.len() ==> (#[trigger] ks[j]).0 < 4,
                gossip_rate == budget,
                budget <= 135,
                gossip_entries(self.gossip_map).dom() == before.dom(),
                forall|j: int|
                    0 <= j < ks.len() ==> gossip_entries(self.gossip_map)[#[trigger] ks[j]] == (
                    if j < i && due(before[ks[j]] as nat, budget) {
                        (before[ks[j]] + 1) as usize
                    } else {
                        before[ks[j]]
                    }),
                gossip_views(gossip_vec@) == batch_of(ks.take(i as int), before, budget),
            decreases keys.len() - i,
        {
            let rank = keys[i].0;
            let ghost key = ks[i as int];
            let ghost sent = gossip_views(gossip_vec@);
            assert(key == (rank, keys[i as int].1@));
            assert(ks.take(i + 1).drop_last() =~= ks.take(i as int));
            assert(ks.to_set().contains(key));
            match gossip_get(&self.gossip_map, rank, &keys[i].1) {
                Some(dissemination_count) => {
                    if dissemination_count <= gossip_rate {
                        let ghost entries = gossip_entries(self.gossip_map);
                        gossip_insert(
                            &mut self.gossip_map,
                            rank,
                            keys[i].1.clone(),
                            dissemination_count + 1,
                        );
                        let addr = NetAddr::new(keys[i].1.clone());
                        gossip_vec.push(Gossip::from_parts(kind_with(rank), addr));
                        proof {
                            assert(gossip_entries(self.gossip_map).dom() =~= before.dom());
                            assert(gossip_views(gossip_vec@) =~= sent.push(item_of(key)));
                        }
                    }
                },
                None => {
                    assert(false);
                },
            }
            i = i + 1;
        }
        proof {
            assert(ks.take(i as int) =~= ks);
            lemma_batch_of(ks, before, budget);
            assert forall|g: GossipView| #[trigger]
                gossip_views(gossip_vec@).contains(g) <==> old(self)@.contains_key(g) && due(
                    old(self)@[g],
                    budget,
                ) by {
                assert(ks.contains(key_of(g)) <==> ks.to_set().contains(key_of(g)));
            }
            assert forall|g: GossipView| #[trigger] old(self)@.contains_key(g) implies self@[g]
                == acquired(old(self)@, budget)[g] by {
                assert(ks.to_set().contains(key_of(g)));
                let j = choose|j: int| 0 <= j < ks.len() && ks[j] == key_of(g);
                assert(gossip_entries(self.gossip_map)[ks[j]] == (if due(
                    before[ks[j]] as nat,
                    budget,
                ) {
                    (before[ks[j]] + 1) as usize
                } else {
                    before[ks[j]]
                }));
            }
            assert(self@ =~= acquired(old(self)@, budget));
        }
        gossip_vec
    }
}

/// A strictly ascending list of keys names no key twice.
pub proof fn lemma_keys_distinct(keys: Seq<(u8, Seq<char>)>)
    requires
        keys_ascending(keys),
    ensures
        keys.no_duplicates(),
{
    assert forall|i: int, j: int| 0 <= i < keys.len() && 0 <= j < keys.len() && i != j implies keys[i]
        != keys[j] by {
        crate::order::lemma_text_lt_irreflexive(keys[i].1);
        if i < j {
            let a = keys[i];
            let b = keys[j];
            assert(a.0 < b.0 || (a.0 == b.0 && crate::order::text_lt(a.1, b.1)));
        } else {
            let a = keys[j];
            let b = keys[i];
            assert(a.0 < b.0 || (a.0 == b.0 && crate::order::text_lt(a.1, b.1)));
        }
    }
}

} // verus!
