//! The order in which texts and gossip items are kept.

use crate::message::{GossipKind, GossipView};
use vstd::prelude::*;

verus! {

/// Whether `a` comes strictly before `b`: the first position at which the two
/// differ decides by code point, and a proper prefix comes first.
pub open spec fn text_lt(a: Seq<char>, b: Seq<char>) -> bool
    decreases a.len(),
{
    if b.len() == 0 {
        false
    } else if a.len() == 0 {
        true
    } else if a[0] != b[0] {
        (a[0] as u32) < (b[0] as u32)
    } else {
        text_lt(a.drop_first(), b.drop_first())
    }
}

/// Whether every text of `texts` comes strictly before the next one.
pub open spec fn texts_ascending(texts: Seq<Seq<char>>) -> bool {
    forall|i: int, j: int| 0 <= i < j < texts.len() ==> text_lt(#[trigger] texts[i], #[trigger] texts[j])
}

/// The position of a kind among the four: `Join`, `Alive`, `Suspect`,
/// `Confirm`.
pub open spec fn kind_rank(kind: GossipKind) -> nat {
    match kind {
        GossipKind::Join => 0,
        GossipKind::Alive => 1,
        GossipKind::Suspect => 2,
        GossipKind::Confirm => 3,
    }
}

/// Whether `a` comes strictly before `b`: by kind first, then by address.
pub open spec fn gossip_lt(a: GossipView, b: GossipView) -> bool {
    kind_rank(a.kind) < kind_rank(b.kind) || (a.kind == b.kind && text_lt(a.addr, b.addr))
}

/// Whether every item of `items` comes strictly before the next one.
pub open spec fn gossip_ascending(items: Seq<GossipView>) -> bool {
    forall|i: int, j: int|
        0 <= i < j < items.len() ==> gossip_lt(#[trigger] items[i], #[trigger] items[j])
}

/// No text comes before itself.
pub proof fn lemma_text_lt_irreflexive(a: Seq<char>)
    ensures
        !text_lt(a, a),
    decreases a.len(),
{
    if a.len() > 0 {
        lemma_text_lt_irreflexive(a.drop_first());
    }
}

/// Of two texts, at most one comes before the other.
pub proof fn lemma_text_lt_asymmetric(a: Seq<char>, b: Seq<char>)
    ensures
        !(text_lt(a, b) && text_lt(b, a)),
    decreases a.len(),
{
    if a.len() > 0 && b.len() > 0 && a[0] == b[0] {
        lemma_text_lt_asymmetric(a.drop_first(), b.drop_first());
    }
}

/// Two strictly ascending lists that name the same items are the same list.
pub proof fn lemma_ascending_lists_agree(a: Seq<GossipView>, b: Seq<GossipView>)
    requires
        gossip_ascending(a),
        gossip_ascending(b),
        forall|g: GossipView| a.contains(g) <==> b.contains(g),
    ensures
        a == b,
    decreases a.len(),
{
    if a.len() == 0 {
        if b.len() > 0 {
            assert(b.contains(b[0]));
        }
        assert(a =~= b);
    } else if b.len() == 0 {
        assert(a.contains(a[0]));
    } else {
        let x = a.last();
        let y = b.last();
        assert(a.contains(x));
        assert(b.contains(y));
        let i = choose|i: int| 0 <= i < b.len() && b[i] == x;
        let j = choose|j: int| 0 <= j < a.len() && a[j] == y;
        if x != y {
            // Each of the two comes before the other's last, hence before the other.
            assert(gossip_lt(b[i], b[b.len() - 1]));
            assert(gossip_lt(a[j], a[a.len() - 1]));
            lemma_text_lt_asymmetric(x.addr, y.addr);
        }
        let a0 = a.drop_last();
        let b0 = b.drop_last();
        lemma_gossip_ascending_distinct(a);
        lemma_gossip_ascending_distinct(b);
        assert forall|g: GossipView| a0.contains(g) <==> b0.contains(g) by {
            if a0.contains(g) {
                let k = choose|k: int| 0 <= k < a0.len() && a0[k] == g;
                assert(a[k] == g);
                assert(b.contains(g));
                let m = choose|m: int| 0 <= m < b.len() && b[m] == g;
                assert(b0[m] == g);
            }
            if b0.contains(g) {
                let k = choose|k: int| 0 <= k < b0.len() && b0[k] == g;
                assert(b[k] == g);
                assert(a.contains(g));
                let m = choose|m: int| 0 <= m < a.len() && a[m] == g;
                assert(a0[m] == g);
            }
        }
        assert(gossip_ascending(a0)) by {
            assert forall|p: int, q: int| 0 <= p < q < a0.len() implies gossip_lt(
                #[trigger] a0[p],
                #[trigger] a0[q],
            ) by {
                assert(gossip_lt(a[p], a[q]));
            }
        }
        assert(gossip_ascending(b0)) by {
            assert forall|p: int, q: int| 0 <= p < q < b0.len() implies gossip_lt(
                #[trigger] b0[p],
                #[trigger] b0[q],
            ) by {
                assert(gossip_lt(b[p], b[q]));
            }
        }
        lemma_ascending_lists_agree(a0, b0);
        assert(a =~= a0.push(x));
        assert(b =~= b0.push(y));
    }
}

/// A strictly ascending list of texts names no text twice.
pub proof fn lemma_texts_ascending_distinct(texts: Seq<Seq<char>>)
    requires
        texts_ascending(texts),
    ensures
        texts.no_duplicates(),
{
    assert forall|i: int, j: int| 0 <= i < texts.len() && 0 <= j < texts.len() && i != j implies texts[i]
        != texts[j] by {
        lemma_text_lt_irreflexive(texts[i]);
        if i < j {
            assert(text_lt(texts[i], texts[j]));
        } else {
            assert(text_lt(texts[j], texts[i]));
        }
    }
}

/// A strictly ascending list of gossip items names no item twice.
pub proof fn lemma_gossip_ascending_distinct(items: Seq<GossipView>)
    requires
        gossip_ascending(items),
    ensures
        items.no_duplicates(),
{
    assert forall|i: int, j: int| 0 <= i < items.len() && 0 <= j < items.len() && i != j implies items[i]
        != items[j] by {
        lemma_text_lt_irreflexive(items[i].addr);
        if i < j {
            assert(gossip_lt(items[i], items[j]));
        } else {
            assert(gossip_lt(items[j], items[i]));
        }
    }
}

} // verus!
