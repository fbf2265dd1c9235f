//! The ordered maps that hold the members and the gossip items.

use crate::membership::State;
use crate::order::{text_lt, texts_ascending};
use crossbeam_skiplist::SkipMap;
use vstd::prelude::*;

verus! {

/// `crossbeam_skiplist::SkipMap`, an ordered map. Nothing is known of what
/// is inside a value but what the functions below state.
#[verifier::external_type_specification]
#[verifier::external_body]
#[verifier::reject_recursive_types(Key)]
#[verifier::reject_recursive_types(Value)]
pub struct ExSkipMap<Key, Value>(SkipMap<Key, Value>);

/// The entries of a member map: the state recorded for each address text.
pub uninterp spec fn member_states(m: SkipMap<String, State>) -> Map<Seq<char>, State>;

/// Whether `keys` is a finite set of exactly `n` elements.
pub open spec fn counts_to<T>(keys: Set<T>, n: nat) -> bool {
    keys.finite() && keys.len() == n
}

/// The texts of a list of strings, in order.
pub open spec fn string_views(strings: Seq<String>) -> Seq<Seq<char>> {
    strings.map_values(|s: String| s@)
}

/// `crossbeam_skiplist::SkipMap::new`. Trusted: the new map has no entry.
#[verifier::external_body]
pub(crate) fn members_new() -> (m: SkipMap<String, State>)
    ensures
        member_states(m).dom() == Set::<Seq<char>>::empty(),
{
    SkipMap::new()
}

/// `crossbeam_skiplist::SkipMap::len`. Trusted: the map holds finitely many
/// entries and the result is their number. The map is not shared while it is
/// borrowed here, so the count is exact.
#[verifier::external_body]
pub(crate) fn members_len(m: &SkipMap<String, State>) -> (n: usize)
    ensures
        counts_to(member_states(*m).dom(), n as nat),
{
    m.len()
}

/// `crossbeam_skiplist::SkipMap::get`. Trusted: the state recorded for the
/// key, or `None` when the map has no entry for it.
#[verifier::external_body]
pub(crate) fn members_get(m: &SkipMap<String, State>, key: &String) -> (r: Option<State>)
    ensures
        r == if member_states(*m).contains_key(key@) {
            Some(member_states(*m)[key@])
        } else {
            None
        },
{
    m.get(key).map(|entry| *entry.value())
}

/// `crossbeam_skiplist::SkipMap::insert`. Trusted: afterwards the key maps to
/// the value, whether or not it had an entry before; no other entry changes.
#[verifier::external_body]
pub(crate) fn members_insert(m: &mut SkipMap<String, State>, key: String, value: State)
    ensures
        member_states(*final(m)) == member_states(*old(m)).insert(key@, value),
{
    m.insert(key, value);
}

/// `crossbeam_skiplist::SkipMap::remove`. Trusted: afterwards the key has no
/// entry; no other entry changes.
#[verifier::external_body]
pub(crate) fn members_remove(m: &mut SkipMap<String, State>, key: &String)
    ensures
        member_states(*final(m)) == member_states(*old(m)).remove(key@),
{
    m.remove(key);
}

/// `crossbeam_skiplist::SkipMap::iter`, keeping a copy of each key. Trusted:
/// the keys come out in strictly ascending order of `String`, which orders by
/// code point, and they are exactly the keys of the map.
#[verifier::external_body]
pub(crate) fn members_keys(m: &SkipMap<String, State>) -> (keys: Vec<String>)
    ensures
        texts_ascending(string_views(keys@)),
        string_views(keys@).to_set() == member_states(*m).dom(),
{
    m.iter().map(|entry| entry.key().clone()).collect()
}

/// The entries of a gossip map: for each item, given by the rank of its kind
/// and the text of its address, how often it has been passed on.
pub uninterp spec fn gossip_entries(m: SkipMap<(u8, String), usize>) -> Map<(u8, Seq<char>), usize>;

/// The keys of a list of gossip entries as values, in order.
pub open spec fn key_views(keys: Seq<(u8, String)>) -> Seq<(u8, Seq<char>)> {
    keys.map_values(|k: (u8, String)| (k.0, k.1@))
}

/// Whether every key comes strictly before the next one: by rank first, then
/// by text.
pub open spec fn keys_ascending(keys: Seq<(u8, Seq<char>)>) -> bool {
    forall|i: int, j: int|
        0 <= i < j < keys.len() ==> {
            let a = #[trigger] keys[i];
            let b = #[trigger] keys[j];
            a.0 < b.0 || (a.0 == b.0 && text_lt(a.1, b.1))
        }
}

/// `crossbeam_skiplist::SkipMap::new`. Trusted: the new map has no entry.
#[verifier::external_body]
pub(crate) fn gossip_new() -> (m: SkipMap<(u8, String), usize>)
    ensures
        gossip_entries(m).dom() == Set::<(u8, Seq<char>)>::empty(),
{
    SkipMap::new()
}

/// `crossbeam_skiplist::SkipMap::get`. Trusted: the count recorded for the
/// key, or `None` when the map has no entry for it.
#[verifier::external_body]
pub(crate) fn gossip_get(m: &SkipMap<(u8, String), usize>, rank: u8, text: &String) -> (r: Option<
    usize,
>)
    ensures
        r == if gossip_entries(*m).contains_key((rank, text@)) {
            Some(gossip_entries(*m)[(rank, text@)])
        } else {
            None
        },
{
    m.get(&(rank, text.clone())).map(|entry| *entry.value())
}

/// `crossbeam_skiplist::SkipMap::insert`. Trusted: afterwards the key maps to
/// the count, whether or not it had an entry before; no other entry changes.
#[verifier::external_body]
pub(crate) fn gossip_insert(
    m: &mut SkipMap<(u8, String), usize>,
    rank: u8,
    text: String,
    count: usize,
)
    ensures
        gossip_entries(*final(m)) == gossip_entries(*old(m)).insert((rank, text@), count),
{
    m.insert((rank, text), count);
}

/// `crossbeam_skiplist::SkipMap::iter`, keeping a copy of each key. Trusted:
/// the keys come out in strictly ascending order of the pair, which orders by
/// the number first and then by the `String`, and they are exactly the keys
/// of the map.
#[verifier::external_body]
pub(crate) fn gossip_keys(m: &SkipMap<(u8, String), usize>) -> (keys: Vec<(u8, String)>)
    ensures
        keys_ascending(key_views(keys@)),
        key_views(keys@).to_set() == gossip_entries(*m).dom(),
{
    m.iter().map(|entry| entry.key().clone()).collect()
}

} // verus!
