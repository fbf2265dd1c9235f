//! The binary form of the messages.
//!
//! A number is written in little-endian order. An enum is the index of its
//! variant as a `u32`, followed by the variant's fields in order. A text is
//! the number of its UTF-8 bytes as a `u64`, followed by the bytes. A list is
//! the number of its items as a `u64`, followed by the items. An address is
//! its text.

use crate::message::{
    gossip_views, Gossip, GossipKind, GossipView, NetAddr, Request, RequestView, Response,
    ResponseView,
};
use crate::order::kind_rank;
use crate::protocol::types::Colour;
use vstd::bytes::{
    lemma_auto_spec_u32_to_from_le_bytes, lemma_auto_spec_u64_to_from_le_bytes,
    spec_u32_from_le_bytes, spec_u32_to_le_bytes, spec_u64_from_le_bytes, spec_u64_to_le_bytes,
};
use vstd::prelude::*;
use vstd::utf8::{
    decode_utf8, decode_utf8_encode_utf8, encode_utf8, encode_utf8_decode_utf8,
    encode_utf8_valid_utf8, valid_utf8,
};

verus! {

/// The index of a colour.
pub open spec fn colour_index(c: Colour) -> u32 {
    match c {
        Colour::Undecided => 0,
        Colour::Red => 1,
        Colour::Blue => 2,
    }
}

/// The colour with the given index.
pub open spec fn colour_of(index: u32) -> Colour {
    if index == 0 {
        Colour::Undecided
    } else if index == 1 {
        Colour::Red
    } else {
        Colour::Blue
    }
}

/// The kind with the given index.
pub open spec fn kind_of(index: u32) -> GossipKind {
    if index == 0 {
        GossipKind::Join
    } else if index == 1 {
        GossipKind::Alive
    } else if index == 2 {
        GossipKind::Suspect
    } else {
        GossipKind::Confirm
    }
}

/// Whether a text can be written: the number of its bytes fits the length
/// field.
pub open spec fn text_fits(t: Seq<char>) -> bool {
    encode_utf8(t).len() <= u64::MAX
}

/// Whether a list of gossip items can be written.
pub open spec fn gossips_fit(items: Seq<GossipView>) -> bool {
    items.len() <= u64::MAX && forall|i: int| 0 <= i < items.len() ==> text_fits(
        (#[trigger] items[i]).addr,
    )
}

/// Whether a request can be written.
pub open spec fn request_fits(r: RequestView) -> bool {
    match r {
        RequestView::Join(a) => text_fits(a),
        RequestView::Ping(a, items) => text_fits(a) && gossips_fit(items),
        RequestView::PingReq(a, b) => text_fits(a) && text_fits(b),
        RequestView::Query(a, _) => text_fits(a),
    }
}

/// Whether a response can be written.
pub open spec fn response_fits(r: ResponseView) -> bool {
    match r {
        ResponseView::Join(a) => text_fits(a),
        ResponseView::Ack(items) => gossips_fit(items),
        ResponseView::Respond(_) => true,
    }
}

/// The binary form of a `u32`: four bytes, the lowest first.
pub open spec fn ser_u32(x: u32) -> Seq<u8> {
    spec_u32_to_le_bytes(x)
}

/// The binary form of a `u64`: eight bytes, the lowest first.
pub open spec fn ser_u64(x: u64) -> Seq<u8> {
    spec_u64_to_le_bytes(x)
}

/// The binary form of a text, and so of an address.
pub open spec fn ser_text(t: Seq<char>) -> Seq<u8> {
    ser_u64(encode_utf8(t).len() as u64) + encode_utf8(t)
}

/// The binary form of a colour: its index.
pub open spec fn ser_colour(c: Colour) -> Seq<u8> {
    ser_u32(colour_index(c))
}

/// The binary form of a gossip item: the index of its kind, then its
/// address.
pub open spec fn ser_gossip(g: GossipView) -> Seq<u8> {
    ser_u32(kind_rank(g.kind) as u32) + ser_text(g.addr)
}

/// The binary forms of the items, one after the other.
pub open spec fn ser_gossips(items: Seq<GossipView>) -> Seq<u8>
    decreases items.len(),
{
    if items.len() == 0 {
        Seq::empty()
    } else {
        ser_gossip(items.first()) + ser_gossips(items.drop_first())
    }
}

/// The binary form of a list of gossip items: their number, then the items.
pub open spec fn ser_gossip_list(items: Seq<GossipView>) -> Seq<u8> {
    ser_u64(items.len() as u64) + ser_gossips(items)
}

/// The binary form of a request: the index of its variant, then its fields.
pub open spec fn ser_request(r: RequestView) -> Seq<u8> {
    match r {
        RequestView::Join(a) => ser_u32(0) + ser_text(a),
        RequestView::Ping(a, items) => ser_u32(1) + ser_text(a) + ser_gossip_list(items),
        RequestView::PingReq(a, b) => ser_u32(2) + ser_text(a) + ser_text(b),
        RequestView::Query(a, c) => ser_u32(3) + ser_text(a) + ser_colour(c),
    }
}

/// The binary form of a response: the index of its variant, then its
/// fields.
pub open spec fn ser_response(r: ResponseView) -> Seq<u8> {
    match r {
        ResponseView::Join(a) => ser_u32(0) + ser_text(a),
        ResponseView::Ack(items) => ser_u32(1) + ser_gossip_list(items),
        ResponseView::Respond(c) => ser_u32(2) + ser_colour(c),
    }
}

/// Reads a `u32` from the head of `b`, and gives it with the bytes behind
/// it.
pub open spec fn parse_u32(b: Seq<u8>) -> Option<(u32, Seq<u8>)> {
    if b.len() >= 4 {
        Some((spec_u32_from_le_bytes(b.take(4)), b.skip(4)))
    } else {
        None
    }
}

/// Reads a `u64` from the head of `b`.
pub open spec fn parse_u64(b: Seq<u8>) -> Option<(u64, Seq<u8>)> {
    if b.len() >= 8 {
        Some((spec_u64_from_le_bytes(b.take(8)), b.skip(8)))
    } else {
        None
    }
}

/// Reads a text. The bytes must be there in the number announced, and be
/// valid UTF-8.
pub open spec fn parse_text(b: Seq<u8>) -> Option<(Seq<char>, Seq<u8>)> {
    match parse_u64(b) {
        Some((n, rest)) => if n <= rest.len() && valid_utf8(rest.take(n as int)) {
            Some((decode_utf8(rest.take(n as int)), rest.skip(n as int)))
        } else {
            None
        },
        None => None,
    }
}

/// Reads a colour. Its index must be one of the three.
pub open spec fn parse_colour(b: Seq<u8>) -> Option<(Colour, Seq<u8>)> {
    match parse_u32(b) {
        Some((index, rest)) => if index < 3 {
            Some((colour_of(index), rest))
        } else {
            None
        },
        None => None,
    }
}

/// Reads a gossip item. The index of its kind must be one of the four.
pub open spec fn parse_gossip(b: Seq<u8>) -> Option<(GossipView, Seq<u8>)> {
    match parse_u32(b) {
        Some((index, rest)) => if index < 4 {
            match parse_text(rest) {
                Some((addr, rest)) => Some((GossipView { kind: kind_of(index), addr }, rest)),
                None => None,
            }
        } else {
            None
        },
        None => None,
    }
}

/// Reads `n` gossip items.
pub open spec fn parse_gossips(b: Seq<u8>, n: nat) -> Option<(Seq<GossipView>, Seq<u8>)>
    decreases n,
{
    if n == 0 {
        Some((Seq::empty(), b))
    } else {
        match parse_gossip(b) {
            Some((g, rest)) => match parse_gossips(rest, (n - 1) as nat) {
                Some((items, rest)) => Some((seq![g] + items, rest)),
                None => None,
            },
            None => None,
        }
    }
}

/// Reads a list of gossip items: their number, then as many items.
pub open spec fn parse_gossip_list(b: Seq<u8>) -> Option<(Seq<GossipView>, Seq<u8>)> {
    match parse_u64(b) {
        Some((n, rest)) => parse_gossips(rest, n as nat),
        None => None,
    }
}

/// Reads a request. The index of its variant must be one of the four.
pub open spec fn parse_request(b: Seq<u8>) -> Option<(RequestView, Seq<u8>)> {
    match parse_u32(b) {
        Some((index, rest)) => if index == 0 {
            match parse_text(rest) {
                Some((a, rest)) => Some((RequestView::Join(a), rest)),
                None => None,
            }
        } else if index == 1 {
            match parse_text(rest) {
                Some((a, rest)) => match parse_gossip_list(rest) {
                    Some((items, rest)) => Some((RequestView::Ping(a, items), rest)),
                    None => None,
                },
                None => None,
            }
        } else if index == 2 {
            match parse_text(rest) {
                Some((a, rest)) => match parse_text(rest) {
                    Some((b, rest)) => Some((RequestView::PingReq(a, b), rest)),
                    None => None,
                },
                None => None,
            }
        } else if index == 3 {
            match parse_text(rest) {
                Some((a, rest)) => match parse_colour(rest) {
                    Some((c, rest)) => Some((RequestView::Query(a, c), rest)),
                    None => None,
                },
                None => None,
            }
        } else {
            None
        },
        None => None,
    }
}

/// Reads a response. The index of its variant must be one of the three.
pub open spec fn parse_response(b: Seq<u8>) -> Option<(ResponseView, Seq<u8>)> {
    match parse_u32(b) {
        Some((index, rest)) => if index == 0 {
            match parse_text(rest) {
                Some((a, rest)) => Some((ResponseView::Join(a), rest)),
                None => None,
            }
        } else if index == 1 {
            match parse_gossip_list(rest) {
                Some((items, rest)) => Some((ResponseView::Ack(items), rest)),
                None => None,
            }
        } else if index == 2 {
            match parse_colour(rest) {
                Some((c, rest)) => Some((ResponseView::Respond(c), rest)),
                None => None,
            }
        } else {
            None
        },
        None => None,
    }
}

/// The address that `b` is the binary form of, if it is one.
pub open spec fn decoded_addr(b: Seq<u8>) -> Option<Seq<char>> {
    match parse_text(b) {
        Some((a, rest)) => if rest.len() == 0 {
            Some(a)
        } else {
            None
        },
        None => None,
    }
}

/// The gossip item that `b` is the binary form of, if it is one.
pub open spec fn decoded_gossip(b: Seq<u8>) -> Option<GossipView> {
    match parse_gossip(b) {
        Some((g, rest)) => if rest.len() == 0 {
            Some(g)
        } else {
            None
        },
        None => None,
    }
}

/// The request that `b` is the binary form of, if it is one.
pub open spec fn decoded_request(b: Seq<u8>) -> Option<RequestView> {
    match parse_request(b) {
        Some((r, rest)) => if rest.len() == 0 {
            Some(r)
        } else {
            None
        },
        None => None,
    }
}

/// The response that `b` is the binary form of, if it is one.
pub open spec fn decoded_response(b: Seq<u8>) -> Option<ResponseView> {
    match parse_response(b) {
        Some((r, rest)) => if rest.len() == 0 {
            Some(r)
        } else {
            None
        },
        None => None,
    }
}

/// Reading a `u32` from its binary form gives it back, and leaves the bytes
/// behind it.
pub proof fn lemma_u32_round_trip(x: u32, rest: Seq<u8>)
    ensures
        ser_u32(x).len() == 4,
        parse_u32(ser_u32(x) + rest) == Some((x, rest)),
{
    lemma_auto_spec_u32_to_from_le_bytes();
    assert((ser_u32(x) + rest).take(4) =~= ser_u32(x));
    assert((ser_u32(x) + rest).skip(4) =~= rest);
}

/// Bytes from which a `u32` can be read start with its binary form.
pub proof fn lemma_u32_canonical(b: Seq<u8>)
    ensures
        parse_u32(b) matches Some((x, rest)) ==> b == ser_u32(x) + rest,
{
    lemma_auto_spec_u32_to_from_le_bytes();
    if b.len() >= 4 {
        assert(b =~= b.take(4) + b.skip(4));
    }
}

/// Reading a `u64` from its binary form gives it back, and leaves the bytes
/// behind it.
pub proof fn lemma_u64_round_trip(x: u64, rest: Seq<u8>)
    ensures
        ser_u64(x).len() == 8,
        parse_u64(ser_u64(x) + rest) == Some((x, rest)),
{
    lemma_auto_spec_u64_to_from_le_bytes();
    assert((ser_u64(x) + rest).take(8) =~= ser_u64(x));
    assert((ser_u64(x) + rest).skip(8) =~= rest);
}

/// Bytes from which a `u64` can be read start with its binary form.
pub proof fn lemma_u64_canonical(b: Seq<u8>)
    ensures
        parse_u64(b) matches Some((x, rest)) ==> b == ser_u64(x) + rest,
{
    lemma_auto_spec_u64_to_from_le_bytes();
    if b.len() >= 8 {
        assert(b =~= b.take(8) + b.skip(8));
    }
}

/// Reading a text from its binary form gives it back, and leaves the bytes
/// behind it.
pub proof fn lemma_text_round_trip(t: Seq<char>, rest: Seq<u8>)
    requires
        text_fits(t),
    ensures
        parse_text(ser_text(t) + rest) == Some((t, rest)),
{
    let bytes = encode_utf8(t);
    lemma_u64_round_trip(bytes.len() as u64, bytes + rest);
    assert(ser_text(t) + rest =~= ser_u64(bytes.len() as u64) + (bytes + rest));
    assert((bytes + rest).take(bytes.len() as int) =~= bytes);
    assert((bytes + rest).skip(bytes.len() as int) =~= rest);
    encode_utf8_valid_utf8(t);
    encode_utf8_decode_utf8(t);
}

/// Bytes from which a text can be read start with its binary form.
pub proof fn lemma_text_canonical(b: Seq<u8>)
    ensures
        parse_text(b) matches Some((t, rest)) ==> b == ser_text(t) + rest && text_fits(t),
{
    lemma_u64_canonical(b);
    if let Some((n, tail)) = parse_u64(b) {
        if n <= tail.len() && valid_utf8(tail.take(n as int)) {
            let bytes = tail.take(n as int);
            decode_utf8_encode_utf8(bytes);
            assert(tail =~= bytes + tail.skip(n as int));
            assert(b =~= ser_text(decode_utf8(bytes)) + tail.skip(n as int));
        }
    }
}

/// Reading a colour from its binary form gives it back, and leaves the bytes
/// behind it.
pub proof fn lemma_colour_round_trip(c: Colour, rest: Seq<u8>)
    ensures
        parse_colour(ser_colour(c) + rest) == Some((c, rest)),
{
    lemma_u32_round_trip(colour_index(c), rest);
}

/// Bytes from which a colour can be read start with its binary form.
pub proof fn lemma_colour_canonical(b: Seq<u8>)
    ensures
        parse_colour(b) matches Some((c, rest)) ==> b == ser_colour(c) + rest,
{
    lemma_u32_canonical(b);
}

/// Reading a gossip item from its binary form gives it back, and leaves the bytes
/// behind it.
pub proof fn lemma_gossip_round_trip(g: GossipView, rest: Seq<u8>)
    requires
        text_fits(g.addr),
    ensures
        parse_gossip(ser_gossip(g) + rest) == Some((g, rest)),
{
    lemma_u32_round_trip(kind_rank(g.kind) as u32, ser_text(g.addr) + rest);
    assert(ser_gossip(g) + rest =~= ser_u32(kind_rank(g.kind) as u32) + (ser_text(g.addr) + rest));
    lemma_text_round_trip(g.addr, rest);
    assert(kind_of(kind_rank(g.kind) as u32) == g.kind);
}

/// Bytes from which a gossip item can be read start with its binary form.
pub proof fn lemma_gossip_canonical(b: Seq<u8>)
    ensures
        parse_gossip(b) matches Some((g, rest)) ==> b == ser_gossip(g) + rest && text_fits(g.addr),
{
    lemma_u32_canonical(b);
    if let Some((index, tail)) = parse_u32(b) {
        lemma_text_canonical(tail);
        if let Some((g, rest)) = parse_gossip(b) {
            assert(kind_rank(kind_of(index)) as u32 == index);
            assert(b =~= ser_gossip(g) + rest);
        }
    }
}

/// Reading gossip items from its binary form gives it back, and leaves the bytes
/// behind it.
pub proof fn lemma_gossips_round_trip(items: Seq<GossipView>, rest: Seq<u8>)
    requires
        forall|i: int| 0 <= i < items.len() ==> text_fits((#[trigger] items[i]).addr),
    ensures
        parse_gossips(ser_gossips(items) + rest, items.len()) == Some((items, rest)),
    decreases items.len(),
{
    if items.len() == 0 {
        assert(ser_gossips(items) + rest =~= rest);
        assert(items =~= Seq::<GossipView>::empty());
    } else {
        let head = items.first();
        let tail = items.drop_first();
        assert(ser_gossips(items) + rest =~= ser_gossip(head) + (ser_gossips(tail) + rest));
        lemma_gossip_round_trip(head, ser_gossips(tail) + rest);
        assert forall|i: int| 0 <= i < tail.len() implies text_fits((#[trigger] tail[i]).addr) by {
            assert(tail[i] == items[i + 1]);
        }
        lemma_gossips_round_trip(tail, rest);
        assert(seq![head] + tail =~= items);
    }
}

/// Bytes from which gossip items can be read start with its binary form.
pub proof fn lemma_gossips_canonical(b: Seq<u8>, n: nat)
    ensures
        parse_gossips(b, n) matches Some((items, rest)) ==> b == ser_gossips(items) + rest
            && items.len() == n && forall|i: int|
            0 <= i < items.len() ==> text_fits((#[trigger] items[i]).addr),
    decreases n,
{
    if n == 0 {
        assert(ser_gossips(Seq::<GossipView>::empty()) + b =~= b);
    } else {
        lemma_gossip_canonical(b);
        if let Some((g, tail)) = parse_gossip(b) {
            lemma_gossips_canonical(tail, (n - 1) as nat);
            if let Some((more, rest)) = parse_gossips(tail, (n - 1) as nat) {
                let items = seq![g] + more;
                assert(items.first() == g);
                assert(items.drop_first() =~= more);
                assert(b =~= ser_gossips(items) + rest);
                assert forall|i: int| 0 <= i < items.len() implies text_fits(
                    (#[trigger] items[i]).addr,
                ) by {
                    if i > 0 {
                        assert(items[i] == more[i - 1]);
                    }
                }
            }
        }
    }
}

/// Reading a list of gossip items from its binary form gives it back, and leaves the bytes
/// behind it.
pub proof fn lemma_gossip_list_round_trip(items: Seq<GossipView>, rest: Seq<u8>)
    requires
        gossips_fit(items),
    ensures
        parse_gossip_list(ser_gossip_list(items) + rest) == Some((items, rest)),
{
    lemma_u64_round_trip(items.len() as u64, ser_gossips(items) + rest);
    assert(ser_gossip_list(items) + rest =~= ser_u64(items.len() as u64) + (ser_gossips(items)
        + rest));
    lemma_gossips_round_trip(items, rest);
}

/// Bytes from which a list of gossip items can be read start with its binary form.
pub proof fn lemma_gossip_list_canonical(b: Seq<u8>)
    ensures
        parse_gossip_list(b) matches Some((items, rest)) ==> b == ser_gossip_list(items) + rest
            && gossips_fit(items),
{
    lemma_u64_canonical(b);
    if let Some((n, tail)) = parse_u64(b) {
        lemma_gossips_canonical(tail, n as nat);
        if let Some((items, rest)) = parse_gossips(tail, n as nat) {
            assert(b =~= ser_gossip_list(items) + rest);
        }
    }
}

/// Reading what was written gives back the address, for every address.
pub proof fn law_addr_round_trip(a: Seq<char>)
    requires
        text_fits(a),
    ensures
        decoded_addr(ser_text(a)) == Some(a),
{
    lemma_text_round_trip(a, Seq::empty());
    assert(ser_text(a) + Seq::<u8>::empty() =~= ser_text(a));
}

/// Only the binary form of an address is read as that address.
pub proof fn law_addr_canonical(b: Seq<u8>)
    ensures
        decoded_addr(b) matches Some(a) ==> b == ser_text(a) && text_fits(a),
{
    lemma_text_canonical(b);
    if let Some((a, rest)) = parse_text(b) {
        assert(ser_text(a) + Seq::<u8>::empty() =~= ser_text(a));
        if rest.len() == 0 {
            assert(rest =~= Seq::<u8>::empty());
        }
    }
}

/// Reading what was written gives back the gossip item, for every item.
pub proof fn law_gossip_round_trip(g: GossipView)
    requires
        text_fits(g.addr),
    ensures
        decoded_gossip(ser_gossip(g)) == Some(g),
{
    lemma_gossip_round_trip(g, Seq::empty());
    assert(ser_gossip(g) + Seq::<u8>::empty() =~= ser_gossip(g));
}

/// Only the binary form of a gossip item is read as that item.
pub proof fn law_gossip_canonical(b: Seq<u8>)
    ensures
        decoded_gossip(b) matches Some(g) ==> b == ser_gossip(g) && text_fits(g.addr),
{
    lemma_gossip_canonical(b);
    if let Some((g, rest)) = parse_gossip(b) {
        assert(ser_gossip(g) + Seq::<u8>::empty() =~= ser_gossip(g));
        if rest.len() == 0 {
            assert(rest =~= Seq::<u8>::empty());
        }
    }
}

/// Reading a request from its binary form gives it back, and leaves the bytes
/// behind it.
pub proof fn lemma_request_round_trip(r: RequestView, rest: Seq<u8>)
    requires
        request_fits(r),
    ensures
        parse_request(ser_request(r) + rest) == Some((r, rest)),
{
    match r {
        RequestView::Join(a) => {
            let body = ser_text(a) + rest;
            assert(ser_request(r) + rest =~= ser_u32(0) + body);
            lemma_u32_round_trip(0, body);
            lemma_text_round_trip(a, rest);
        },
        RequestView::Ping(a, items) => {
            let tail = ser_gossip_list(items) + rest;
            let body = ser_text(a) + tail;
            assert(ser_request(r) + rest =~= ser_u32(1) + body);
            lemma_u32_round_trip(1, body);
            lemma_text_round_trip(a, tail);
            lemma_gossip_list_round_trip(items, rest);
        },
        RequestView::PingReq(a, b) => {
            let tail = ser_text(b) + rest;
            let body = ser_text(a) + tail;
            assert(ser_request(r) + rest =~= ser_u32(2) + body);
            lemma_u32_round_trip(2, body);
            lemma_text_round_trip(a, tail);
            lemma_text_round_trip(b, rest);
        },
        RequestView::Query(a, c) => {
            let tail = ser_colour(c) + rest;
            let body = ser_text(a) + tail;
            assert(ser_request(r) + rest =~= ser_u32(3) + body);
            lemma_u32_round_trip(3, body);
            lemma_text_round_trip(a, tail);
            lemma_colour_round_trip(c, rest);
        },
    }
}

/// Bytes from which a request can be read start with its binary form.
pub proof fn lemma_request_canonical(b: Seq<u8>)
    ensures
        parse_request(b) matches Some((r, rest)) ==> b == ser_request(r) + rest && request_fits(r),
{
    lemma_u32_canonical(b);
    if let Some((index, t1)) = parse_u32(b) {
        lemma_text_canonical(t1);
        if let Some((a, t2)) = parse_text(t1) {
            if index == 0 {
                assert(b =~= ser_request(RequestView::Join(a)) + t2);
            } else if index == 1 {
                lemma_gossip_list_canonical(t2);
                if let Some((items, rest)) = parse_gossip_list(t2) {
                    assert(b =~= ser_request(RequestView::Ping(a, items)) + rest);
                }
            } else if index == 2 {
                lemma_text_canonical(t2);
                if let Some((other, rest)) = parse_text(t2) {
                    assert(b =~= ser_request(RequestView::PingReq(a, other)) + rest);
                }
            } else if index == 3 {
                lemma_colour_canonical(t2);
                if let Some((c, rest)) = parse_colour(t2) {
                    assert(b =~= ser_request(RequestView::Query(a, c)) + rest);
                }
            }
        }
    }
}

/// Reading a response from its binary form gives it back, and leaves the bytes
/// behind it.
pub proof fn lemma_response_round_trip(r: ResponseView, rest: Seq<u8>)
    requires
        response_fits(r),
    ensures
        parse_response(ser_response(r) + rest) == Some((r, rest)),
{
    match r {
        ResponseView::Join(a) => {
            lemma_u32_round_trip(0, ser_text(a) + rest);
            assert(ser_response(r) + rest =~= ser_u32(0) + (ser_text(a) + rest));
            lemma_text_round_trip(a, rest);
        },
        ResponseView::Ack(items) => {
            lemma_u32_round_trip(1, ser_gossip_list(items) + rest);
            assert(ser_response(r) + rest =~= ser_u32(1) + (ser_gossip_list(items) + rest));
            lemma_gossip_list_round_trip(items, rest);
        },
        ResponseView::Respond(c) => {
            lemma_u32_round_trip(2, ser_colour(c) + rest);
            assert(ser_response(r) + rest =~= ser_u32(2) + (ser_colour(c) + rest));
            lemma_colour_round_trip(c, rest);
        },
    }
}

/// Bytes from which a response can be read start with its binary form.
pub proof fn lemma_response_canonical(b: Seq<u8>)
    ensures
        parse_response(b) matches Some((r, rest)) ==> b == ser_response(r) + rest
            && response_fits(r),
{
    lemma_u32_canonical(b);
    if let Some((index, t1)) = parse_u32(b) {
        if index == 0 {
            lemma_text_canonical(t1);
            if let Some((a, rest)) = parse_text(t1) {
                assert(b =~= ser_response(ResponseView::Join(a)) + rest);
            }
        } else if index == 1 {
            lemma_gossip_list_canonical(t1);
            if let Some((items, rest)) = parse_gossip_list(t1) {
                assert(b =~= ser_response(ResponseView::Ack(items)) + rest);
            }
        } else if index == 2 {
            lemma_colour_canonical(t1);
            if let Some((c, rest)) = parse_colour(t1) {
                assert(b =~= ser_response(ResponseView::Respond(c)) + rest);
            }
        }
    }
}

/// Reading what was written gives back the request, for every request.
pub proof fn law_request_round_trip(r: RequestView)
    requires
        request_fits(r),
    ensures
        decoded_request(ser_request(r)) == Some(r),
{
    lemma_request_round_trip(r, Seq::empty());
    assert(ser_request(r) + Seq::<u8>::empty() =~= ser_request(r));
}

/// Only the binary form of a request is read as that request: reading is
/// one-to-one.
pub proof fn law_request_canonical(b: Seq<u8>)
    ensures
        decoded_request(b) matches Some(r) ==> b == ser_request(r) && request_fits(r),
{
    lemma_request_canonical(b);
    if let Some((r, rest)) = parse_request(b) {
        assert(ser_request(r) + Seq::<u8>::empty() =~= ser_request(r));
        if rest.len() == 0 {
            assert(rest =~= Seq::<u8>::empty());
        }
    }
}

/// Reading what was written gives back the response, for every response.
pub proof fn law_response_round_trip(r: ResponseView)
    requires
        response_fits(r),
    ensures
        decoded_response(ser_response(r)) == Some(r),
{
    lemma_response_round_trip(r, Seq::empty());
    assert(ser_response(r) + Seq::<u8>::empty() =~= ser_response(r));
}

/// Only the binary form of a response is read as that response: reading is
/// one-to-one.
pub proof fn law_response_canonical(b: Seq<u8>)
    ensures
        decoded_response(b) matches Some(r) ==> b == ser_response(r) && response_fits(r),
{
    lemma_response_canonical(b);
    if let Some((r, rest)) = parse_response(b) {
        assert(ser_response(r) + Seq::<u8>::empty() =~= ser_response(r));
        if rest.len() == 0 {
            assert(rest =~= Seq::<u8>::empty());
        }
    }
}

/// `String::from_utf8`. Trusted: the bytes become a text exactly when they
/// are valid UTF-8, and the text is then the one that they encode.
#[verifier::external_body]
fn text_from_utf8(bytes: Vec<u8>) -> (text: Option<String>)
    ensures
        text.is_some() == valid_utf8(bytes@),
        text matches Some(t) ==> t@ == decode_utf8(bytes@),
{
    String::from_utf8(bytes).ok()
}

/// Writes a `u32` behind what `out` holds.
fn put_u32(out: &mut Vec<u8>, x: u32)
    ensures
        final(out)@ == old(out)@ + ser_u32(x),
{
    let mut bytes = vstd::bytes::u32_to_le_bytes(x);
    out.append(&mut bytes);
}

/// Writes a `u64` behind what `out` holds.
fn put_u64(out: &mut Vec<u8>, x: u64)
    ensures
        final(out)@ == old(out)@ + ser_u64(x),
{
    let mut bytes = vstd::bytes::u64_to_le_bytes(x);
    out.append(&mut bytes);
}

/// Writes a text behind what `out` holds.
fn put_text(out: &mut Vec<u8>, text: &String)
    ensures
        final(out)@ == old(out)@ + ser_text(text@),
        text_fits(text@),
{
    let bytes = text.as_str().as_bytes();
    let mut copy = vstd::slice::slice_to_vec(bytes);
    put_u64(out, bytes.len() as u64);
    out.append(&mut copy);
    assert(out@ =~= old(out)@ + ser_text(text@));
}

/// Writes a colour behind what `out` holds.
fn put_colour(out: &mut Vec<u8>, colour: Colour)
    ensures
        final(out)@ == old(out)@ + ser_colour(colour),
{
    let index: u32 = match colour {
        Colour::Undecided => 0,
        Colour::Red => 1,
        Colour::Blue => 2,
    };
    put_u32(out, index);
}

/// Writes a gossip item behind what `out` holds.
fn put_gossip(out: &mut Vec<u8>, gossip: &Gossip)
    ensures
        final(out)@ == old(out)@ + ser_gossip(gossip@),
        text_fits(gossip@.addr),
{
    let index: u32 = match gossip.kind() {
        GossipKind::Join => 0,
        GossipKind::Alive => 1,
        GossipKind::Suspect => 2,
        GossipKind::Confirm => 3,
    };
    put_u32(out, index);
    put_text(out, gossip.addr().text());
    assert(out@ =~= old(out)@ + ser_gossip(gossip@));
}

/// The binary forms of a list and of one more item, one after the other,
/// are the binary form of the longer list.
pub proof fn lemma_ser_gossips_push(items: Seq<GossipView>, g: GossipView)
    ensures
        ser_gossips(items.push(g)) == ser_gossips(items) + ser_gossip(g),
    decreases items.len(),
{
    if items.len() == 0 {
        let tail = items.push(g).drop_first();
        assert(tail =~= Seq::<GossipView>::empty());
        assert(ser_gossips(tail) =~= Seq::<u8>::empty());
        assert(items.push(g).first() == g);
        assert(ser_gossips(items.push(g)) =~= ser_gossip(g) + ser_gossips(tail));
        assert(ser_gossips(items) =~= Seq::<u8>::empty());
    } else {
        assert(items.push(g).drop_first() =~= items.drop_first().push(g));
        lemma_ser_gossips_push(items.drop_first(), g);
        assert(ser_gossips(items.push(g)) =~= ser_gossips(items) + ser_gossip(g));
    }
}

/// Writes a list of gossip items behind what `out` holds.
fn put_gossip_list(out: &mut Vec<u8>, items: &Vec<Gossip>)
    ensures
        final(out)@ == old(out)@ + ser_gossip_list(gossip_views(items@)),
        gossips_fit(gossip_views(items@)),
{
    let ghost views = gossip_views(items@);
    put_u64(out, items.len() as u64);
    let ghost head = out@;
    let mut i: usize = 0;
    assert(views.take(0) =~= Seq::<GossipView>::empty());
    while i < items.len()
        invariant
            i <= items.len(),
            views == gossip_views(items@),
            out@ == head + ser_gossips(views.take(i as int)),
            forall|k: int| 0 <= k < i ==> text_fits((#[trigger] views[k]).addr),
        decreases items.len() - i,
    {
        let ghost before = out@;
        put_gossip(out, &items[i]);
        proof {
            assert(views.take(i + 1) =~= views.take(i as int).push(views[i as int]));
            lemma_ser_gossips_push(views.take(i as int), views[i as int]);
            assert(out@ =~= head + ser_gossips(views.take(i + 1)));
        }
        i = i + 1;
    }
    proof {
        assert(views.take(i as int) =~= views);
        assert(out@ =~= old(out)@ + ser_gossip_list(views));
    }
}

/// The binary form of an address.
pub fn encode_addr(addr: &NetAddr) -> (bytes: Vec<u8>)
    ensures
        bytes@ == ser_text(addr@),
        text_fits(addr@),
{
    let mut out: Vec<u8> = Vec::new();
    put_text(&mut out, addr.text());
    assert(out@ =~= ser_text(addr@));
    out
}

/// The binary form of a gossip item.
pub fn encode_gossip(gossip: &Gossip) -> (bytes: Vec<u8>)
    ensures
        bytes@ == ser_gossip(gossip@),
        text_fits(gossip@.addr),
{
    let mut out: Vec<u8> = Vec::new();
    put_gossip(&mut out, gossip);
    assert(out@ =~= ser_gossip(gossip@));
    out
}

/// The binary form of a request.
pub fn encode_request(request: &Request) -> (bytes: Vec<u8>)
    ensures
        bytes@ == ser_request(request@),
        request_fits(request@),
{
    let mut out: Vec<u8> = Vec::new();
    match request {
        Request::Join(a) => {
            put_u32(&mut out, 0);
            put_text(&mut out, a.text());
        },
        Request::Ping(a, items) => {
            put_u32(&mut out, 1);
            put_text(&mut out, a.text());
            put_gossip_list(&mut out, items);
        },
        Request::PingReq(a, b) => {
            put_u32(&mut out, 2);
            put_text(&mut out, a.text());
            put_text(&mut out, b.text());
        },
        Request::Query(a, c) => {
            put_u32(&mut out, 3);
            put_text(&mut out, a.text());
            put_colour(&mut out, *c);
        },
    }
    assert(out@ =~= ser_request(request@));
    out
}

/// The binary form of a response.
pub fn encode_response(response: &Response) -> (bytes: Vec<u8>)
    ensures
        bytes@ == ser_response(response@),
        response_fits(response@),
{
    let mut out: Vec<u8> = Vec::new();
    match response {
        Response::Join(a) => {
            put_u32(&mut out, 0);
            put_text(&mut out, a.text());
        },
        Response::Ack(items) => {
            put_u32(&mut out, 1);
            put_gossip_list(&mut out, items);
        },
        Response::Respond(c) => {
            put_u32(&mut out, 2);
            put_colour(&mut out, *c);
        },
    }
    assert(out@ =~= ser_response(response@));
    out
}

/// Reads a `u32` at `pos`, and gives it with the position behind it.
fn take_u32(bytes: &[u8], pos: usize) -> (r: Option<(u32, usize)>)
    requires
        pos <= bytes@.len(),
    ensures
        r matches Some((x, next)) ==> pos <= next <= bytes@.len() && parse_u32(
            bytes@.skip(pos as int),
        ) == Some((x, bytes@.skip(next as int))),
        r.is_none() ==> parse_u32(bytes@.skip(pos as int)).is_none(),
{
    if bytes.len() - pos < 4 {
        return None;
    }
    let x = vstd::bytes::u32_from_le_bytes(vstd::slice::slice_subrange(bytes, pos, pos + 4));
    proof {
        assert(bytes@.subrange(pos as int, pos + 4) =~= bytes@.skip(pos as int).take(4));
        assert(bytes@.skip(pos as int).skip(4) =~= bytes@.skip(pos + 4));
    }
    Some((x, pos + 4))
}

/// Reads a `u64` at `pos`, and gives it with the position behind it.
fn take_u64(bytes: &[u8], pos: usize) -> (r: Option<(u64, usize)>)
    requires
        pos <= bytes@.len(),
    ensures
        r matches Some((x, next)) ==> pos <= next <= bytes@.len() && parse_u64(
            bytes@.skip(pos as int),
        ) == Some((x, bytes@.skip(next as int))),
        r.is_none() ==> parse_u64(bytes@.skip(pos as int)).is_none(),
{
    if bytes.len() - pos < 8 {
        return None;
    }
    let x = vstd::bytes::u64_from_le_bytes(vstd::slice::slice_subrange(bytes, pos, pos + 8));
    proof {
        assert(bytes@.subrange(pos as int, pos + 8) =~= bytes@.skip(pos as int).take(8));
        assert(bytes@.skip(pos as int).skip(8) =~= bytes@.skip(pos + 8));
    }
    Some((x, pos + 8))
}

/// Reads a text at `pos`, and gives it with the position behind it.
fn take_text(bytes: &[u8], pos: usize) -> (r: Option<(String, usize)>)
    requires
        pos <= bytes@.len(),
    ensures
        r matches Some((t, next)) ==> pos <= next <= bytes@.len() && parse_text(
            bytes@.skip(pos as int),
        ) == Some((t@, bytes@.skip(next as int))),
        r.is_none() ==> parse_text(bytes@.skip(pos as int)).is_none(),
{
    match take_u64(bytes, pos) {
        Some((n, start)) => {
            if n > (bytes.len() - start) as u64 {
                return None;
            }
            let end = start + n as usize;
            let raw = vstd::slice::slice_to_vec(vstd::slice::slice_subrange(bytes, start, end));
            proof {
                assert(bytes@.subrange(start as int, end as int) =~= bytes@.skip(
                    start as int,
                ).take(n as int));
                assert(bytes@.skip(start as int).skip(n as int) =~= bytes@.skip(end as int));
            }
            match text_from_utf8(raw) {
                Some(text) => Some((text, end)),
                None => None,
            }
        },
        None => None,
    }
}

/// Reads a colour at `pos`, and gives it with the position behind it.
fn take_colour(bytes: &[u8], pos: usize) -> (r: Option<(Colour, usize)>)
    requires
        pos <= bytes@.len(),
    ensures
        r matches Some((c, next)) ==> pos <= next <= bytes@.len() && parse_colour(
            bytes@.skip(pos as int),
        ) == Some((c, bytes@.skip(next as int))),
        r.is_none() ==> parse_colour(bytes@.skip(pos as int)).is_none(),
{
    match take_u32(bytes, pos) {
        Some((index, next)) => {
            if index == 0 {
                Some((Colour::Undecided, next))
            } else if index == 1 {
                Some((Colour::Red, next))
            } else if index == 2 {
                Some((Colour::Blue, next))
            } else {
                None
            }
        },
        None => None,
    }
}

/// Reads a gossip item at `pos`, and gives it with the position behind it.
fn take_gossip(bytes: &[u8], pos: usize) -> (r: Option<(Gossip, usize)>)
    requires
        pos <= bytes@.len(),
    ensures
        r matches Some((g, next)) ==> pos <= next <= bytes@.len() && parse_gossip(
            bytes@.skip(pos as int),
        ) == Some((g@, bytes@.skip(next as int))),
        r.is_none() ==> parse_gossip(bytes@.skip(pos as int)).is_none(),
{
    match take_u32(bytes, pos) {
        Some((index, start)) => {
            if index >= 4 {
                return None;
            }
            match take_text(bytes, start) {
                Some((text, next)) => {
                    let addr = NetAddr::new(text);
                    let gossip = if index == 0 {
                        Gossip::Join(addr)
                    } else if index == 1 {
                        Gossip::Alive(addr)
                    } else if index == 2 {
                        Gossip::Suspect(addr)
                    } else {
                        Gossip::Confirm(addr)
                    };
                    Some((gossip, next))
                },
                None => None,
            }
        },
        None => None,
    }
}

/// Reading a list item by item from the front is reading it as a whole.
pub proof fn lemma_parse_gossips_split(b: Seq<u8>, done: nat, n: nat)
    requires
        done <= n,
    ensures
        parse_gossips(b, n) == match parse_gossips(b, done) {
            Some((head, rest)) => match parse_gossips(rest, (n - done) as nat) {
                Some((tail, rest)) => Some((head + tail, rest)),
                None => None,
            },
            None => None,
        },
    decreases done,
{
    if done == 0 {
        if let Some((tail, rest)) = parse_gossips(b, n) {
            assert(Seq::<GossipView>::empty() + tail =~= tail);
        }
    } else {
        if let Some((g, after)) = parse_gossip(b) {
            lemma_parse_gossips_split(after, (done - 1) as nat, (n - 1) as nat);
            if let Some((head, rest)) = parse_gossips(after, (done - 1) as nat) {
                if let Some((tail, last)) = parse_gossips(rest, (n - done) as nat) {
                    assert(seq![g] + (head + tail) =~= (seq![g] + head) + tail);
                }
            }
        }
    }
}

/// What the next item does to a list that has been read in part: if it can
/// be read, the list grows by it; if not, the whole list cannot be read.
pub proof fn lemma_parse_gossips_next(b: Seq<u8>, done: nat, n: nat)
    requires
        done < n,
        parse_gossips(b, done).is_some(),
    ensures
        parse_gossip(parse_gossips(b, done).unwrap().1).is_none() ==> parse_gossips(
            b,
            n,
        ).is_none(),
        parse_gossip(parse_gossips(b, done).unwrap().1) matches Some((g, rest))
            ==> parse_gossips(b, done + 1) == Some((parse_gossips(b, done).unwrap().0.push(g), rest)),
{
    let (head, mid) = parse_gossips(b, done).unwrap();
    lemma_parse_gossips_split(b, done, n);
    lemma_parse_gossips_split(b, done, done + 1);
    assert(parse_gossips(mid, (n - done) as nat) == match parse_gossip(mid) {
        Some((g, rest)) => match parse_gossips(rest, (n - done - 1) as nat) {
            Some((items, rest)) => Some((seq![g] + items, rest)),
            None => None,
        },
        None => None,
    });
    if let Some((g, rest)) = parse_gossip(mid) {
        assert(parse_gossips(rest, 0) == Some((Seq::<GossipView>::empty(), rest)));
        assert(parse_gossips(mid, 1) == Some((seq![g] + Seq::<GossipView>::empty(), rest)));
        assert(head + (seq![g] + Seq::<GossipView>::empty()) =~= head.push(g));
    }
}

/// Reads a list of gossip items at `pos`, and gives it with the position
/// behind it.
fn take_gossip_list(bytes: &[u8], pos: usize) -> (r: Option<(Vec<Gossip>, usize)>)
    requires
        pos <= bytes@.len(),
    ensures
        r matches Some((items, next)) ==> pos <= next <= bytes@.len() && parse_gossip_list(
            bytes@.skip(pos as int),
        ) == Some((gossip_views(items@), bytes@.skip(next as int))),
        r.is_none() ==> parse_gossip_list(bytes@.skip(pos as int)).is_none(),
{
    match take_u64(bytes, pos) {
        Some((n, start)) => {
            let ghost body = bytes@.skip(start as int);
            let mut items: Vec<Gossip> = Vec::new();
            let mut at: usize = start;
            let mut i: u64 = 0;
            assert(gossip_views(items@) =~= Seq::<GossipView>::empty());
            while i < n
                invariant
                    i <= n,
                    start <= at <= bytes@.len(),
                    body == bytes@.skip(start as int),
                    parse_u64(bytes@.skip(pos as int)) == Some((n, body)),
                    parse_gossips(body, i as nat) == Some(
                        (gossip_views(items@), bytes@.skip(at as int)),
                    ),
                decreases n - i,
            {
                let ghost read = gossip_views(items@);
                proof {
                    lemma_parse_gossips_next(body, i as nat, n as nat);
                }
                match take_gossip(bytes, at) {
                    Some((gossip, next)) => {
                        items.push(gossip);
                        at = next;
                        proof {
                            assert(gossip_views(items@) =~= read.push(gossip@));
                        }
                    },
                    None => {
                        return None;
                    },
                }
                i = i + 1;
            }
            Some((items, at))
        },
        None => None,
    }
}

/// Reads an address. The bytes must be the binary form of an address and
/// nothing more.
pub fn decode_addr(bytes: &[u8]) -> (addr: Option<NetAddr>)
    ensures
        addr matches Some(a) ==> decoded_addr(bytes@) == Some(a@),
        addr.is_none() ==> decoded_addr(bytes@).is_none(),
{
    assert(bytes@.skip(0) =~= bytes@);
    match take_text(bytes, 0) {
        Some((text, next)) => {
            if next == bytes.len() {
                Some(NetAddr::new(text))
            } else {
                None
            }
        },
        None => None,
    }
}

/// Reads a gossip item. The bytes must be the binary form of an item and
/// nothing more.
pub fn decode_gossip(bytes: &[u8]) -> (gossip: Option<Gossip>)
    ensures
        gossip matches Some(g) ==> decoded_gossip(bytes@) == Some(g@),
        gossip.is_none() ==> decoded_gossip(bytes@).is_none(),
{
    assert(bytes@.skip(0) =~= bytes@);
    match take_gossip(bytes, 0) {
        Some((gossip, next)) => {
            if next == bytes.len() {
                Some(gossip)
            } else {
                None
            }
        },
        None => None,
    }
}

/// Reads a request from the head of `bytes`, and gives it with the position
/// behind it.
fn take_request(bytes: &[u8]) -> (r: Option<(Request, usize)>)
    ensures
        r matches Some((request, next)) ==> next <= bytes@.len() && parse_request(bytes@) == Some(
            (request@, bytes@.skip(next as int)),
        ),
        r.is_none() ==> parse_request(bytes@).is_none(),
{
    assert(bytes@.skip(0) =~= bytes@);
    match take_u32(bytes, 0) {
        Some((index, start)) => {
            if index == 0 {
                match take_text(bytes, start) {
                    Some((a, next)) => Some((Request::Join(NetAddr::new(a)), next)),
                    None => None,
                }
            } else if index == 1 {
                match take_text(bytes, start) {
                    Some((a, mid)) => match take_gossip_list(bytes, mid) {
                        Some((items, next)) => Some((Request::Ping(NetAddr::new(a), items), next)),
                        None => None,
                    },
                    None => None,
                }
            } else if index == 2 {
                match take_text(bytes, start) {
                    Some((a, mid)) => match take_text(bytes, mid) {
                        Some((b, next)) => Some(
                            (Request::PingReq(NetAddr::new(a), NetAddr::new(b)), next),
                        ),
                        None => None,
                    },
                    None => None,
                }
            } else if index == 3 {
                match take_text(bytes, start) {
                    Some((a, mid)) => match take_colour(bytes, mid) {
                        Some((c, next)) => Some((Request::Query(NetAddr::new(a), c), next)),
                        None => None,
                    },
                    None => None,
                }
            } else {
                None
            }
        },
        None => None,
    }
}

/// Reads a response from the head of `bytes`, and gives it with the
/// position behind it.
fn take_response(bytes: &[u8]) -> (r: Option<(Response, usize)>)
    ensures
        r matches Some((response, next)) ==> next <= bytes@.len() && parse_response(bytes@)
            == Some((response@, bytes@.skip(next as int))),
        r.is_none() ==> parse_response(bytes@).is_none(),
{
    assert(bytes@.skip(0) =~= bytes@);
    match take_u32(bytes, 0) {
        Some((index, start)) => {
            if index == 0 {
                match take_text(bytes, start) {
                    Some((a, next)) => Some((Response::Join(NetAddr::new(a)), next)),
                    None => None,
                }
            } else if index == 1 {
                match take_gossip_list(bytes, start) {
                    Some((items, next)) => Some((Response::Ack(items), next)),
                    None => None,
                }
            } else if index == 2 {
                match take_colour(bytes, start) {
                    Some((c, next)) => Some((Response::Respond(c), next)),
                    None => None,
                }
            } else {
                None
            }
        },
        None => None,
    }
}

/// Reads a request. The bytes must be the binary form of a request and
/// nothing more; any other bytes give `None`.
pub fn decode_request(bytes: &[u8]) -> (request: Option<Request>)
    ensures
        request matches Some(r) ==> decoded_request(bytes@) == Some(r@),
        request.is_none() ==> decoded_request(bytes@).is_none(),
{
    match take_request(bytes) {
        Some((request, next)) => {
            if next == bytes.len() {
                Some(request)
            } else {
                None
            }
        },
        None => None,
    }
}

/// Reads a response. The bytes must be the binary form of a response and
/// nothing more; any other bytes give `None`.
pub fn decode_response(bytes: &[u8]) -> (response: Option<Response>)
    ensures
        response matches Some(r) ==> decoded_response(bytes@) == Some(r@),
        response.is_none() ==> decoded_response(bytes@).is_none(),
{
    match take_response(bytes) {
        Some((response, next)) => {
            if next == bytes.len() {
                Some(response)
            } else {
                None
            }
        },
        None => None,
    }
}

} // verus!
