//! Snowball: repeated sampling that carries every node toward one colour.

use crate::membership::{candidates, Membership};
use crate::message::{addr_views, NetAddr, Request, RequestView, Response, ResponseView};
use crate::protocol::types::Colour;
use crate::random::random_below;
use vstd::prelude::*;

verus! {

/// The number of quorums in a row for one colour after which a node has
/// decided is more than this.
pub const B: u32 = 11;

/// The number of peers asked in a round.
pub const K: usize = 4;

/// The quorum threshold: half of `K`, rounded up. A colour carries a round
/// when more than this many answers name it.
pub const QUIESCENT_POINT: u32 = 2;

/// How often each colour has carried a round.
pub struct Confidence {
    pub red: u32,
    pub blue: u32,
}

/// The state of one node.
pub struct Snowball {
    /// The node's own address.
    pub addr: NetAddr,
    /// The present preference.
    pub col: Colour,
    /// The colour that carried the last round that was carried at all.
    pub lastcol: Colour,
    /// How many rounds in a row `lastcol` has carried since it first did.
    pub cnt: u32,
    /// How often each colour has carried a round.
    pub d: Confidence,
}

/// The state of a node as a value.
pub struct SnowballView {
    pub addr: Seq<char>,
    pub col: Colour,
    pub lastcol: Colour,
    pub cnt: nat,
    pub red: nat,
    pub blue: nat,
}

impl View for Snowball {
    type V = SnowballView;

    open spec fn view(&self) -> SnowballView {
        SnowballView {
            addr: self.addr@,
            col: self.col,
            lastcol: self.lastcol,
            cnt: self.cnt as nat,
            red: self.d.red as nat,
            blue: self.d.blue as nat,
        }
    }
}

/// How many of `votes` name `colour`.
pub open spec fn tally(votes: Seq<Colour>, colour: Colour) -> nat
    decreases votes.len(),
{
    if votes.len() == 0 {
        0
    } else {
        tally(votes.drop_last(), colour) + if votes.last() == colour {
            1nat
        } else {
            0nat
        }
    }
}

/// The votes that count in one round: the first `K`.
pub open spec fn counted(votes: Seq<Colour>) -> Seq<Colour> {
    if votes.len() <= K {
        votes
    } else {
        votes.take(K as int)
    }
}

/// The votes that wait on once a round has counted its share.
pub open spec fn uncounted(votes: Seq<Colour>) -> Seq<Colour> {
    votes.skip(counted(votes).len() as int)
}

/// Whether a node in state `s` has decided.
pub open spec fn decided(s: SnowballView) -> bool {
    s.cnt > B
}

/// The confidence of `s` in its present preference.
pub open spec fn confidence(s: SnowballView) -> nat {
    if s.col == Colour::Blue {
        s.blue
    } else {
        s.red
    }
}

/// The state after a round that `colour` has carried.
pub open spec fn carried(s: SnowballView, colour: Colour) -> SnowballView {
    let red = if colour == Colour::Red {
        s.red + 1
    } else {
        s.red
    };
    let blue = if colour == Colour::Blue {
        s.blue + 1
    } else {
        s.blue
    };
    let gained = if colour == Colour::Red {
        red
    } else {
        blue
    };
    SnowballView {
        addr: s.addr,
        col: if gained > confidence(s) {
            colour
        } else {
            s.col
        },
        lastcol: colour,
        cnt: if s.lastcol == colour {
            s.cnt + 1
        } else {
            0
        },
        red,
        blue,
    }
}

/// The state after a round with the given answers. Red is looked at first;
/// with at most `K` answers no round is carried by both colours.
pub open spec fn after_round(s: SnowballView, votes: Seq<Colour>) -> SnowballView {
    let first = if tally(votes, Colour::Red) > QUIESCENT_POINT {
        carried(s, Colour::Red)
    } else {
        s
    };
    if decided(first) {
        first
    } else if tally(votes, Colour::Blue) > QUIESCENT_POINT {
        carried(first, Colour::Blue)
    } else {
        first
    }
}

/// Whether a node in state `s` takes part in a round when `eligible` peers
/// can be asked: it has a preference, has not decided, and `K` peers can be
/// asked.
pub open spec fn takes_part(s: SnowballView, eligible: nat) -> bool {
    !decided(s) && s.col != Colour::Undecided && eligible >= K
}

/// Whether a round with the answers `votes` takes a node from `before` to
/// `after` and has it ask `peers`, when `pool` are the peers that can be
/// asked.
///
/// A node that takes part asks `K` distinct peers of `pool` and updates its
/// state by the first `K` answers. A node that does not take part stays as
/// it is and asks nobody.
pub open spec fn is_round(
    before: SnowballView,
    votes: Seq<Colour>,
    pool: Set<Seq<char>>,
    after: SnowballView,
    peers: Seq<Seq<char>>,
) -> bool {
    if takes_part(before, pool.len()) {
        &&& after == after_round(before, counted(votes))
        &&& peers.len() == K
        &&& peers.no_duplicates()
        &&& peers.to_set().subset_of(pool)
    } else {
        after == before && peers.len() == 0
    }
}

/// The votes that wait after a round: a node that takes part counts its
/// share of them, any other node leaves them all.
pub open spec fn votes_after(before: SnowballView, votes: Seq<Colour>, pool: Set<Seq<char>>) -> Seq<
    Colour,
> {
    if takes_part(before, pool.len()) {
        uncounted(votes)
    } else {
        votes
    }
}

/// The colour with the given index: 0 is undecided, 1 red, 2 blue.
pub open spec fn colour_at(index: nat) -> Colour {
    if index == 1 {
        Colour::Red
    } else if index == 2 {
        Colour::Blue
    } else {
        Colour::Undecided
    }
}

/// The colour with the given index.
pub fn colour_with(index: usize) -> (col: Colour)
    ensures
        col == colour_at(index as nat),
{
    if index == 1 {
        Colour::Red
    } else if index == 2 {
        Colour::Blue
    } else {
        Colour::Undecided
    }
}

/// The red and the blue answers among `votes`. An undecided answer counts
/// for neither.
pub fn outcome(votes: Vec<Colour>) -> (r: (u32, u32))
    requires
        votes.len() <= u32::MAX,
    ensures
        r.0 == tally(votes@, Colour::Red),
        r.1 == tally(votes@, Colour::Blue),
{
    let mut red: u32 = 0;
    let mut blue: u32 = 0;
    let mut i: usize = 0;
    while i < votes.len()
        invariant
            i <= votes.len(),
            votes.len() <= u32::MAX,
            red == tally(votes@.take(i as int), Colour::Red),
            blue == tally(votes@.take(i as int), Colour::Blue),
            red + blue <= i,
        decreases votes.len() - i,
    {
        assert(votes@.take(i + 1).drop_last() =~= votes@.take(i as int));
        match votes[i] {
            Colour::Red => {
                red = red + 1;
            },
            Colour::Blue => {
                blue = blue + 1;
            },
            Colour::Undecided => {},
        }
        i = i + 1;
    }
    assert(votes@.take(i as int) =~= votes@);
    (red, blue)
}

/// Takes the votes that count in one round out of `votes`: the first `K`,
/// or all of them where there are fewer. The others wait on.
pub fn take_counted(votes: &mut Vec<Colour>) -> (taken: Vec<Colour>)
    ensures
        taken@ == counted(old(votes)@),
        final(votes)@ == uncounted(old(votes)@),
{
    let n = if votes.len() > K {
        K
    } else {
        votes.len()
    };
    let mut rest = votes.split_off(n);
    std::mem::swap(votes, &mut rest);
    proof {
        assert(rest@ =~= counted(old(votes)@));
        assert(votes@ =~= uncounted(old(votes)@));
    }
    rest
}

/// No more votes name a colour than there are votes, and red and blue
/// together get no more than all.
pub proof fn lemma_tally_bound(votes: Seq<Colour>)
    ensures
        tally(votes, Colour::Red) + tally(votes, Colour::Blue) <= votes.len(),
    decreases votes.len(),
{
    if votes.len() > 0 {
        lemma_tally_bound(votes.drop_last());
    }
}

/// What a round asks of the caller and what has come of it.
pub struct Round {
    /// The peers to send a query to.
    pub peers: Vec<NetAddr>,
    /// The colour that the queries carry: the preference before the round.
    pub col: Colour,
    /// Whether the node has decided.
    pub decided: bool,
}

impl Snowball {
    /// A node that starts with a preference drawn at random among
    /// undecided, red and blue.
    pub fn new(addr: NetAddr) -> (s: Snowball)
        ensures
            s@.addr == addr@,
            s@.lastcol == s@.col,
            s@.cnt == 0,
            s@.red == 0,
            s@.blue == 0,
    {
        let r = random_below(3);
        Snowball::with_colour(addr, colour_with(r))
    }

    /// A node that starts with the preference `col`.
    pub fn with_colour(addr: NetAddr, col: Colour) -> (s: Snowball)
        ensures
            s@ == (SnowballView { addr: addr@, col, lastcol: col, cnt: 0, red: 0, blue: 0 }),
    {
        Snowball { addr, col, lastcol: col, cnt: 0u32, d: Confidence { red: 0u32, blue: 0u32 } }
    }

    /// Sets the preference.
    pub fn set_col(&mut self, col: Colour)
        ensures
            final(self)@ == (SnowballView { col, ..old(self)@ }),
    {
        self.col = col;
    }

    /// Sets the colour that carried the last round.
    pub fn set_lastcol(&mut self, col: Colour)
        ensures
            final(self)@ == (SnowballView { lastcol: col, ..old(self)@ }),
    {
        self.lastcol = col;
    }

    /// Sets the length of the streak.
    pub fn set_cnt(&mut self, cnt: u32)
        ensures
            final(self)@ == (SnowballView { cnt: cnt as nat, ..old(self)@ }),
    {
        self.cnt = cnt;
    }

    /// The query that tells a peer this node's address and `col`.
    pub fn send_query(&self, col: Colour) -> (message: Request)
        ensures
            message@ == RequestView::Query(self@.addr, col),
    {
        Request::Query(self.addr.clone(), col)
    }

    /// Answers a query that names the colour `col`: a node without a
    /// preference takes `col` as its own; the answer is the node's
    /// preference after that.
    pub fn handle_query(&mut self, col: Colour) -> (answer: Response)
        ensures
            final(self)@ == (SnowballView {
                col: if old(self)@.col == Colour::Undecided {
                    col
                } else {
                    old(self)@.col
                },
                ..old(self)@
            }),
            answer@ == ResponseView::Respond(final(self)@.col),
    {
        if self.col != Colour::Undecided {
            Response::Respond(self.col)
        } else {
            self.set_col(col);
            Response::Respond(self.col)
        }
    }

    /// The state after a round that `colour` has carried.
    fn carry(&mut self, colour: Colour)
        requires
            colour != Colour::Undecided,
            old(self)@.col != Colour::Undecided,
            !decided(old(self)@),
            old(self).d.red < u32::MAX,
            old(self).d.blue < u32::MAX,
        ensures
            final(self)@ == carried(old(self)@, colour),
    {
        let own = match self.col {
            Colour::Blue => self.d.blue,
            _ => self.d.red,
        };
        let gained = match colour {
            Colour::Red => {
                self.d.red = self.d.red + 1;
                self.d.red
            },
            _ => {
                self.d.blue = self.d.blue + 1;
                self.d.blue
            },
        };
        if gained > own {
            self.set_col(colour);
        }
        if self.lastcol == colour {
            let cnt = self.cnt;
            self.set_cnt(cnt + 1);
        } else {
            self.set_lastcol(colour);
            self.set_cnt(0u32);
        }
    }

    /// One round. `votes` are the answers to earlier queries that have come
    /// in and not been counted yet, oldest first.
    ///
    /// A node that has decided stays as it is. A node that takes part picks
    /// `K` distinct peers other than itself to be asked next, takes the
    /// first `K` votes out of `votes`, and updates its state by them: a
    /// colour that more than the quorum threshold of them name carries the
    /// round. A node that does not take part leaves the votes where they
    /// are.
    pub fn run(&mut self, votes: &mut Vec<Colour>, membership: &Membership) -> (round: Round)
        requires
            old(self).d.red < u32::MAX,
            old(self).d.blue < u32::MAX,
        ensures
            round.col == old(self)@.col,
            round.decided == decided(final(self)@),
            is_round(
                old(self)@,
                old(votes)@,
                candidates(membership@, seq![old(self)@.addr]),
                final(self)@,
                addr_views(round.peers@),
            ),
            final(votes)@ == votes_after(
                old(self)@,
                old(votes)@,
                candidates(membership@, seq![old(self)@.addr]),
            ),
    {
        let col = self.col;
        if self.cnt > B || self.col == Colour::Undecided {
            return Round { peers: Vec::new(), col, decided: self.cnt > B };
        }
        let mut exclude: Vec<NetAddr> = Vec::new();
        exclude.push(self.addr.clone());
        assert(addr_views(exclude@) =~= seq![self@.addr]);
        if membership.candidate_count(&exclude) < K {
            return Round { peers: Vec::new(), col, decided: false };
        }
        let peers = membership.sample(K, exclude);
        let counted_votes = take_counted(votes);
        proof {
            lemma_tally_bound(counted_votes@);
        }
        let (red, blue) = outcome(counted_votes);
        if red > QUIESCENT_POINT {
            self.carry(Colour::Red);
            if self.cnt > B {
                return Round { peers, col, decided: true };
            }
        }
        if blue > QUIESCENT_POINT {
            self.carry(Colour::Blue);
            if self.cnt > B {
                return Round { peers, col, decided: true };
            }
        }
        Round { peers, col, decided: false }
    }
}

/// With at most `K` answers, red and blue do not both carry a round.
pub proof fn law_one_colour_carries(votes: Seq<Colour>)
    ensures
        !(tally(counted(votes), Colour::Red) > QUIESCENT_POINT && tally(
            counted(votes),
            Colour::Blue,
        ) > QUIESCENT_POINT),
{
    lemma_tally_bound(counted(votes));
}

/// A node that has decided keeps its state through every round.
pub proof fn law_decided_is_final(s: SnowballView, eligible: nat)
    requires
        decided(s),
    ensures
        !takes_part(s, eligible),
{
}

} // verus!
