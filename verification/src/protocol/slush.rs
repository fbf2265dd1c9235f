//! Slush: the plain form of the sampling rounds. A node takes the colour
//! that carries a round and never decides.

use crate::membership::{candidates, Membership};
use crate::message::{addr_views, NetAddr, Request, RequestView, Response, ResponseView};
use crate::protocol::snowball::{
    colour_with, counted, lemma_tally_bound, outcome, take_counted, tally, uncounted, K,
    QUIESCENT_POINT,
};
use crate::protocol::types::Colour;
use crate::random::random_below;
use vstd::prelude::*;

verus! {

/// The state of one node.
pub struct Slush {
    /// The node's own address.
    pub addr: NetAddr,
    /// The present preference.
    pub col: Colour,
}

/// The preference after a round with the given answers.
pub open spec fn flipped(col: Colour, votes: Seq<Colour>) -> Colour {
    if tally(votes, Colour::Blue) > QUIESCENT_POINT {
        Colour::Blue
    } else if tally(votes, Colour::Red) > QUIESCENT_POINT {
        Colour::Red
    } else {
        col
    }
}

/// Whether a node with preference `col` takes part in a round when
/// `eligible` peers can be asked.
pub open spec fn samples(col: Colour, eligible: nat) -> bool {
    col != Colour::Undecided && eligible >= K
}

impl Slush {
    /// A node that starts with a preference drawn at random among
    /// undecided, red and blue.
    pub fn new(addr: NetAddr) -> (s: Slush)
        ensures
            s.addr@ == addr@,
    {
        let r = random_below(3);
        Slush::with_colour(addr, colour_with(r))
    }

    /// A node that starts with the preference `col`.
    pub fn with_colour(addr: NetAddr, col: Colour) -> (s: Slush)
        ensures
            s.addr@ == addr@,
            s.col == col,
    {
        Slush { addr, col }
    }

    /// Sets the preference.
    pub fn set_col(&mut self, col: Colour)
        ensures
            final(self).col == col,
            final(self).addr == old(self).addr,
    {
        self.col = col;
    }

    /// The query that tells a peer this node's address and `col`.
    pub fn send_query(&self, col: Colour) -> (message: Request)
        ensures
            message@ == RequestView::Query(self.addr@, col),
    {
        Request::Query(self.addr.clone(), col)
    }

    /// Answers a query that names the colour `col`: a node without a
    /// preference takes `col` as its own; the answer is the node's
    /// preference after that.
    pub fn handle_query(&mut self, col: Colour) -> (answer: Response)
        ensures
            final(self).addr == old(self).addr,
            final(self).col == if old(self).col == Colour::Undecided {
                col
            } else {
                old(self).col
            },
            answer@ == ResponseView::Respond(final(self).col),
    {
        if self.col != Colour::Undecided {
            Response::Respond(self.col)
        } else {
            self.set_col(col);
            Response::Respond(self.col)
        }
    }

    /// One round. `votes` are the answers to earlier queries that have come
    /// in and not been counted yet, oldest first. A node that takes part
    /// picks `K` distinct peers other than itself to be asked next, takes
    /// the first `K` votes out of `votes`, and takes the colour that carries
    /// the round, if one does. A node that does not take part leaves the
    /// votes where they are. The result names the peers to ask; the queries
    /// carry the preference before the round.
    pub fn run(&mut self, votes: &mut Vec<Colour>, membership: &Membership) -> (peers: Vec<
        NetAddr,
    >)
        ensures
            final(self).addr == old(self).addr,
            samples(old(self).col, candidates(membership@, seq![old(self).addr@]).len())
                ==> final(self).col == flipped(old(self).col, counted(old(votes)@))
                && final(votes)@ == uncounted(old(votes)@) && peers.len() == K && addr_views(
                peers@,
            ).no_duplicates() && addr_views(peers@).to_set().subset_of(
                candidates(membership@, seq![old(self).addr@]),
            ),
            !samples(old(self).col, candidates(membership@, seq![old(self).addr@]).len())
                ==> final(self).col == old(self).col && final(votes)@ == old(votes)@
                && peers.len() == 0,
    {
        if self.col == Colour::Undecided {
            return Vec::new();
        }
        let mut exclude: Vec<NetAddr> = Vec::new();
        exclude.push(self.addr.clone());
        assert(addr_views(exclude@) =~= seq![self.addr@]);
        if membership.candidate_count(&exclude) < K {
            return Vec::new();
        }
        let peers = membership.sample(K, exclude);
        let counted_votes = take_counted(votes);
        proof {
            lemma_tally_bound(counted_votes@);
        }
        let (red, blue) = outcome(counted_votes);
        if red > QUIESCENT_POINT {
            self.set_col(Colour::Red);
        }
        if blue > QUIESCENT_POINT {
            self.set_col(Colour::Blue);
        }
        peers
    }
}

} // verus!
