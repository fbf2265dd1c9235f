//! A directed multigraph on the vertices `0 .. v`, stored as adjacency lists.

use vstd::prelude::*;
use vstd::string::StringExecFns;

verus! {

/// Number of edges that `lists` holds in total.
pub open spec fn edge_total(lists: Seq<Seq<u32>>) -> nat
    decreases lists.len(),
{
    if lists.len() == 0 {
        0
    } else {
        edge_total(lists.drop_last()) + lists.last().len()
    }
}

/// Number of occurrences of `w` in `targets`.
pub open spec fn occurrences(targets: Seq<u32>, w: u32) -> nat
    decreases targets.len(),
{
    if targets.len() == 0 {
        0
    } else {
        occurrences(targets.drop_last(), w) + if targets.last() == w {
            1nat
        } else {
            0nat
        }
    }
}

/// Number of edges in `lists` that point at `w`.
pub open spec fn incoming(lists: Seq<Seq<u32>>, w: u32) -> nat
    decreases lists.len(),
{
    if lists.len() == 0 {
        0
    } else {
        incoming(lists.drop_last(), w) + occurrences(lists.last(), w)
    }
}

/// The sources of the edges into `w` among the first `n` adjacency lists:
/// vertices in ascending order, each once per parallel edge.
pub open spec fn sources(lists: Seq<Seq<u32>>, w: u32, n: nat) -> Seq<u32>
    recommends
        n <= lists.len(),
    decreases n,
{
    if n == 0 {
        Seq::empty()
    } else {
        sources(lists, w, (n - 1) as nat) + Seq::new(
            occurrences(lists[n - 1], w),
            |i: int| (n - 1) as u32,
        )
    }
}

/// One more target in one list is one more edge in all.
pub proof fn lemma_edge_total_push(lists: Seq<Seq<u32>>, v: int, w: u32)
    requires
        0 <= v < lists.len(),
    ensures
        edge_total(lists.update(v, lists[v].push(w))) == edge_total(lists) + 1,
    decreases lists.len(),
{
    let after = lists.update(v, lists[v].push(w));
    if v == lists.len() - 1 {
        assert(after.drop_last() =~= lists.drop_last());
    } else {
        assert(after.drop_last() =~= lists.drop_last().update(v, lists[v].push(w)));
        lemma_edge_total_push(lists.drop_last(), v, w);
    }
}

/// One more target is one more occurrence of that target, and of no other.
pub proof fn lemma_occurrences_push(targets: Seq<u32>, w: u32, x: u32)
    ensures
        occurrences(targets.push(w), x) == occurrences(targets, x) + if w == x {
            1nat
        } else {
            0nat
        },
{
    assert(targets.push(w).drop_last() =~= targets);
}

/// One more edge into `w` is one more edge into `w`, and into no other
/// vertex.
pub proof fn lemma_incoming_push(lists: Seq<Seq<u32>>, v: int, w: u32, x: u32)
    requires
        0 <= v < lists.len(),
    ensures
        incoming(lists.update(v, lists[v].push(w)), x) == incoming(lists, x) + if w == x {
            1nat
        } else {
            0nat
        },
    decreases lists.len(),
{
    let after = lists.update(v, lists[v].push(w));
    if v == lists.len() - 1 {
        assert(after.drop_last() =~= lists.drop_last());
        lemma_occurrences_push(lists[v], w, x);
    } else {
        assert(after.drop_last() =~= lists.drop_last().update(v, lists[v].push(w)));
        lemma_incoming_push(lists.drop_last(), v, w, x);
    }
}

/// No more edges enter one vertex than there are edges.
pub proof fn lemma_incoming_le_total(lists: Seq<Seq<u32>>, w: u32)
    ensures
        incoming(lists, w) <= edge_total(lists),
    decreases lists.len(),
{
    if lists.len() > 0 {
        lemma_incoming_le_total(lists.drop_last(), w);
        lemma_occurrences_le_len(lists.last(), w);
    }
}

/// A target occurs no more often in a list than the list is long.
pub proof fn lemma_occurrences_le_len(targets: Seq<u32>, w: u32)
    ensures
        occurrences(targets, w) <= targets.len(),
    decreases targets.len(),
{
    if targets.len() > 0 {
        lemma_occurrences_le_len(targets.drop_last(), w);
    }
}

/// The edges of the first `n + 1` lists are those of the first `n` and of the
/// next list, and no more than all.
pub proof fn lemma_edge_total_take(lists: Seq<Seq<u32>>, n: int)
    requires
        0 <= n < lists.len(),
    ensures
        edge_total(lists.take(n + 1)) == edge_total(lists.take(n)) + lists[n].len(),
        edge_total(lists.take(n + 1)) <= edge_total(lists),
    decreases lists.len() - n,
{
    assert(lists.take(n + 1).drop_last() =~= lists.take(n));
    if n + 1 < lists.len() {
        lemma_edge_total_take(lists, n + 1);
        lemma_edge_total_take_le(lists, n + 1);
    } else {
        assert(lists.take(n + 1) =~= lists);
    }
}

/// The first `n` lists hold no more edges than all the lists.
pub proof fn lemma_edge_total_take_le(lists: Seq<Seq<u32>>, n: int)
    requires
        0 <= n <= lists.len(),
    ensures
        edge_total(lists.take(n)) <= edge_total(lists),
    decreases lists.len() - n,
{
    if n < lists.len() {
        assert(lists.take(n + 1).drop_last() =~= lists.take(n));
        lemma_edge_total_take_le(lists, n + 1);
    } else {
        assert(lists.take(n) =~= lists);
    }
}

/// The occurrences in two lists, one put behind the other, add up.
pub proof fn lemma_occurrences_add(a: Seq<u32>, b: Seq<u32>, x: u32)
    ensures
        occurrences(a + b, x) == occurrences(a, x) + occurrences(b, x),
    decreases b.len(),
{
    if b.len() == 0 {
        assert(a + b =~= a);
    } else {
        assert((a + b).drop_last() =~= a + b.drop_last());
        lemma_occurrences_add(a, b.drop_last(), x);
    }
}

/// A list that names `k` and nothing else holds `k` as often as it is long,
/// and no other vertex.
pub proof fn lemma_occurrences_repeat(c: nat, k: u32, x: u32)
    ensures
        occurrences(Seq::new(c, |i: int| k), x) == if x == k {
            c
        } else {
            0
        },
    decreases c,
{
    if c > 0 {
        assert(Seq::new(c, |i: int| k).drop_last() =~= Seq::new((c - 1) as nat, |i: int| k));
        lemma_occurrences_repeat((c - 1) as nat, k, x);
    }
}

/// A vertex is among the sources of the edges into `w` as often as `w` is
/// among its targets.
pub proof fn lemma_sources_occurrences(lists: Seq<Seq<u32>>, w: u32, n: nat, u: u32)
    requires
        n <= lists.len(),
        n <= u32::MAX,
    ensures
        occurrences(sources(lists, w, n), u) == if u < n {
            occurrences(lists[u as int], w)
        } else {
            0
        },
    decreases n,
{
    if n > 0 {
        let k = (n - 1) as u32;
        let c = occurrences(lists[n - 1], w);
        let head = sources(lists, w, (n - 1) as nat);
        lemma_sources_occurrences(lists, w, (n - 1) as nat, u);
        lemma_occurrences_repeat(c, k, u);
        lemma_occurrences_add(head, Seq::new(c, |i: int| k), u);
        assert(sources(lists, w, n) =~= head + Seq::new(c, |i: int| k));
    }
}

/// The edges into `w` have as many sources as edges enter `w`.
pub proof fn lemma_sources_len(lists: Seq<Seq<u32>>, w: u32, n: nat)
    requires
        n <= lists.len(),
    ensures
        sources(lists, w, n).len() == incoming(lists.take(n as int), w),
    decreases n,
{
    if n > 0 {
        lemma_sources_len(lists, w, (n - 1) as nat);
        assert(lists.take(n as int).drop_last() =~= lists.take(n - 1));
        assert(lists.take(n as int).last() == lists[n - 1]);
    }
}

/// The numeral for a digit.
pub open spec fn digit_text(d: nat) -> Seq<char> {
    if d == 0 {
        "0"@
    } else if d == 1 {
        "1"@
    } else if d == 2 {
        "2"@
    } else if d == 3 {
        "3"@
    } else if d == 4 {
        "4"@
    } else if d == 5 {
        "5"@
    } else if d == 6 {
        "6"@
    } else if d == 7 {
        "7"@
    } else if d == 8 {
        "8"@
    } else {
        "9"@
    }
}

/// A number in decimal notation.
pub open spec fn decimal(n: nat) -> Seq<char>
    decreases n,
{
    if n < 10 {
        digit_text(n)
    } else {
        decimal(n / 10) + digit_text(n % 10)
    }
}

/// The targets of one vertex in decimal notation, each followed by a blank.
pub open spec fn targets_text(targets: Seq<u32>) -> Seq<char>
    decreases targets.len(),
{
    if targets.len() == 0 {
        Seq::empty()
    } else {
        targets_text(targets.drop_last()) + decimal(targets.last() as nat) + " "@
    }
}

/// One line for each of the first `n` vertices: the vertex, a colon, and its
/// targets.
pub open spec fn rows_text(lists: Seq<Seq<u32>>, n: nat) -> Seq<char>
    decreases n,
{
    if n == 0 {
        Seq::empty()
    } else {
        rows_text(lists, (n - 1) as nat) + decimal((n - 1) as nat) + ": "@ + targets_text(
            lists[n - 1],
        ) + "\n"@
    }
}

/// A graph in words: a line with the numbers of vertices and edges, then one
/// line for each vertex.
pub open spec fn digraph_text(lists: Seq<Seq<u32>>) -> Seq<char> {
    decimal(lists.len()) + " vertices, "@ + decimal(edge_total(lists)) + " edges\n"@ + rows_text(
        lists,
        lists.len(),
    )
}

/// The numeral for a digit.
fn digit_str(d: u32) -> (text: &'static str)
    requires
        d < 10,
    ensures
        text@ == digit_text(d as nat),
{
    if d == 0 {
        "0"
    } else if d == 1 {
        "1"
    } else if d == 2 {
        "2"
    } else if d == 3 {
        "3"
    } else if d == 4 {
        "4"
    } else if d == 5 {
        "5"
    } else if d == 6 {
        "6"
    } else if d == 7 {
        "7"
    } else if d == 8 {
        "8"
    } else {
        "9"
    }
}

/// A number in decimal notation.
pub fn decimal_string(n: u32) -> (text: String)
    ensures
        text@ == decimal(n as nat),
    decreases n,
{
    if n < 10 {
        String::from_str(digit_str(n))
    } else {
        let mut text = decimal_string(n / 10);
        text.append(digit_str(n % 10));
        text
    }
}

/// The adjacency lists as sequences.
pub open spec fn lists_of(adj: Seq<Vec<u32>>) -> Seq<Seq<u32>> {
    Seq::new(adj.len(), |a: int| adj[a]@)
}

/// A directed graph in which an edge may occur more than once.
#[derive(Debug)]
pub struct Digraph {
    v: u32,
    e: u32,
    adj: Vec<Vec<u32>>,
    indegree: Vec<u32>,
}

impl Digraph {
    /// The adjacency lists: `lists()[v]` holds the targets of the edges that
    /// leave `v`, in the order in which they were added.
    pub closed spec fn lists(&self) -> Seq<Seq<u32>> {
        lists_of(self.adj@)
    }

    /// Number of vertices.
    pub closed spec fn order(&self) -> nat {
        self.v as nat
    }

    /// The graph has a vertex, one list and one count of entering edges for
    /// each vertex, and every target is a vertex; the counts are right.
    pub closed spec fn wf(&self) -> bool {
        &&& self.v > 0
        &&& self.adj.len() == self.v
        &&& self.indegree.len() == self.v
        &&& self.e == edge_total(self.lists())
        &&& forall|w: int|
            0 <= w < self.v ==> #[trigger] self.indegree[w] == incoming(self.lists(), w as u32)
        &&& forall|a: int, i: int|
            0 <= a < self.v && 0 <= i < self.lists()[a].len() ==> #[trigger] self.lists()[a][i]
                < self.v
    }

    /// A graph with `v` vertices and no edges.
    pub fn new(v: u32) -> (g: Digraph)
        requires
            v > 0,
        ensures
            g.wf(),
            g.order() == v,
            g.lists().len() == v,
            forall|a: int| 0 <= a < v ==> #[trigger] g.lists()[a] == Seq::<u32>::empty(),
            edge_total(g.lists()) == 0,
            forall|w: u32| incoming(g.lists(), w) == 0,
    {
        let mut adj: Vec<Vec<u32>> = Vec::new();
        let mut indegree: Vec<u32> = Vec::new();
        let mut i: u32 = 0;
        while i < v
            invariant
                i <= v,
                adj.len() == i,
                indegree.len() == i,
                forall|a: int| 0 <= a < i ==> (#[trigger] adj@[a])@ == Seq::<u32>::empty(),
                forall|a: int| 0 <= a < i ==> #[trigger] indegree[a] == 0,
                edge_total(lists_of(adj@)) == 0,
                forall|w: u32| incoming(lists_of(adj@), w) == 0,
            decreases v - i,
        {
            let ghost before = lists_of(adj@);
            adj.push(Vec::new());
            indegree.push(0);
            proof {
                assert(lists_of(adj@).drop_last() =~= before);
                assert(lists_of(adj@).last() =~= Seq::<u32>::empty());
                assert(edge_total(lists_of(adj@)) == 0);
                assert forall|w: u32| incoming(lists_of(adj@), w) == 0 by {
                    assert(incoming(before, w) == 0);
                    assert(occurrences(Seq::<u32>::empty(), w) == 0);
                }
            }
            i = i + 1;
        }
        Digraph { v, e: 0, adj, indegree }
    }

    /// Number of vertices.
    pub fn v(&self) -> (n: u32)
        ensures
            n == self.order(),
            self.wf() ==> n > 0 && self.lists().len() == n,
    {
        self.v
    }

    /// Number of edges.
    pub fn e(&self) -> (n: u32)
        requires
            self.wf(),
        ensures
            n == edge_total(self.lists()),
    {
        self.e
    }

    /// Whether `v` names a vertex of this graph.
    pub fn validate_vertex(&self, v: u32) -> (ok: bool)
        ensures
            ok == (v < self.order()),
    {
        v < self.v
    }

    /// Adds the edge `v -> w` behind the edges that leave `v` already. Both
    /// ends must be vertices of the graph, and the edge counter must have
    /// room for one more.
    ///
    /// Code that is not verified is not held to this: called from there with
    /// a vertex outside the graph or with a full counter, the function
    /// leaves the graph as it is.
    pub fn add_edge(&mut self, v: u32, w: u32)
        requires
            old(self).wf(),
            v < old(self).order(),
            w < old(self).order(),
            edge_total(old(self).lists()) < u32::MAX,
        ensures
            final(self).wf(),
            final(self).order() == old(self).order(),
            final(self).lists().len() == old(self).order(),
            final(self).lists() == old(self).lists().update(
                v as int,
                old(self).lists()[v as int].push(w),
            ),
            edge_total(final(self).lists()) == edge_total(old(self).lists()) + 1,
            forall|x: u32|
                incoming(final(self).lists(), x) == #[trigger] incoming(old(self).lists(), x)
                    + if x == w {
                    1nat
                } else {
                    0nat
                },
    {
        if !self.validate_vertex(v) || !self.validate_vertex(w) || self.e == u32::MAX {
            return ;
        }
        let ghost before = self.lists();
        proof {
            lemma_incoming_le_total(before, w);
        }
        self.adj[v as usize].push(w);
        self.indegree[w as usize] += 1;
        self.e += 1;
        proof {
            let after = self.lists();
            assert(after =~= before.update(v as int, before[v as int].push(w)));
            lemma_edge_total_push(before, v as int, w);
            assert forall|x: u32|
                incoming(after, x) == #[trigger] incoming(before, x) + if x == w {
                    1nat
                } else {
                    0nat
                } by {
                lemma_incoming_push(before, v as int, w, x);
            }
        }
    }

    /// The targets of the edges that leave `v`, in insertion order.
    pub fn adj(&self, v: u32) -> (targets: Vec<u32>)
        requires
            self.wf(),
            v < self.order(),
        ensures
            targets@ == self.lists()[v as int],
    {
        let list = &self.adj[v as usize];
        let mut targets: Vec<u32> = Vec::new();
        let mut i: usize = 0;
        while i < list.len()
            invariant
                i <= list.len(),
                targets@ == list@.take(i as int),
            decreases list.len() - i,
        {
            targets.push(list[i]);
            assert(targets@ =~= list@.take(i + 1));
            i = i + 1;
        }
        assert(targets@ =~= list@);
        targets
    }

    /// Number of edges that leave `v`.
    pub fn outdegree(&self, v: u32) -> (n: usize)
        requires
            self.wf(),
            v < self.order(),
        ensures
            n == self.lists()[v as int].len(),
    {
        self.adj[v as usize].len()
    }

    /// Number of edges that enter `v`.
    pub fn indegree(&self, v: u32) -> (n: u32)
        requires
            self.wf(),
            v < self.order(),
        ensures
            n == incoming(self.lists(), v),
    {
        self.indegree[v as usize]
    }

    /// The graph in words.
    pub fn describe(&self) -> (text: String)
        requires
            self.wf(),
        ensures
            text@ == digraph_text(self.lists()),
    {
        let mut text = decimal_string(self.v);
        text.append(" vertices, ");
        text.append(decimal_string(self.e).as_str());
        text.append(" edges\n");
        let ghost head = text@;
        let mut v: usize = 0;
        while v < self.adj.len()
            invariant
                self.wf(),
                v <= self.adj.len(),
                text@ == head + rows_text(self.lists(), v as nat),
            decreases self.adj.len() - v,
        {
            let ghost rows = rows_text(self.lists(), v as nat);
            text.append(decimal_string(v as u32).as_str());
            text.append(": ");
            let ghost start = text@;
            let list = &self.adj[v];
            let mut j: usize = 0;
            proof {
                assert(list@.take(0) =~= Seq::<u32>::empty());
                assert(start + targets_text(list@.take(0)) =~= start);
            }
            while j < list.len()
                invariant
                    j <= list.len(),
                    text@ == start + targets_text(list@.take(j as int)),
                decreases list.len() - j,
            {
                text.append(decimal_string(list[j]).as_str());
                text.append(" ");
                proof {
                    assert(list@.take(j + 1).drop_last() =~= list@.take(j as int));
                    assert(text@ =~= start + targets_text(list@.take(j + 1)));
                }
                j = j + 1;
            }
            text.append("\n");
            proof {
                assert(list@.take(j as int) =~= list@);
                assert(text@ =~= head + rows_text(self.lists(), (v + 1) as nat));
            }
            v = v + 1;
        }
        proof {
            assert(text@ =~= digraph_text(self.lists()));
        }
        text
    }

    /// The graph with every edge turned round: each edge `v -> w` of this
    /// graph becomes `w -> v`, and every adjacency list of the result names
    /// its targets in ascending order. The result has the same vertices and
    /// as many edges; as many edges leave a vertex of it as enter that
    /// vertex here, and as many enter as leave here.
    pub fn reverse(&self) -> (reverse: Digraph)
        requires
            self.wf(),
        ensures
            reverse.wf(),
            reverse.order() == self.order(),
            reverse.lists().len() == self.order(),
            forall|w: int|
                0 <= w < self.order() ==> #[trigger] reverse.lists()[w] == sources(
                    self.lists(),
                    w as u32,
                    self.order(),
                ),
            edge_total(reverse.lists()) == edge_total(self.lists()),
            forall|u: int|
                0 <= u < self.order() ==> (#[trigger] reverse.lists()[u]).len() == incoming(
                    self.lists(),
                    u as u32,
                ),
            forall|u: u32|
                u < self.order() ==> #[trigger] incoming(reverse.lists(), u)
                    == self.lists()[u as int].len(),
            forall|u: int, w: int|
                0 <= u < self.order() && 0 <= w < self.order() ==> occurrences(
                    #[trigger] reverse.lists()[u],
                    w as u32,
                ) == occurrences(#[trigger] self.lists()[w], u as u32),
    {
        let mut reverse = Digraph::new(self.v);
        let mut v: u32 = 0;
        proof {
            assert(self.lists().take(0) =~= Seq::<Seq<u32>>::empty());
        }
        while v < self.v
            invariant
                self.wf(),
                reverse.wf(),
                reverse.v == self.v,
                v <= self.v,
                forall|w: int|
                    0 <= w < self.v ==> #[trigger] reverse.lists()[w] == sources(
                        self.lists(),
                        w as u32,
                        v as nat,
                    ),
                edge_total(reverse.lists()) == edge_total(self.lists().take(v as int)),
                forall|x: u32|
                    #[trigger] incoming(reverse.lists(), x) == if x < v {
                        self.lists()[x as int].len()
                    } else {
                        0
                    },
            decreases self.v - v,
        {
            let list = &self.adj[v as usize];
            let mut j: usize = 0;
            proof {
                lemma_edge_total_take(self.lists(), v as int);
                assert forall|w: int| 0 <= w < self.v implies #[trigger] reverse.lists()[w]
                    == sources(self.lists(), w as u32, v as nat) + Seq::new(
                    occurrences(list@.take(0), w as u32),
                    |i: int| v,
                ) by {
                    assert(list@.take(0) =~= Seq::<u32>::empty());
                    assert(sources(self.lists(), w as u32, v as nat) + Seq::<u32>::empty()
                        =~= sources(self.lists(), w as u32, v as nat));
                }
            }
            while j < list.len()
                invariant
                    self.wf(),
                    reverse.wf(),
                    reverse.v == self.v,
                    v < self.v,
                    j <= list.len(),
                    list@ == self.lists()[v as int],
                    forall|w: int|
                        0 <= w < self.v ==> #[trigger] reverse.lists()[w] == sources(
                            self.lists(),
                            w as u32,
                            v as nat,
                        ) + Seq::new(occurrences(list@.take(j as int), w as u32), |i: int| v),
                    edge_total(reverse.lists()) == edge_total(self.lists().take(v as int)) + j,
                    edge_total(self.lists().take(v as int)) + list.len() <= edge_total(
                        self.lists(),
                    ),
                    forall|x: u32|
                        #[trigger] incoming(reverse.lists(), x) == if x < v {
                            self.lists()[x as int].len()
                        } else if x == v {
                            j as nat
                        } else {
                            0
                        },
                decreases list.len() - j,
            {
                let w = list[j];
                let ghost before = reverse.lists();
                proof {
                    assert(self.lists()[v as int][j as int] < self.v);
                }
                reverse.add_edge(w, v);
                proof {
                    assert(list@.take(j + 1).drop_last() =~= list@.take(j as int));
                    assert forall|x: u32|
                        #[trigger] incoming(reverse.lists(), x) == if x < v {
                            self.lists()[x as int].len()
                        } else if x == v {
                            (j + 1) as nat
                        } else {
                            0
                        } by {
                        assert(incoming(reverse.lists(), x) == incoming(before, x) + if x == v {
                            1nat
                        } else {
                            0nat
                        });
                    }
                    assert forall|x: int| 0 <= x < self.v implies #[trigger] reverse.lists()[x]
                        == sources(self.lists(), x as u32, v as nat) + Seq::new(
                        occurrences(list@.take(j + 1), x as u32),
                        |i: int| v,
                    ) by {
                        let base = sources(self.lists(), x as u32, v as nat);
                        let n = occurrences(list@.take(j as int), x as u32);
                        assert(before[x] == base + Seq::new(n, |i: int| v));
                        if x == w {
                            assert((base + Seq::new(n, |i: int| v)).push(v) =~= base + Seq::new(
                                n + 1,
                                |i: int| v,
                            ));
                        }
                    }
                }
                j = j + 1;
            }
            proof {
                assert(list@.take(j as int) =~= list@);
            }
            v = v + 1;
        }
        proof {
            let lists = self.lists();
            assert(lists.take(v as int) =~= lists);
            assert forall|u: int| 0 <= u < self.order() implies (#[trigger] reverse.lists()[u]).len()
                == incoming(lists, u as u32) by {
                lemma_sources_len(lists, u as u32, self.order());
            }
            assert forall|u: int, w: int|
                0 <= u < self.order() && 0 <= w < self.order() implies occurrences(
                #[trigger] reverse.lists()[u],
                w as u32,
            ) == occurrences(#[trigger] lists[w], u as u32) by {
                lemma_sources_occurrences(lists, u as u32, self.order(), w as u32);
            }
        }
        reverse
    }
}

} // verus!
