//! The rate graph over node numbers: each token id gets the number of its
//! place in the token list, and each node the list of its outgoing edges.
//! The numbers hold for one graph as it stands.

use vstd::hash_map::StringHashMap;
use vstd::prelude::*;

use crate::model::distinct_ids;
use crate::model::lemma_sorted_ids_are_distinct;
use crate::model::DirEdge;
use crate::model::Network;

verus! {

/// An edge between node numbers.
#[derive(Debug, Clone, Copy)]
pub struct IndexedEdge {
    pub from: usize,
    pub to: usize,
    /// The place in the graph's edge list of the edge this one stands for.
    pub source: usize,
}

/// A graph over the node numbers `0..nodes`.
#[derive(Debug, Clone)]
pub struct IndexedNetwork {
    pub nodes: usize,
    pub edges: Vec<IndexedEdge>,
    /// For each node the places in `edges` of the edges that leave it,
    /// ascending.
    pub adj: Vec<Vec<usize>>,
}

/// What a graph over node numbers holds: the count of its nodes, its edges,
/// and for each node the places of the edges that leave it.
pub struct Graph {
    pub nodes: nat,
    pub edges: Seq<IndexedEdge>,
    pub adj: Seq<Seq<usize>>,
}

/// The number of each of the first `n` token ids: its place in the list, and
/// for an id that occurs more than once the last of its places.
pub open spec fn token_index(tokens: Seq<String>, n: int) -> Map<Seq<char>, usize>
    decreases n,
{
    if n <= 0 {
        Map::empty()
    } else {
        token_index(tokens, n - 1).insert(tokens[n - 1]@, (n - 1) as usize)
    }
}

/// The first `m` edges over node numbers, in order. An edge with an end that
/// is no token of the graph is left out.
pub open spec fn indexed_upto<W>(tokens: Seq<String>, edges: Seq<DirEdge<W>>, m: int) -> Seq<
    IndexedEdge,
>
    decreases m,
{
    if m <= 0 {
        Seq::empty()
    } else {
        let index = token_index(tokens, tokens.len() as int);
        let edge = edges[m - 1];
        if index.contains_key(edge.from@) && index.contains_key(edge.to@) {
            indexed_upto(tokens, edges, m - 1).push(
                IndexedEdge {
                    from: index[edge.from@],
                    to: index[edge.to@],
                    source: (m - 1) as usize,
                },
            )
        } else {
            indexed_upto(tokens, edges, m - 1)
        }
    }
}

/// The places among the first `m` edges of those that leave `u`, ascending.
pub open spec fn outgoing(edges: Seq<IndexedEdge>, u: int, m: int) -> Seq<usize>
    decreases m,
{
    if m <= 0 {
        Seq::empty()
    } else if edges[m - 1].from == u {
        outgoing(edges, u, m - 1).push((m - 1) as usize)
    } else {
        outgoing(edges, u, m - 1)
    }
}

/// The graph over node numbers of a graph over token ids: the token at
/// place `i` is node `i`, the edges are those whose ends are both tokens, and
/// each node has the places of its outgoing edges, ascending.
pub open spec fn graph_of<W>(network: Network<W>) -> Graph {
    let edges = indexed_upto(network.tokens@, network.edges@, network.edges.len() as int);
    Graph {
        nodes: network.tokens.len() as nat,
        edges,
        adj: Seq::new(network.tokens.len() as nat, |u: int| outgoing(edges, u, edges.len() as int)),
    }
}

/// The token ids as text.
pub open spec fn ids_of(tokens: Seq<String>) -> Seq<Seq<char>> {
    tokens.map_values(|id: String| id@)
}

/// Two lists hold the same token ids in the same order.
pub open spec fn same_ids(a: Seq<String>, b: Seq<String>) -> bool {
    &&& a.len() == b.len()
    &&& forall|i: int| 0 <= i < a.len() ==> (#[trigger] a[i])@ == b[i]@
}

/// The numbering goes by the ids alone.
proof fn lemma_token_index_same(a: Seq<String>, b: Seq<String>, n: int)
    requires
        same_ids(a, b),
        n <= a.len(),
    ensures
        token_index(a, n) == token_index(b, n),
    decreases n,
{
    if n > 0 {
        lemma_token_index_same(a, b, n - 1);
        assert(a[n - 1]@ == b[n - 1]@);
    }
}

/// The edges over node numbers go by the ids of the tokens and of the ends
/// of the edges alone.
proof fn lemma_indexed_upto_same<W>(
    a: Seq<String>,
    b: Seq<String>,
    edges_a: Seq<DirEdge<W>>,
    edges_b: Seq<DirEdge<W>>,
    m: int,
)
    requires
        same_ids(a, b),
        m <= edges_a.len(),
        m <= edges_b.len(),
        forall|e: int|
            0 <= e < m ==> (#[trigger] edges_a[e]).from@ == edges_b[e].from@ && edges_a[e].to@
                == edges_b[e].to@,
    ensures
        indexed_upto(a, edges_a, m) == indexed_upto(b, edges_b, m),
    decreases m,
{
    if m > 0 {
        lemma_indexed_upto_same(a, b, edges_a, edges_b, m - 1);
        lemma_token_index_same(a, b, a.len() as int);
        assert(edges_a[m - 1].from@ == edges_b[m - 1].from@);
    }
}

/// Two graphs with the same token ids and edges between the same tokens are
/// the same graph over node numbers.
pub proof fn lemma_graph_of_same<W>(
    a: Seq<String>,
    b: Seq<String>,
    edges_a: Seq<DirEdge<W>>,
    edges_b: Seq<DirEdge<W>>,
)
    requires
        same_ids(a, b),
        edges_a.len() == edges_b.len(),
        forall|e: int|
            0 <= e < edges_a.len() ==> (#[trigger] edges_a[e]).from@ == edges_b[e].from@
                && edges_a[e].to@ == edges_b[e].to@,
    ensures
        indexed_upto(a, edges_a, edges_a.len() as int) == indexed_upto(
            b,
            edges_b,
            edges_b.len() as int,
        ),
{
    lemma_indexed_upto_same(a, b, edges_a, edges_b, edges_a.len() as int);
}

impl IndexedNetwork {
    /// What the graph holds.
    pub open spec fn view(&self) -> Graph {
        Graph {
            nodes: self.nodes as nat,
            edges: self.edges@,
            adj: self.adj@.map_values(|list: Vec<usize>| list@),
        }
    }

    /// Every edge joins two nodes, and each node's list holds its outgoing
    /// edges.
    pub open spec fn wf(&self) -> bool {
        &&& self.adj.len() == self.nodes
        &&& forall|k: int|
            0 <= k < self.edges.len() ==> (#[trigger] self.edges[k]).from < self.nodes
                && self.edges[k].to < self.nodes
        &&& forall|u: int|
            0 <= u < self.nodes ==> (#[trigger] self.adj[u])@ == outgoing(
                self.edges@,
                u,
                self.edges.len() as int,
            )
    }

    /// Each edge stands for an edge of `network` between the tokens whose
    /// numbers it joins.
    pub open spec fn indexes<W>(&self, network: Network<W>) -> bool {
        &&& self.nodes == network.tokens.len()
        &&& forall|k: int|
            0 <= k < self.edges.len() ==> {
                let edge = #[trigger] self.edges[k];
                &&& edge.source < network.edges.len()
                &&& edge.from < self.nodes
                &&& edge.to < self.nodes
                &&& network.tokens[edge.from as int]@ == network.edges[edge.source as int].from@
                &&& network.tokens[edge.to as int]@ == network.edges[edge.source as int].to@
            }
    }
}

/// A number in the index is a place in the list, and the id at that place is
/// the one it is the number of.
pub proof fn lemma_token_index_entries(tokens: Seq<String>, n: int)
    requires
        0 <= n <= tokens.len() <= usize::MAX,
    ensures
        forall|id: Seq<char>| #[trigger]
            token_index(tokens, n).contains_key(id) ==> 0 <= token_index(tokens, n)[id] < n
                && tokens[token_index(tokens, n)[id] as int]@ == id,
        forall|i: int| 0 <= i < n ==> token_index(tokens, n).contains_key(#[trigger] tokens[i]@),
    decreases n,
{
    if n > 0 {
        lemma_token_index_entries(tokens, n - 1);
        let before = token_index(tokens, n - 1);
        let now = token_index(tokens, n);
        assert(now == before.insert(tokens[n - 1]@, (n - 1) as usize));
        assert forall|id: Seq<char>| #[trigger] now.contains_key(id) implies 0 <= now[id] < n
            && tokens[now[id] as int]@ == id by {
            if id != tokens[n - 1]@ {
                assert(before.contains_key(id));
            }
        }
        assert forall|i: int| 0 <= i < n implies now.contains_key(#[trigger] tokens[i]@) by {
            if i < n - 1 {
                assert(before.contains_key(tokens[i]@));
            }
        }
    }
}

/// Where no token id occurs twice, the index is a bijection between the token
/// ids and the numbers `0..n`: every id in the list has a number below `n`,
/// the id at place `i` has the number `i`, and so two ids with one number are
/// one id, and every number below `n` is the number of an id.
pub proof fn lemma_index_is_bijection(tokens: Seq<String>)
    requires
        tokens.len() <= usize::MAX,
        distinct_ids(tokens),
    ensures
        forall|i: int|
            0 <= i < tokens.len() ==> token_index(tokens, tokens.len() as int).contains_key(
                #[trigger] tokens[i]@,
            ) && token_index(tokens, tokens.len() as int)[tokens[i]@] == i,
        forall|id: Seq<char>| #[trigger]
            token_index(tokens, tokens.len() as int).contains_key(id) ==> 0 <= token_index(
                tokens,
                tokens.len() as int,
            )[id] < tokens.len() && tokens[token_index(tokens, tokens.len() as int)[id] as int]@
                == id,
        forall|a: Seq<char>, b: Seq<char>|
            token_index(tokens, tokens.len() as int).contains_key(a) && token_index(
                tokens,
                tokens.len() as int,
            ).contains_key(b) && #[trigger] token_index(tokens, tokens.len() as int)[a]
                == #[trigger] token_index(tokens, tokens.len() as int)[b] ==> a == b,
{
    let n = tokens.len() as int;
    lemma_token_index_entries(tokens, n);
    assert forall|i: int| 0 <= i < n implies token_index(tokens, n)[#[trigger] tokens[i]@]
        == i by {
        let k = token_index(tokens, n)[tokens[i]@] as int;
        assert(tokens[k]@ == tokens[i]@);
        if k < i {
            assert(tokens[k]@ != tokens[i]@);
        }
        if i < k {
            assert(tokens[i]@ != tokens[k]@);
        }
    }
}

/// In a well-formed graph the numbering is a bijection between its token ids
/// and the numbers below the count of its tokens.
pub proof fn lemma_network_index_is_bijection<W>(network: Network<W>)
    requires
        network.wf(),
    ensures
        forall|i: int|
            0 <= i < network.tokens.len() ==> token_index(
                network.tokens@,
                network.tokens.len() as int,
            ).contains_key(#[trigger] network.tokens[i]@) && token_index(
                network.tokens@,
                network.tokens.len() as int,
            )[network.tokens[i]@] == i,
        forall|id: Seq<char>| #[trigger]
            token_index(network.tokens@, network.tokens.len() as int).contains_key(id) ==> 0
                <= token_index(network.tokens@, network.tokens.len() as int)[id]
                < network.tokens.len() && network.tokens[token_index(
                network.tokens@,
                network.tokens.len() as int,
            )[id] as int]@ == id,
{
    assert(network.tokens@.len() == network.tokens.len());
    lemma_sorted_ids_are_distinct(network.tokens@);
    lemma_index_is_bijection(network.tokens@);
}

/// Among the first `m` edges no more are edges over node numbers than there
/// are.
pub proof fn lemma_indexed_upto_len<W>(tokens: Seq<String>, edges: Seq<DirEdge<W>>, m: int)
    requires
        0 <= m,
    ensures
        indexed_upto(tokens, edges, m).len() <= m,
    decreases m,
{
    if m > 0 {
        lemma_indexed_upto_len(tokens, edges, m - 1);
    }
}

/// The outgoing edges among the first `m` depend on those edges only.
proof fn lemma_outgoing_prefix(a: Seq<IndexedEdge>, b: Seq<IndexedEdge>, u: int, m: int)
    requires
        m <= a.len(),
        m <= b.len(),
        forall|k: int| 0 <= k < m ==> a[k] == b[k],
    ensures
        outgoing(a, u, m) == outgoing(b, u, m),
    decreases m,
{
    if m > 0 {
        lemma_outgoing_prefix(a, b, u, m - 1);
    }
}

/// What a node's list of outgoing edges holds: places of edges that leave
/// the node, in ascending order, and every such place.
pub proof fn lemma_outgoing_entries(edges: Seq<IndexedEdge>, u: int, m: int)
    requires
        0 <= m <= edges.len() <= usize::MAX,
    ensures
        forall|i: int|
            0 <= i < outgoing(edges, u, m).len() ==> (#[trigger] outgoing(edges, u, m)[i]) < m
                && edges[outgoing(edges, u, m)[i] as int].from == u,
        forall|i: int, j: int|
            0 <= i < j < outgoing(edges, u, m).len() ==> outgoing(edges, u, m)[i] < outgoing(
                edges,
                u,
                m,
            )[j],
        forall|k: int|
            0 <= k < m && (#[trigger] edges[k]).from == u ==> outgoing(edges, u, m).contains(
                k as usize,
            ),
    decreases m,
{
    if m > 0 {
        lemma_outgoing_entries(edges, u, m - 1);
        let before = outgoing(edges, u, m - 1);
        let now = outgoing(edges, u, m);
        if edges[m - 1].from == u {
            assert(now[now.len() - 1] == (m - 1) as usize);
            assert forall|k: int| 0 <= k < m && (#[trigger] edges[k]).from == u implies now.contains(
                k as usize,
            ) by {
                if k < m - 1 {
                    let i = choose|i: int| 0 <= i < before.len() && before[i] == k as usize;
                    assert(now[i] == k as usize);
                }
            }
        }
    }
}

/// The numbers of the token ids: each id's place in the list.
fn index_tokens(tokens: &Vec<String>) -> (index: StringHashMap<usize>)
    ensures
        index@ == token_index(tokens@, tokens.len() as int),
{
    let mut index: StringHashMap<usize> = StringHashMap::new();
    let mut i: usize = 0;
    while i < tokens.len()
        invariant
            i <= tokens.len(),
            index@ == token_index(tokens@, i as int),
        decreases tokens.len() - i,
    {
        index.insert(tokens[i].clone(), i);
        i += 1;
    }
    index
}

/// Numbers the graph: the token at place `i` becomes node `i`, each edge
/// whose ends are both tokens of the graph becomes an edge between their
/// numbers, and each node gets the list of the edges that leave it.
pub fn index_network<W>(network: &Network<W>) -> (indexed: IndexedNetwork)
    ensures
        indexed.nodes == network.tokens.len(),
        indexed.edges@ == indexed_upto(
            network.tokens@,
            network.edges@,
            network.edges.len() as int,
        ),
        indexed.wf(),
        indexed.indexes(*network),
        indexed@ == graph_of(*network),
{
    let n = network.tokens.len();
    let index = index_tokens(&network.tokens);
    proof {
        lemma_token_index_entries(network.tokens@, n as int);
    }
    let mut adj: Vec<Vec<usize>> = Vec::new();
    let mut u: usize = 0;
    while u < n
        invariant
            u <= n,
            adj.len() == u,
            forall|v: int| 0 <= v < u ==> (#[trigger] adj[v])@ == Seq::<usize>::empty(),
        decreases n - u,
    {
        adj.push(Vec::new());
        u += 1;
    }
    let mut edges: Vec<IndexedEdge> = Vec::new();
    let mut m: usize = 0;
    while m < network.edges.len()
        invariant
            m <= network.edges.len(),
            n == network.tokens.len(),
            index@ == token_index(network.tokens@, n as int),
            forall|id: Seq<char>| #[trigger]
                index@.contains_key(id) ==> 0 <= index@[id] < n && network.tokens[index@[id] as int]@
                    == id,
            adj.len() == n,
            edges@ == indexed_upto(network.tokens@, network.edges@, m as int),
            edges.len() <= m,
            forall|k: int|
                0 <= k < edges.len() ==> {
                    let edge = #[trigger] edges[k];
                    &&& edge.source < m
                    &&& edge.from < n
                    &&& edge.to < n
                    &&& network.tokens[edge.from as int]@ == network.edges[edge.source as int].from@
                    &&& network.tokens[edge.to as int]@ == network.edges[edge.source as int].to@
                },
            forall|v: int|
                0 <= v < n ==> (#[trigger] adj[v])@ == outgoing(edges@, v, edges.len() as int),
        decreases network.edges.len() - m,
    {
        let edge = &network.edges[m];
        let ends = match index.get(edge.from.as_str()) {
            Some(from) => match index.get(edge.to.as_str()) {
                Some(to) => Some((*from, *to)),
                None => None,
            },
            None => None,
        };
        match ends {
            Some((from, to)) => {
                let place = edges.len();
                let ghost edges_before = edges@;
                edges.push(IndexedEdge { from, to, source: m });
                adj[from].push(place);
                proof {
                    assert forall|v: int| 0 <= v < n implies (#[trigger] adj[v])@ == outgoing(
                        edges@,
                        v,
                        edges.len() as int,
                    ) by {
                        lemma_outgoing_prefix(edges_before, edges@, v, place as int);
                    }
                }
            },
            None => {},
        }
        m += 1;
    }
    let indexed = IndexedNetwork { nodes: n, edges, adj };
    assert(indexed@.adj =~= graph_of(*network).adj);
    indexed
}

} // verus!
