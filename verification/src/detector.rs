//! The search for loops of trades that pay.
//!
//! A loop pays when the product of its rates exceeds one, that is when the
//! sum of its weights, the negated logarithms of the rates, is below zero.
//! Distances are relaxed over all edges from every node at once; a distance
//! that still improves after that lies on such a loop or behind one.

use vstd::prelude::*;

use crate::cycle::lemma_no_cycle_from_outside;
use crate::cycle::lemma_trade_cycle_shape;
use crate::cycle::trade_cycle;
use crate::cycle::trade_cycle_of;
use crate::cycle::MAX_HOPS;
use crate::cycle::MIN_HOPS;
use crate::cycle::NO_PRED;
use crate::indexing::index_network;
use crate::indexing::lemma_indexed_upto_len;
use crate::indexing::lemma_outgoing_entries;
use crate::indexing::outgoing;
use crate::indexing::graph_of;
use crate::indexing::ids_of;
use crate::indexing::lemma_graph_of_same;
use crate::indexing::same_ids;
use crate::indexing::Graph;
use crate::indexing::IndexedEdge;
use crate::indexing::IndexedNetwork;
use crate::model::distinct_ids;
use crate::model::listed;
use crate::model::ArbitrageCycle;
use crate::model::Network;
use crate::scalar::Scalar;

verus! {

/// `pred` names for each node of `net` no predecessor or one from which an
/// edge of `net` leads to the node.
pub open spec fn pred_follows_edges(net: IndexedNetwork, pred: Seq<usize>) -> bool {
    &&& pred.len() == net.nodes
    &&& forall|v: int|
        0 <= v < pred.len() && #[trigger] pred[v] != NO_PRED ==> exists|k: int|
            0 <= k < net.edges.len() && (#[trigger] net.edges[k]).from == pred[v]
                && net.edges[k].to == v
}

/// The first entry of `list` from place `from` on that is an edge to `v`.
pub open spec fn first_match(list: Seq<usize>, edges: Seq<IndexedEdge>, v: int, from: int) -> Option<
    usize,
>
    decreases list.len() - from,
{
    if from < 0 || from >= list.len() {
        None
    } else if list[from] < edges.len() && edges[list[from] as int].to == v {
        Some(list[from])
    } else {
        first_match(list, edges, v, from + 1)
    }
}

/// The edge that a trade from `u` to `v` goes through: the first in `u`'s
/// list of outgoing edges that leads to `v`. Where several pools join the two
/// tokens, the others are not looked at.
pub open spec fn hop_edge_of(net: Graph, u: int, v: int) -> Option<usize> {
    if 0 <= u < net.adj.len() {
        first_match(net.adj[u], net.edges, v, 0)
    } else {
        None
    }
}

/// The edge that a trade from `u` to `v` goes through, if there is one.
pub fn hop_edge(net: &IndexedNetwork, u: usize, v: usize) -> (found: Option<usize>)
    ensures
        found == hop_edge_of(net@, u as int, v as int),
{
    if u >= net.adj.len() {
        return None;
    }
    let list = &net.adj[u];
    let mut i: usize = 0;
    while i < list.len()
        invariant
            i <= list.len(),
            u < net.adj.len(),
            list@ == net.adj[u as int]@,
            first_match(list@, net.edges@, v as int, 0) == first_match(
                list@,
                net.edges@,
                v as int,
                i as int,
            ),
        decreases list.len() - i,
    {
        let k = list[i];
        if k < net.edges.len() && net.edges[k].to == v {
            return Some(k);
        }
        i += 1;
    }
    None
}

/// What the first match is: an entry of the list at or after `from` that is
/// an edge to `v`, with no such entry before it; and where there is no first
/// match, the list holds no edge to `v` from `from` on.
proof fn lemma_first_match(list: Seq<usize>, edges: Seq<IndexedEdge>, v: int, from: int)
    requires
        0 <= from,
    ensures
        match first_match(list, edges, v, from) {
            Some(k) => exists|i: int|
                from <= i < list.len() && #[trigger] list[i] == k && k < edges.len()
                    && edges[k as int].to == v,
            None => forall|i: int|
                from <= i < list.len() && (#[trigger] list[i]) < edges.len()
                    ==> edges[list[i] as int].to != v,
        },
    decreases list.len() - from,
{
    if from < list.len() && !(list[from] < edges.len() && edges[list[from] as int].to == v) {
        lemma_first_match(list, edges, v, from + 1);
    }
}

/// In a well-formed graph a trade from `u` to `v` goes through an edge from
/// `u` to `v`, and there is such an edge whenever some edge leads from `u` to
/// `v`.
pub proof fn lemma_hop_edge_joins(net: IndexedNetwork, u: int, v: int)
    requires
        net.wf(),
        0 <= u < net.nodes,
    ensures
        match hop_edge_of(net@, u, v) {
            Some(k) => k < net.edges.len() && net.edges[k as int].from == u
                && net.edges[k as int].to == v,
            None => forall|k: int|
                0 <= k < net.edges.len() ==> !((#[trigger] net.edges[k]).from == u
                    && net.edges[k].to == v),
        },
{
    let list = net.adj[u]@;
    let m = net.edges.len() as int;
    assert(list == outgoing(net.edges@, u, m));
    lemma_first_match(list, net.edges@, v, 0);
    lemma_outgoing_entries(net.edges@, u, m);
    match hop_edge_of(net@, u, v) {
        Some(k) => {
            let i = choose|i: int|
                0 <= i < list.len() && #[trigger] list[i] == k && k < net.edges.len()
                    && net.edges[k as int].to == v;
            assert(net.edges[list[i] as int].from == u);
        },
        None => {
            assert forall|k: int| 0 <= k < net.edges.len() implies !((
            #[trigger] net.edges[k]).from == u && net.edges[k].to == v) by {
                if net.edges[k].from == u && net.edges[k].to == v {
                    assert(list.contains(k as usize));
                    let i = choose|i: int| 0 <= i < list.len() && list[i] == k as usize;
                    assert(list[i] < net.edges.len());
                }
            }
        },
    }
}

/// The edges that the trades along `path` go through, one for each pair of
/// neighbours; `None` when some pair has no edge.
pub open spec fn path_edges_of(net: Graph, path: Seq<usize>, hops: int) -> Option<
    Seq<usize>,
>
    decreases hops,
{
    if hops <= 0 {
        Some(Seq::empty())
    } else {
        match path_edges_of(net, path, hops - 1) {
            Some(edges) => match hop_edge_of(net, path[hops - 1] as int, path[hops] as int) {
                Some(edge) => Some(edges.push(edge)),
                None => None,
            },
            None => None,
        }
    }
}

/// The edges that the trades along `path` go through, in order; `None` when
/// two neighbours on the path are joined by no edge.
pub fn path_edges(net: &IndexedNetwork, path: &Vec<usize>) -> (found: Option<Vec<usize>>)
    ensures
        match found {
            Some(edges) => path_edges_of(net@, path@, path.len() - 1) == Some(edges@),
            None => path_edges_of(net@, path@, path.len() - 1) is None,
        },
{
    let mut edges: Vec<usize> = Vec::new();
    if path.len() == 0 {
        return Some(edges);
    }
    let mut i: usize = 1;
    while i < path.len()
        invariant
            1 <= i <= path.len(),
            path_edges_of(net@, path@, i - 1) == Some(edges@),
        decreases path.len() - i,
    {
        match hop_edge(net, path[i - 1], path[i]) {
            Some(edge) => {
                edges.push(edge);
            },
            None => {
                proof {
                    lemma_path_edges_stay_none(net@, path@, i as int, path.len() - 1);
                }
                return None;
            },
        }
        i += 1;
    }
    Some(edges)
}

/// Once a pair of neighbours has no edge, no longer stretch of the path has
/// its edges.
proof fn lemma_path_edges_stay_none(net: Graph, path: Seq<usize>, i: int, hops: int)
    requires
        1 <= i <= hops,
        path_edges_of(net, path, i) is None,
    ensures
        path_edges_of(net, path, hops) is None,
    decreases hops - i,
{
    if i < hops {
        lemma_path_edges_stay_none(net, path, i, hops - 1);
    }
}

/// The rates of the edges of a graph, in the order of the edges.
pub open spec fn rates_of<W>(network: Network<W>) -> Seq<W> {
    Seq::new(network.edges.len() as nat, |e: int| network.edges[e].rate)
}

/// The weights of the edges of a graph, in the order of the edges.
pub open spec fn weights_of<W>(network: Network<W>) -> Seq<W> {
    Seq::new(network.edges.len() as nat, |e: int| network.edges[e].weight)
}

/// The product of the rates of the first `n` of `edges`, taken from one in
/// their order: `None` from the first edge on that is none of the graph's or
/// stands for none of `network`, and from the first product on that is
/// infinite, undefined or not above zero.
pub open spec fn product_upto<W: Scalar>(
    edges: Seq<usize>,
    net: Graph,
    rates: Seq<W>,
    n: int,
) -> Option<W>
    decreases n,
{
    if n <= 0 {
        Some(W::of_u32(1))
    } else {
        match product_upto(edges, net, rates, n - 1) {
            None => None,
            Some(so_far) => {
                let k = edges[n - 1] as int;
                if k >= net.edges.len() || net.edges[k].source >= rates.len() {
                    None
                } else {
                    let product = so_far.product(&rates[net.edges[k].source as int]);
                    if product.finite() && W::of_u32(0).below(&product) {
                        Some(product)
                    } else {
                        None
                    }
                }
            },
        }
    }
}

/// The product of the rates along a path of trades, each trade through the
/// first edge that joins its two nodes; `None` where two neighbours are
/// joined by no edge or the product cannot be taken.
pub open spec fn cycle_product_of<W: Scalar>(path: Seq<usize>, net: Graph, rates: Seq<W>) -> Option<
    W,
> {
    match path_edges_of(net, path, path.len() - 1) {
        Some(edges) => product_upto(edges, net, rates, edges.len() as int),
        None => None,
    }
}

/// Once a product cannot be taken, no longer product can.
proof fn lemma_product_stays_none<W: Scalar>(
    edges: Seq<usize>,
    net: Graph,
    rates: Seq<W>,
    i: int,
    n: int,
)
    requires
        i <= n,
        product_upto(edges, net, rates, i) is None,
    ensures
        product_upto(edges, net, rates, n) is None,
    decreases n - i,
{
    if i < n {
        lemma_product_stays_none(edges, net, rates, i, n - 1);
    }
}

/// The product of the rates of the given edges, as far as it can be taken:
/// `None` when an edge is none of the graph's, or when the product so far is
/// infinite, undefined or not above zero. The product of no rates is one.
pub fn rate_product<W: Scalar>(
    edges: &Vec<usize>,
    net: &IndexedNetwork,
    network: &Network<W>,
) -> (product: Option<W>)
    ensures
        product == product_upto(edges@, net@, rates_of(*network), edges.len() as int),
{
    let zero = W::from_u32(0);
    let mut product = W::from_u32(1);
    let mut i: usize = 0;
    while i < edges.len()
        invariant
            i <= edges.len(),
            zero == W::of_u32(0),
            product_upto(edges@, net@, rates_of(*network), i as int) == Some(product),
        decreases edges.len() - i,
    {
        let k = edges[i];
        if k >= net.edges.len() {
            proof {
                lemma_product_stays_none(edges@, net@, rates_of(*network), i + 1, edges.len() as int);
            }
            return None;
        }
        let source = net.edges[k].source;
        if source >= network.edges.len() {
            proof {
                lemma_product_stays_none(edges@, net@, rates_of(*network), i + 1, edges.len() as int);
            }
            return None;
        }
        product = product.times(&network.edges[source].rate);
        if !product.is_finite() || !zero.less(&product) {
            proof {
                lemma_product_stays_none(edges@, net@, rates_of(*network), i + 1, edges.len() as int);
            }
            return None;
        }
        i += 1;
    }
    Some(product)
}

/// The product of the rates along a closed path of trades, each trade
/// through the first edge that joins its two nodes. `None` when two
/// neighbours on the path are joined by no edge, and when the product cannot
/// be taken. A path without a trade has the product one.
pub fn cycle_product<W: Scalar>(
    cycle: &Vec<usize>,
    net: &IndexedNetwork,
    network: &Network<W>,
) -> (product: Option<W>)
    ensures
        product == cycle_product_of(cycle@, net@, rates_of(*network)),
{
    match path_edges(net, cycle) {
        Some(edges) => rate_product(&edges, net, network),
        None => None,
    }
}

/// Distances, predecessors, and whether the round under way has changed
/// anything.
pub type Relaxation<W> = (Seq<W>, Seq<usize>, bool);

/// The relaxation of the edge at place `k`: where the distance of its start
/// plus its weight is below the distance of its end, the end takes that
/// distance and the start as its predecessor.
pub open spec fn relax_edge<W: Scalar>(
    net: Graph,
    weights: Seq<W>,
    state: Relaxation<W>,
    k: int,
) -> Relaxation<W> {
    let edge = net.edges[k];
    let candidate = state.0[edge.from as int].sum(&weights[edge.source as int]);
    if candidate.below(&state.0[edge.to as int]) {
        (state.0.update(edge.to as int, candidate), state.1.update(edge.to as int, edge.from), true)
    } else {
        state
    }
}

/// The relaxation of the first `k` edges, in their order.
pub open spec fn relax_upto<W: Scalar>(
    net: Graph,
    weights: Seq<W>,
    state: Relaxation<W>,
    k: int,
) -> Relaxation<W>
    decreases k,
{
    if k <= 0 {
        state
    } else {
        relax_edge(net, weights, relax_upto(net, weights, state, k - 1), k - 1)
    }
}

/// Where the relaxation starts: every distance zero, no predecessor.
pub open spec fn relax_start<W: Scalar>(net: Graph) -> Relaxation<W> {
    (Seq::new(net.nodes, |v: int| W::of_u32(0)), Seq::new(net.nodes, |v: int| NO_PRED), true)
}

/// What `rounds` rounds leave: each round relaxes every edge, and after a
/// round that changed nothing no further round is made.
pub open spec fn relaxed_rounds<W: Scalar>(net: Graph, weights: Seq<W>, rounds: int) -> Relaxation<
    W,
>
    decreases rounds,
{
    if rounds <= 0 {
        relax_start(net)
    } else {
        let before = relaxed_rounds(net, weights, rounds - 1);
        if !before.2 {
            before
        } else {
            relax_upto(net, weights, (before.0, before.1, false), net.edges.len() as int)
        }
    }
}

/// What the relaxation leaves: one round fewer than there are nodes.
pub open spec fn relaxed<W: Scalar>(net: Graph, weights: Seq<W>) -> Relaxation<W> {
    relaxed_rounds(net, weights, net.nodes - 1)
}

/// After a round that changed nothing, further rounds change nothing.
proof fn lemma_rounds_settle<W: Scalar>(net: Graph, weights: Seq<W>, j: int, m: int)
    requires
        0 <= j <= m,
        !relaxed_rounds(net, weights, j).2,
    ensures
        relaxed_rounds(net, weights, m) == relaxed_rounds(net, weights, j),
    decreases m - j,
{
    if j < m {
        lemma_rounds_settle(net, weights, j, m - 1);
    }
}

/// Relaxes every edge, round after round, from distances that are all zero:
/// where the distance of an edge's start plus the edge's weight is below the
/// distance of its end, the end takes that distance and the start as its
/// predecessor. There is one round fewer than there are nodes, and none
/// after a round that changed nothing. Returns the distances and the
/// predecessors.
pub fn relax<W: Scalar>(net: &IndexedNetwork, network: &Network<W>) -> (out: (Vec<W>, Vec<usize>))
    requires
        net.wf(),
        net.indexes(*network),
    ensures
        out.0@ == relaxed(net@, weights_of(*network)).0,
        out.1@ == relaxed(net@, weights_of(*network)).1,
        out.0.len() == net.nodes,
        pred_follows_edges(*net, out.1@),
{
    let n = net.nodes;
    let mut dist: Vec<W> = Vec::new();
    let mut pred: Vec<usize> = Vec::new();
    let mut v: usize = 0;
    while v < n
        invariant
            v <= n,
            dist.len() == v,
            pred.len() == v,
            forall|u: int| 0 <= u < v ==> pred[u] == NO_PRED,
            forall|u: int| 0 <= u < v ==> dist[u] == W::of_u32(0),
        decreases n - v,
    {
        dist.push(W::from_u32(0));
        pred.push(NO_PRED);
        v += 1;
    }
    let mut round: usize = 1;
    let mut updated = true;
    proof {
        assert(dist@ =~= relax_start::<W>(net@).0);
        assert(pred@ =~= relax_start::<W>(net@).1);
    }
    while round < n && updated
        invariant
            n == net.nodes,
            net.wf(),
            net.indexes(*network),
            dist.len() == n,
            pred_follows_edges(*net, pred@),
            1 <= round,
            round <= n || n == 0,
            (dist@, pred@, updated) == relaxed_rounds(net@, weights_of(*network), round - 1),
        decreases n - round,
    {
        updated = false;
        let ghost before: Relaxation<W> = (dist@, pred@, false);
        let mut k: usize = 0;
        while k < net.edges.len()
            invariant
                k <= net.edges.len(),
                n == net.nodes,
                net.wf(),
                net.indexes(*network),
                dist.len() == n,
                pred_follows_edges(*net, pred@),
                (dist@, pred@, updated) == relax_upto(net@, weights_of(*network), before, k as int),
            decreases net.edges.len() - k,
        {
            let edge = net.edges[k];
            let candidate = dist[edge.from].plus(&network.edges[edge.source].weight);
            if candidate.less(&dist[edge.to]) {
                dist.set(edge.to, candidate);
                pred.set(edge.to, edge.from);
                updated = true;
                assert(net.edges[k as int].from == pred[edge.to as int]);
            }
            k += 1;
        }
        round += 1;
    }
    proof {
        if n > 0 && round < n {
            lemma_rounds_settle(net@, weights_of(*network), round - 1, n - 1);
        }
    }
    (dist, pred)
}

/// An edge of `net` ends at `v`.
pub open spec fn is_edge_end(net: IndexedNetwork, v: int) -> bool {
    exists|k: int| 0 <= k < net.edges.len() && (#[trigger] net.edges[k]).to == v
}

/// The ends of those among the first `k` edges along which a distance would
/// still improve, in the order of the edges: an edge improves where the
/// distance of its start plus its weight is below the distance of its end.
pub open spec fn improving_upto<W: Scalar>(
    net: Graph,
    weights: Seq<W>,
    dist: Seq<W>,
    k: int,
) -> Seq<usize>
    decreases k,
{
    if k <= 0 {
        Seq::empty()
    } else {
        let edge = net.edges[k - 1];
        let candidate = dist[edge.from as int].sum(&weights[edge.source as int]);
        if candidate.below(&dist[edge.to as int]) {
            improving_upto(net, weights, dist, k - 1).push(edge.to)
        } else {
            improving_upto(net, weights, dist, k - 1)
        }
    }
}

/// The ends of the edges along which a distance would still improve, in the
/// order of the edges: each lies on a loop that pays or behind one. An end is
/// listed once for each such edge.
pub fn improving_ends<W: Scalar>(
    net: &IndexedNetwork,
    network: &Network<W>,
    dist: &Vec<W>,
) -> (ends: Vec<usize>)
    requires
        net.wf(),
        net.indexes(*network),
        dist.len() == net.nodes,
    ensures
        ends@ == improving_upto(net@, weights_of(*network), dist@, net.edges.len() as int),
        ends.len() <= net.edges.len(),
        forall|i: int| 0 <= i < ends.len() ==> is_edge_end(*net, (#[trigger] ends[i]) as int),
{
    let mut ends: Vec<usize> = Vec::new();
    let mut k: usize = 0;
    while k < net.edges.len()
        invariant
            k <= net.edges.len(),
            net.wf(),
            net.indexes(*network),
            dist.len() == net.nodes,
            ends.len() <= k,
            ends@ == improving_upto(net@, weights_of(*network), dist@, k as int),
            forall|i: int| 0 <= i < ends.len() ==> is_edge_end(*net, (#[trigger] ends[i]) as int),
        decreases net.edges.len() - k,
    {
        let edge = net.edges[k];
        let candidate = dist[edge.from].plus(&network.edges[edge.source].weight);
        if candidate.less(&dist[edge.to]) {
            assert(net.edges[k as int].to == edge.to);
            ends.push(edge.to);
        }
        k += 1;
    }
    ends
}

/// The node at place `i` of `flagged` stands at an earlier place too.
pub open spec fn flagged_before(flagged: Seq<usize>, i: int) -> bool {
    exists|j: int| 0 <= j < i && #[trigger] flagged[j] == flagged[i]
}

/// The loops behind the first `upto` flagged nodes, in their order: a node is
/// looked into where it stands first, and gives the loop that the walk along
/// its predecessors ends up in, if that loop has the trades of a loop worth
/// reporting.
pub open spec fn candidates_of(pred: Seq<usize>, flagged: Seq<usize>, upto: int) -> Seq<
    Seq<usize>,
>
    decreases upto,
{
    if upto <= 0 {
        Seq::empty()
    } else if flagged_before(flagged, upto - 1) {
        candidates_of(pred, flagged, upto - 1)
    } else {
        match trade_cycle_of(pred, flagged[upto - 1] as int) {
            Some(path) => candidates_of(pred, flagged, upto - 1).push(path),
            None => candidates_of(pred, flagged, upto - 1),
        }
    }
}

/// `path` is the loop behind one of the flagged nodes.
pub open spec fn is_loop_behind(pred: Seq<usize>, flagged: Seq<usize>, path: Seq<usize>) -> bool {
    exists|i: int|
        0 <= i < flagged.len() && trade_cycle_of(pred, (#[trigger] flagged[i]) as int) == Some(
            path,
        )
}

/// How many of the first `n` marks are set.
pub open spec fn marked(seen: Seq<bool>, n: int) -> int
    decreases n,
{
    if n <= 0 {
        0
    } else if seen[n - 1] {
        marked(seen, n - 1) + 1
    } else {
        marked(seen, n - 1)
    }
}

/// No more marks are set than there are.
proof fn lemma_marked_bound(seen: Seq<bool>, n: int)
    requires
        0 <= n <= seen.len(),
    ensures
        0 <= marked(seen, n) <= n,
    decreases n,
{
    if n > 0 {
        lemma_marked_bound(seen, n - 1);
    }
}

/// Setting a mark that was not set makes one more.
proof fn lemma_marked_grows(seen: Seq<bool>, v: int, n: int)
    requires
        0 <= n <= seen.len(),
        0 <= v < seen.len(),
        !seen[v],
    ensures
        marked(seen.update(v, true), n) == marked(seen, n) + (if v < n {
            1int
        } else {
            0int
        }),
    decreases n,
{
    if n > 0 {
        lemma_marked_grows(seen, v, n - 1);
    }
}

/// The count of set marks among the first `n` depends on those marks only.
proof fn lemma_marked_unchanged(a: Seq<bool>, b: Seq<bool>, n: int)
    requires
        n <= a.len(),
        n <= b.len(),
        forall|i: int| 0 <= i < n ==> a[i] == b[i],
    ensures
        marked(a, n) == marked(b, n),
    decreases n,
{
    if n > 0 {
        lemma_marked_unchanged(a, b, n - 1);
    }
}

/// The loops behind the flagged nodes, each in the order of trade.
///
/// A node that was flagged before is passed over, whatever became of it the
/// first time, so no node is looked into twice and there are at most as many
/// loops as nodes. Loops found from different nodes may be the same loop.
pub fn candidate_cycles(pred: &Vec<usize>, flagged: &Vec<usize>) -> (paths: Vec<Vec<usize>>)
    ensures
        paths@.map_values(|p: Vec<usize>| p@) == candidates_of(
            pred@,
            flagged@,
            flagged.len() as int,
        ),
        paths.len() <= pred.len(),
        forall|c: int|
            0 <= c < paths.len() ==> is_loop_behind(pred@, flagged@, (#[trigger] paths[c])@),
{
    let n = pred.len();
    let mut seen: Vec<bool> = Vec::new();
    let mut v: usize = 0;
    while v < n
        invariant
            v <= n,
            seen.len() == v,
            marked(seen@, v as int) == 0,
            forall|u: int| 0 <= u < v ==> !seen[u],
        decreases n - v,
    {
        let ghost before = seen@;
        seen.push(false);
        proof {
            lemma_marked_unchanged(before, seen@, v as int);
        }
        v += 1;
    }
    let mut paths: Vec<Vec<usize>> = Vec::new();
    let mut i: usize = 0;
    assert(paths@.map_values(|p: Vec<usize>| p@) =~= candidates_of(pred@, flagged@, 0));
    while i < flagged.len()
        invariant
            i <= flagged.len(),
            n == pred.len(),
            seen.len() == n,
            forall|u: int|
                0 <= u < n ==> (#[trigger] seen[u] <==> exists|j: int|
                    0 <= j < i && #[trigger] flagged[j] == u),
            paths@.map_values(|p: Vec<usize>| p@) == candidates_of(pred@, flagged@, i as int),
            paths.len() <= marked(seen@, n as int),
            forall|c: int|
                0 <= c < paths.len() ==> is_loop_behind(pred@, flagged@, (#[trigger] paths[c])@),
        decreases flagged.len() - i,
    {
        let node = flagged[i];
        let ghost paths_before = paths@;
        let ghost seen_before = seen@;
        if node >= n {
            proof {
                lemma_no_cycle_from_outside(pred@, node as int);
            }
        } else if seen[node] {
            assert(flagged_before(flagged@, i as int));
        } else {
            proof {
                lemma_marked_grows(seen@, node as int, n as int);
                if flagged_before(flagged@, i as int) {
                    let j = choose|j: int| 0 <= j < i && #[trigger] flagged[j] == flagged[i as int];
                    assert(seen[node as int]);
                }
            }
            seen.set(node, true);
            match trade_cycle(node, pred.as_slice()) {
                Some(path) => {
                    paths.push(path);
                    assert(paths@.map_values(|p: Vec<usize>| p@) =~= paths_before.map_values(
                        |p: Vec<usize>| p@,
                    ).push(path@));
                    assert(trade_cycle_of(pred@, flagged[i as int] as int) == Some(path@));
                },
                None => {},
            }
        }
        proof {
            assert forall|u: int| 0 <= u < n implies (#[trigger] seen[u] <==> exists|j: int|
                0 <= j < i + 1 && #[trigger] flagged[j] == u) by {
                if seen[u] {
                    if u == node {
                        assert(flagged[i as int] == u);
                    } else {
                        assert(seen_before[u]);
                        let j = choose|j: int| 0 <= j < i && #[trigger] flagged[j] == u;
                        assert(0 <= j < i + 1 && flagged[j] == u);
                    }
                }
                if exists|j: int| 0 <= j < i + 1 && #[trigger] flagged[j] == u {
                    let j = choose|j: int| 0 <= j < i + 1 && #[trigger] flagged[j] == u;
                    if j < i {
                        assert(seen_before[u]);
                    }
                }
            }
        }
        i += 1;
    }
    proof {
        lemma_marked_bound(seen@, n as int);
    }
    paths
}

/// An edge of `network` leads from the token at place `i` of `path` to the
/// next.
pub open spec fn hop_is_edge<W>(network: Network<W>, path: Seq<String>, i: int) -> bool {
    exists|e: int|
        0 <= e < network.edges.len() && (#[trigger] network.edges[e]).from@ == path[i]@
            && network.edges[e].to@ == path[i + 1]@
}

/// `cycle` is a loop of trades in `network`: a closed path of three to ten
/// trades between tokens of the graph, each along an edge of the graph, that
/// begins at its start token; where the graph holds no token twice, the loop
/// passes through no token twice.
pub open spec fn is_trade_loop<W>(cycle: ArbitrageCycle<W>, network: Network<W>) -> bool {
    &&& MIN_HOPS + 1 <= cycle.path.len() <= MAX_HOPS + 1
    &&& cycle.path[0]@ == cycle.path[cycle.path.len() - 1]@
    &&& cycle.start_token@ == cycle.path[0]@
    &&& forall|i: int|
        0 <= i < cycle.path.len() ==> listed(network.tokens@, (#[trigger] cycle.path[i])@)
    &&& forall|i: int|
        0 <= i < cycle.path.len() - 1 ==> #[trigger] hop_is_edge(network, cycle.path@, i)
    &&& distinct_ids(network.tokens@) ==> forall|i: int, j: int|
        1 <= i < j < cycle.path.len() ==> cycle.path[i]@ != cycle.path[j]@
}

/// The token ids of a path of node numbers.
fn path_tokens(path: &Vec<usize>, tokens: &Vec<String>) -> (ids: Vec<String>)
    requires
        forall|i: int| 0 <= i < path.len() ==> path[i] < tokens.len(),
    ensures
        ids.len() == path.len(),
        forall|i: int| 0 <= i < ids.len() ==> (#[trigger] ids[i]) == tokens[path[i] as int],
{
    let mut ids: Vec<String> = Vec::new();
    let mut i: usize = 0;
    while i < path.len()
        invariant
            i <= path.len(),
            ids.len() == i,
            forall|j: int| 0 <= j < path.len() ==> path[j] < tokens.len(),
            forall|j: int| 0 <= j < i ==> (#[trigger] ids[j]) == tokens[path[j] as int],
        decreases path.len() - i,
    {
        ids.push(tokens[path[i]].clone());
        i += 1;
    }
    ids
}

/// What the arithmetic found of a loop behind a flagged node. A question
/// that was not asked, because the product could not be taken, counts as
/// answered with no.
#[derive(Debug, Clone, Copy, PartialEq, Eq, Structural)]
pub struct CycleChecks {
    /// The product of the rates along the loop could be taken.
    pub product_taken: bool,
    /// The profit in percent is above the threshold in percent.
    pub above_threshold: bool,
    /// The product is finite.
    pub finite: bool,
    /// The product is above one.
    pub above_one: bool,
}

impl CycleChecks {
    /// The loop is reported: its product is finite and above one and pays
    /// more than the threshold.
    pub open spec fn accepted(self) -> bool {
        self.product_taken && self.above_threshold && self.finite && self.above_one
    }

    /// Whether the loop is reported.
    pub fn is_accepted(&self) -> (accepted: bool)
        ensures
            accepted == self.accepted(),
    {
        self.product_taken && self.above_threshold && self.finite && self.above_one
    }
}

/// A search and what it went by: the predecessors that the relaxation left,
/// the nodes that were flagged after it, in order, and what was found of the
/// loop behind each flagged node that had one.
pub struct SearchReport<W> {
    pub cycles: Vec<ArbitrageCycle<W>>,
    pub pred: Vec<usize>,
    pub flagged: Vec<usize>,
    pub checks: Vec<CycleChecks>,
}

/// The token ids along a path of node numbers.
pub open spec fn token_path(path: Seq<usize>, ids: Seq<Seq<char>>) -> Seq<Seq<char>> {
    Seq::new(path.len(), |i: int| ids[path[i] as int])
}

/// What a reported loop holds.
pub struct LoopView<W> {
    pub start_token: Seq<char>,
    pub path: Seq<Seq<char>>,
    pub product: W,
    pub profit_pct: W,
}

/// What a reported loop holds.
pub open spec fn loop_view<W>(cycle: ArbitrageCycle<W>) -> LoopView<W> {
    LoopView {
        start_token: cycle.start_token@,
        path: cycle.path@.map_values(|id: String| id@),
        product: cycle.product,
        profit_pct: cycle.profit_pct,
    }
}

/// The profit in percent of a loop with the given product of rates: the
/// product less one, times a hundred.
pub open spec fn profit_of<W: Scalar>(product: W) -> W {
    product.difference(&W::of_u32(1)).product(&W::of_u32(100))
}

/// What is found of the loop along `path`: whether the product of its rates
/// can be taken, and if so whether its profit in percent is above
/// `min_profit` times a hundred, and whether the product is finite and above
/// one.
pub open spec fn finding_of<W: Scalar>(
    path: Seq<usize>,
    net: Graph,
    rates: Seq<W>,
    min_profit: W,
) -> CycleChecks {
    match cycle_product_of(path, net, rates) {
        Some(product) => CycleChecks {
            product_taken: true,
            above_threshold: min_profit.product(&W::of_u32(100)).below(&profit_of(product)),
            finite: product.finite(),
            above_one: W::of_u32(1).below(&product),
        },
        None => CycleChecks {
            product_taken: false,
            above_threshold: false,
            finite: false,
            above_one: false,
        },
    }
}

/// The loop along `path` as it is reported: it starts at the first token of
/// the path, and holds the product of its rates and its profit in percent.
pub open spec fn loop_of<W: Scalar>(
    path: Seq<usize>,
    net: Graph,
    rates: Seq<W>,
    ids: Seq<Seq<char>>,
) -> LoopView<W> {
    LoopView {
        start_token: ids[path[0] as int],
        path: token_path(path, ids),
        product: cycle_product_of(path, net, rates).unwrap(),
        profit_pct: profit_of(cycle_product_of(path, net, rates).unwrap()),
    }
}

/// The loops that are reported among the first `n` candidates, in their
/// order: those of which the finding accepts.
pub open spec fn reported_upto<W: Scalar>(
    candidates: Seq<Seq<usize>>,
    net: Graph,
    rates: Seq<W>,
    ids: Seq<Seq<char>>,
    min_profit: W,
    n: int,
) -> Seq<LoopView<W>>
    decreases n,
{
    if n <= 0 {
        Seq::empty()
    } else if finding_of(candidates[n - 1], net, rates, min_profit).accepted() {
        reported_upto(candidates, net, rates, ids, min_profit, n - 1).push(
            loop_of(candidates[n - 1], net, rates, ids),
        )
    } else {
        reported_upto(candidates, net, rates, ids, min_profit, n - 1)
    }
}

/// The predecessors that the relaxation of a graph leaves.
pub open spec fn pred_of<W: Scalar>(network: Network<W>) -> Seq<usize> {
    relaxed(graph_of(network), weights_of(network)).1
}

/// The nodes of a graph that are flagged after the relaxation, in order.
pub open spec fn flagged_of<W: Scalar>(network: Network<W>) -> Seq<usize> {
    improving_upto(
        graph_of(network),
        weights_of(network),
        relaxed(graph_of(network), weights_of(network)).0,
        graph_of(network).edges.len() as int,
    )
}

/// The loops behind the flagged nodes of a graph, in the order of trade.
pub open spec fn candidates_in<W: Scalar>(network: Network<W>) -> Seq<Seq<usize>> {
    candidates_of(pred_of(network), flagged_of(network), flagged_of(network).len() as int)
}

/// What is found of each loop behind a flagged node of a graph.
pub open spec fn findings_in<W: Scalar>(network: Network<W>, min_profit: W) -> Seq<CycleChecks> {
    Seq::new(
        candidates_in(network).len(),
        |c: int| finding_of(candidates_in(network)[c], graph_of(network), rates_of(network), min_profit),
    )
}

/// The loops of trades in a graph that pay more than `min_profit`: the graph
/// is numbered and relaxed, the ends of the edges that still improve are
/// flagged, the loop behind each flagged node is followed back, and a loop is
/// reported if its product is finite and above one and its profit in percent
/// is above `min_profit` times a hundred.
pub open spec fn found_in<W: Scalar>(network: Network<W>, min_profit: W) -> Seq<LoopView<W>> {
    reported_upto(
        candidates_in(network),
        graph_of(network),
        rates_of(network),
        ids_of(network.tokens@),
        min_profit,
        candidates_in(network).len() as int,
    )
}

/// An edge of `network` leads from the token `from` to the token `to`.
pub open spec fn joined<W>(network: Network<W>, from: Seq<char>, to: Seq<char>) -> bool {
    exists|e: int|
        0 <= e < network.edges.len() && (#[trigger] network.edges[e]).from@ == from
            && network.edges[e].to@ == to
}

/// An edge of `network` ends at the token `to`.
pub open spec fn reached<W>(network: Network<W>, to: Seq<char>) -> bool {
    exists|e: int| 0 <= e < network.edges.len() && (#[trigger] network.edges[e]).to@ == to
}

/// `pred` names for each token of `network` no predecessor or a token from
/// which an edge of `network` leads to it.
pub open spec fn pred_in_network<W>(pred: Seq<usize>, network: Network<W>) -> bool {
    &&& pred.len() == network.tokens.len()
    &&& forall|v: int|
        0 <= v < pred.len() && #[trigger] pred[v] != NO_PRED ==> pred[v] < network.tokens.len()
            && joined(network, network.tokens[pred[v] as int]@, network.tokens[v]@)
}

/// Each of `flagged` is a token of `network` at which an edge ends.
pub open spec fn flagged_in_network<W>(flagged: Seq<usize>, network: Network<W>) -> bool {
    forall|i: int|
        0 <= i < flagged.len() ==> (#[trigger] flagged[i]) < network.tokens.len() && reached(
            network,
            network.tokens[flagged[i] as int]@,
        )
}

/// `cycles` are the loops that a search of `network` reports, each a loop of
/// trades in `network`.
pub open spec fn reports<W: Scalar>(
    cycles: Seq<ArbitrageCycle<W>>,
    network: Network<W>,
    min_profit: W,
) -> bool {
    &&& cycles.map_values(|c: ArbitrageCycle<W>| loop_view(c)) == found_in(network, min_profit)
    &&& cycles.len() <= network.tokens.len()
    &&& network.edges.len() == 0 ==> cycles.len() == 0
    &&& forall|c: int| 0 <= c < cycles.len() ==> is_trade_loop(#[trigger] cycles[c], network)
}

/// `report` is the search of `network`: it holds the predecessors that the
/// relaxation leaves, the nodes flagged after it, what is found of the loop
/// behind each flagged node, and the loops that the findings accept.
pub open spec fn searched<W: Scalar>(
    report: SearchReport<W>,
    network: Network<W>,
    min_profit: W,
) -> bool {
    &&& report.pred@ == pred_of(network)
    &&& report.flagged@ == flagged_of(network)
    &&& report.checks@ == findings_in(network, min_profit)
    &&& pred_in_network(report.pred@, network)
    &&& flagged_in_network(report.flagged@, network)
    &&& reports(report.cycles@, network, min_profit)
}

/// Two graphs hold the same: the same token ids in the same order, and edges
/// between the same tokens with the same rates and weights, in the same
/// order.
pub open spec fn same_graph<W>(a: Network<W>, b: Network<W>) -> bool {
    &&& same_ids(a.tokens@, b.tokens@)
    &&& a.edges.len() == b.edges.len()
    &&& forall|e: int|
        0 <= e < a.edges.len() ==> {
            &&& (#[trigger] a.edges[e]).from@ == b.edges[e].from@
            &&& a.edges[e].to@ == b.edges[e].to@
            &&& a.edges[e].rate == b.edges[e].rate
            &&& a.edges[e].weight == b.edges[e].weight
        }
}

/// Two graphs that hold the same have the same loops reported, with the same
/// tokens, products and profits, in the same order.
pub proof fn lemma_same_graph_same_loops<W: Scalar>(a: Network<W>, b: Network<W>, min_profit: W)
    requires
        same_graph(a, b),
    ensures
        found_in(a, min_profit) == found_in(b, min_profit),
{
    lemma_graph_of_same(a.tokens@, b.tokens@, a.edges@, b.edges@);
    assert(a.tokens@.len() == a.tokens.len() && b.tokens@.len() == b.tokens.len());
    assert(graph_of(a) == graph_of(b));
    assert(weights_of(a) =~= weights_of(b));
    assert(rates_of(a) =~= rates_of(b));
    assert(ids_of(a.tokens@) =~= ids_of(b.tokens@));
}

/// A search is settled by the graph and the threshold: two lists of loops
/// that searches of one graph with one threshold report hold the same loops
/// in the same order, with the same products and profits.
pub proof fn lemma_search_is_settled<W: Scalar>(
    first: Seq<ArbitrageCycle<W>>,
    second: Seq<ArbitrageCycle<W>>,
    network: Network<W>,
    min_profit: W,
)
    requires
        reports(first, network, min_profit),
        reports(second, network, min_profit),
    ensures
        first.len() == second.len(),
        forall|c: int| 0 <= c < first.len() ==> loop_view(#[trigger] first[c]) == loop_view(second[c]),
{
    let a = first.map_values(|c: ArbitrageCycle<W>| loop_view(c));
    let b = second.map_values(|c: ArbitrageCycle<W>| loop_view(c));
    assert(a == b);
    assert(a.len() == first.len() && b.len() == second.len());
    assert forall|c: int| 0 <= c < first.len() implies loop_view(#[trigger] first[c]) == loop_view(
        second[c],
    ) by {
        assert(a[c] == loop_view(first[c]));
        assert(b[c] == loop_view(second[c]));
    }
}

/// Every loop that is reported pays: the product of its rates is finite and
/// above one, its profit in percent is the product less one times a hundred
/// and is above the threshold times a hundred, and the product is taken over
/// the first edge of each of its trades.
pub proof fn lemma_reported_loops_pay<W: Scalar>(
    candidates: Seq<Seq<usize>>,
    net: Graph,
    rates: Seq<W>,
    ids: Seq<Seq<char>>,
    min_profit: W,
    n: int,
)
    requires
        0 <= n <= candidates.len(),
    ensures
        reported_upto(candidates, net, rates, ids, min_profit, n).len() <= n,
        forall|c: int|
            0 <= c < reported_upto(candidates, net, rates, ids, min_profit, n).len() ==> {
                let found = #[trigger] reported_upto(candidates, net, rates, ids, min_profit, n)[c];
                &&& found.product.finite()
                &&& W::of_u32(1).below(&found.product)
                &&& found.profit_pct == profit_of(found.product)
                &&& min_profit.product(&W::of_u32(100)).below(&found.profit_pct)
                &&& exists|k: int|
                    0 <= k < n && found == loop_of(#[trigger] candidates[k], net, rates, ids)
            },
    decreases n,
{
    if n > 0 {
        lemma_reported_loops_pay(candidates, net, rates, ids, min_profit, n - 1);
        let before = reported_upto(candidates, net, rates, ids, min_profit, n - 1);
        let now = reported_upto(candidates, net, rates, ids, min_profit, n);
        assert forall|c: int| 0 <= c < now.len() implies {
            let found = #[trigger] now[c];
            &&& found.product.finite()
            &&& W::of_u32(1).below(&found.product)
            &&& found.profit_pct == profit_of(found.product)
            &&& min_profit.product(&W::of_u32(100)).below(&found.profit_pct)
            &&& exists|k: int|
                0 <= k < n && found == loop_of(#[trigger] candidates[k], net, rates, ids)
        } by {
            if c < before.len() {
                assert(now[c] == before[c]);
                let k = choose|k: int|
                    0 <= k < n - 1 && before[c] == loop_of(#[trigger] candidates[k], net, rates, ids);
                assert(0 <= k < n && now[c] == loop_of(candidates[k], net, rates, ids));
            } else {
                assert(finding_of(candidates[n - 1], net, rates, min_profit).accepted());
                assert(now[c] == loop_of(candidates[n - 1], net, rates, ids));
            }
        }
    }
}

/// Searches `network` for the loops of trades that pay more than
/// `min_profit`, a fraction, and reports what the search went by.
///
/// After the relaxation every edge is looked at once more. Where the distance
/// of its end would still improve, the loop behind its end is followed back
/// along the predecessors, unless that node has been looked into before. A
/// loop of three to ten trades is reported if the product of its rates is
/// finite and above one and its profit in percent, the product less one times
/// a hundred, is above `min_profit` times a hundred. Loops found from
/// different nodes may share tokens or be the same loop.
pub fn search<W: Scalar>(network: &Network<W>, min_profit: W) -> (report: SearchReport<W>)
    ensures
        searched(report, *network, min_profit),
{
    let net = index_network(network);
    let n = net.nodes;
    let mut cycles: Vec<ArbitrageCycle<W>> = Vec::new();
    let mut checks: Vec<CycleChecks> = Vec::new();
    let (dist, pred) = relax(&net, network);
    let flagged = improving_ends(&net, network, &dist);
    proof {
        assert forall|v: int| 0 <= v < pred.len() && #[trigger] pred[v] != NO_PRED implies pred[v]
            < network.tokens.len() && joined(
            *network,
            network.tokens[pred[v] as int]@,
            network.tokens[v]@,
        ) by {
            let k = choose|k: int|
                0 <= k < net.edges.len() && (#[trigger] net.edges[k]).from == pred[v]
                    && net.edges[k].to == v;
            let e = net.edges[k].source as int;
            assert(network.edges[e].from@ == network.tokens[pred[v] as int]@);
        }
        assert forall|i: int| 0 <= i < flagged.len() implies (#[trigger] flagged[i])
            < network.tokens.len() && reached(*network, network.tokens[flagged[i] as int]@) by {
            assert(is_edge_end(net, flagged[i] as int));
            let k = choose|k: int|
                0 <= k < net.edges.len() && (#[trigger] net.edges[k]).to == flagged[i];
            let e = net.edges[k].source as int;
            assert(network.edges[e].to@ == network.tokens[flagged[i] as int]@);
        }
        lemma_indexed_upto_len(network.tokens@, network.edges@, network.edges.len() as int);
        assert(flagged.len() <= network.edges.len());
    }
    let candidates = candidate_cycles(&pred, &flagged);
    let ghost paths = candidates_in(*network);
    let ghost graph = graph_of(*network);
    let ghost rates = rates_of(*network);
    let one = W::from_u32(1);
    let hundred = W::from_u32(100);
    let threshold = min_profit.times(&hundred);
    let mut c: usize = 0;
    assert(cycles@.map_values(|c: ArbitrageCycle<W>| loop_view(c)) =~= reported_upto(
        paths,
        graph,
        rates,
        ids_of(network.tokens@),
        min_profit,
        0,
    ));
    while c < candidates.len()
        invariant
            c <= candidates.len(),
            n == net.nodes,
            n == network.tokens.len(),
            net.wf(),
            net.indexes(*network),
            net@ == graph,
            graph == graph_of(*network),
            rates == rates_of(*network),
            one == W::of_u32(1),
            hundred == W::of_u32(100),
            threshold == min_profit.product(&W::of_u32(100)),
            pred_follows_edges(net, pred@),
            paths == candidates_in(*network),
            paths == candidates_of(pred@, flagged@, flagged.len() as int),
            paths == candidates@.map_values(|p: Vec<usize>| p@),
            candidates.len() <= n,
            forall|d: int|
                0 <= d < candidates.len() ==> is_loop_behind(
                    pred@,
                    flagged@,
                    (#[trigger] candidates[d])@,
                ),
            checks.len() == c,
            forall|d: int|
                0 <= d < c ==> #[trigger] checks[d] == finding_of(paths[d], graph, rates, min_profit),
            cycles@.map_values(|c: ArbitrageCycle<W>| loop_view(c)) == reported_upto(
                paths,
                graph,
                rates,
                ids_of(network.tokens@),
                min_profit,
                c as int,
            ),
            cycles.len() <= c,
            forall|d: int| 0 <= d < cycles.len() ==> is_trade_loop(#[trigger] cycles[d], *network),
        decreases candidates.len() - c,
    {
        let cycle = &candidates[c];
        let ghost cycles_before = cycles@;
        assert(paths[c as int] == cycle@);
        let mut found = CycleChecks {
            product_taken: false,
            above_threshold: false,
            finite: false,
            above_one: false,
        };
        match cycle_product(cycle, &net, network) {
            Some(product) => {
                let profit_pct = product.minus(&one).times(&hundred);
                found.product_taken = true;
                found.above_threshold = threshold.less(&profit_pct);
                found.finite = product.is_finite();
                found.above_one = one.less(&product);
                if found.is_accepted() {
                    proof {
                        assert(is_loop_behind(pred@, flagged@, cycle@));
                        let i = choose|i: int|
                            0 <= i < flagged.len() && trade_cycle_of(
                                pred@,
                                (#[trigger] flagged[i]) as int,
                            ) == Some(cycle@);
                        lemma_trade_cycle_shape(pred@, flagged[i] as int);
                    }
                    let path = path_tokens(cycle, &network.tokens);
                    let reported = ArbitrageCycle {
                        start_token: path[0].clone(),
                        path,
                        product,
                        profit_pct,
                    };
                    proof {
                        let len = cycle.len() as int;
                        assert(loop_view(reported).path =~= token_path(cycle@, ids_of(network.tokens@)));
                        assert(loop_view(reported) == loop_of(
                            cycle@,
                            graph,
                            rates,
                            ids_of(network.tokens@),
                        ));
                        assert forall|i: int| 0 <= i < len implies listed(
                            network.tokens@,
                            (#[trigger] reported.path[i])@,
                        ) by {
                            assert(network.tokens[cycle[i] as int]@ == reported.path[i]@);
                        }
                        assert forall|i: int| 0 <= i < len - 1 implies #[trigger] hop_is_edge(
                            *network,
                            reported.path@,
                            i,
                        ) by {
                            let to = cycle[i + 1] as int;
                            assert(pred[to] == cycle[i]);
                            let j = choose|j: int|
                                0 <= j < net.edges.len() && (#[trigger] net.edges[j]).from
                                    == pred[to] && net.edges[j].to == to;
                            let e = net.edges[j].source as int;
                            assert(network.edges[e].from@ == reported.path[i]@);
                        }
                        if distinct_ids(network.tokens@) {
                            assert forall|i: int, j: int| 1 <= i < j < len implies reported.path[i]@
                                != reported.path[j]@ by {
                                let a = cycle[i] as int;
                                let b = cycle[j] as int;
                                assert(a != b);
                                if a < b {
                                    assert(network.tokens[a]@ != network.tokens[b]@);
                                } else {
                                    assert(network.tokens[b]@ != network.tokens[a]@);
                                }
                            }
                        }
                    }
                    cycles.push(reported);
                    assert(cycles@.map_values(|c: ArbitrageCycle<W>| loop_view(c))
                        =~= cycles_before.map_values(|c: ArbitrageCycle<W>| loop_view(c)).push(
                        loop_view(reported),
                    ));
                }
            },
            None => {},
        }
        assert(found == finding_of(paths[c as int], graph, rates, min_profit));
        checks.push(found);
        c += 1;
    }
    proof {
        assert(checks@ =~= findings_in(*network, min_profit));
        assert(cycles.len() <= network.tokens.len());
        if network.edges.len() == 0 {
            assert(flagged.len() == 0);
            assert(paths.len() == 0);
        }
    }
    let report = SearchReport { cycles, pred, flagged, checks };
    assert(reports(report.cycles@, *network, min_profit));
    report
}

/// The loops of trades in `network` that pay more than `min_profit`, a
/// fraction: 0.01 stands for one percent. They are the loops that a search
/// of the graph reports.
pub fn find_arbitrage<W: Scalar>(network: &Network<W>, min_profit: W) -> (cycles: Vec<
    ArbitrageCycle<W>,
>)
    ensures
        reports(cycles@, *network, min_profit),
{
    let report = search(network, min_profit);
    report.cycles
}

/// Why no search can be made.
#[derive(Debug, Clone, Copy, PartialEq, Eq, Structural)]
pub enum EngineError {
    /// The graph has no token or no edge: no pool had rates.
    EmptyNetwork,
}

/// The loops of trades in `network` that pay more than `min_profit`, or an
/// error where the graph is empty and there is nothing to search.
pub fn detect<W: Scalar>(network: &Network<W>, min_profit: W) -> (outcome: Result<
    Vec<ArbitrageCycle<W>>,
    EngineError,
>)
    ensures
        outcome is Err <==> network.tokens.len() == 0 || network.edges.len() == 0,
        outcome matches Ok(cycles) ==> reports(cycles@, *network, min_profit),
{
    if network.tokens.len() == 0 || network.edges.len() == 0 {
        Err(EngineError::EmptyNetwork)
    } else {
        Ok(find_arbitrage(network, min_profit))
    }
}

} // verus!
