//! The records that pass through the pipeline: tokens and pools as they are
//! fetched, the rate graph built from them, and the loops found in it.

use vstd::prelude::*;

use crate::text::lemma_text_less_irreflexive;
use crate::text::text_less;

verus! {

/// A token, known by its address.
#[derive(Debug, Clone)]
pub struct Token {
    pub symbol: String,
    pub name: String,
    /// The address in lower-case hexadecimal after `0x`.
    pub id: String,
    /// The number of decimals, written out.
    pub decimals: String,
}

/// A liquidity pool of two tokens and what it holds of each.
#[allow(non_snake_case)]
#[derive(Debug, Clone)]
pub struct Pool {
    pub id: String,
    pub token0: Token,
    pub token1: Token,
    pub reserve0: String,
    pub reserve1: String,
    /// The pool's liquidity in USD, where it is known.
    pub reserveUSD: Option<String>,
}

/// One direction of trade through one pool.
#[derive(Debug, Clone)]
pub struct DirEdge<W> {
    pub from: String,
    pub to: String,
    /// What one unit of `from` buys of `to`, the fee taken off.
    pub rate: W,
    /// The negated logarithm of `rate`.
    pub weight: W,
    pub pool_id: String,
}

/// The rate graph: token ids and the directed edges between them.
#[derive(Debug, Clone)]
pub struct Network<W> {
    pub tokens: Vec<String>,
    pub edges: Vec<DirEdge<W>>,
}

/// A loop of trades that ends where it began.
#[derive(Debug, Clone)]
pub struct ArbitrageCycle<W> {
    pub start_token: String,
    /// The tokens in the order they are traded; the last is the first again.
    pub path: Vec<String>,
    /// The product of the rates along the path.
    pub product: W,
    /// `(product - 1) * 100`.
    pub profit_pct: W,
}

/// The identifiers in `ids` strictly ascend, so none occurs twice.
pub open spec fn strictly_sorted(ids: Seq<String>) -> bool {
    forall|i: int, j: int| 0 <= i < j < ids.len() ==> text_less(ids[i]@, ids[j]@)
}

/// No identifier occurs twice in `ids`.
pub open spec fn distinct_ids(ids: Seq<String>) -> bool {
    forall|i: int, j: int| 0 <= i < j < ids.len() ==> ids[i]@ != ids[j]@
}

/// A list that strictly ascends holds no identifier twice.
pub proof fn lemma_sorted_ids_are_distinct(ids: Seq<String>)
    requires
        strictly_sorted(ids),
    ensures
        distinct_ids(ids),
{
    assert forall|i: int, j: int| 0 <= i < j < ids.len() implies ids[i]@ != ids[j]@ by {
        assert(text_less(ids[i]@, ids[j]@));
        lemma_text_less_irreflexive(ids[i]@);
    }
}

/// `id` is among `ids`.
pub open spec fn listed(ids: Seq<String>, id: Seq<char>) -> bool {
    exists|i: int| 0 <= i < ids.len() && ids[i]@ == id
}

/// `id` is an end of one of `edges`.
pub open spec fn is_endpoint<W>(edges: Seq<DirEdge<W>>, id: Seq<char>) -> bool {
    exists|i: int| 0 <= i < edges.len() && (edges[i].from@ == id || edges[i].to@ == id)
}

impl<W> Network<W> {
    /// The token list is sorted without repeats and holds exactly the ends of
    /// the edges.
    pub open spec fn wf(&self) -> bool {
        &&& strictly_sorted(self.tokens@)
        &&& forall|id: Seq<char>| listed(self.tokens@, id) <==> is_endpoint(self.edges@, id)
    }
}

} // verus!
