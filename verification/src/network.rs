//! From pool records to the rate graph.

use vstd::prelude::*;

use crate::model::is_endpoint;
use crate::model::listed;
use crate::model::strictly_sorted;
use crate::model::DirEdge;
use crate::model::Network;
use crate::model::Pool;
use crate::scalar::Scalar;
use crate::text::lemma_text_less_total;
use crate::text::lemma_text_less_transitive;
use crate::text::str_less;
use crate::text::text_less;

verus! {

/// The first position in a sorted list whose identifier is not less than
/// `id`: where `id` stands, or where it belongs.
fn lower_bound(ids: &Vec<String>, id: &String) -> (at: usize)
    requires
        strictly_sorted(ids@),
    ensures
        at <= ids.len(),
        forall|i: int| 0 <= i < at ==> text_less(#[trigger] ids[i]@, id@),
        forall|i: int| at <= i < ids.len() ==> !text_less(#[trigger] ids[i]@, id@),
{
    let mut lo: usize = 0;
    let mut hi: usize = ids.len();
    while lo < hi
        invariant
            lo <= hi <= ids.len(),
            strictly_sorted(ids@),
            forall|i: int| 0 <= i < lo ==> text_less(#[trigger] ids[i]@, id@),
            forall|i: int| hi <= i < ids.len() ==> !text_less(#[trigger] ids[i]@, id@),
        decreases hi - lo,
    {
        let mid = lo + (hi - lo) / 2;
        if str_less(ids[mid].as_str(), id.as_str()) {
            proof {
                assert forall|i: int| 0 <= i < mid + 1 implies text_less(
                    #[trigger] ids[i]@,
                    id@,
                ) by {
                    if i < mid {
                        lemma_text_less_transitive(ids[i]@, ids[mid as int]@, id@);
                    }
                }
            }
            lo = mid + 1;
        } else {
            proof {
                assert forall|i: int| mid <= i < ids.len() implies !text_less(
                    #[trigger] ids[i]@,
                    id@,
                ) by {
                    if i > mid && text_less(ids[i]@, id@) {
                        lemma_text_less_transitive(ids[mid as int]@, ids[i]@, id@);
                    }
                }
            }
            hi = mid;
        }
    }
    lo
}

/// Puts `id` into a sorted list of identifiers, unless it is there already.
pub fn insert_sorted(ids: &mut Vec<String>, id: &String)
    requires
        strictly_sorted(old(ids)@),
    ensures
        strictly_sorted(final(ids)@),
        forall|x: Seq<char>| listed(final(ids)@, x) <==> listed(old(ids)@, x) || x == id@,
{
    let at = lower_bound(ids, id);
    if at < ids.len() && ids[at] == *id {
        assert(listed(ids@, id@));
        return ;
    }
    let ghost before = ids@;
    proof {
        // id is new: what stands before `at` is less, what stands from `at` on is greater
        assert forall|i: int| at <= i < before.len() implies text_less(id@, #[trigger] before[i]@) by {
            if at < i {
                assert(text_less(before[at as int]@, before[i]@));
                if before[i]@ == id@ {
                    assert(!text_less(before[at as int]@, id@));
                }
            }
            lemma_text_less_total(before[i]@, id@);
        }
    }
    ids.insert(at, id.clone());
    proof {
        let after = ids@;
        assert forall|i: int, j: int| 0 <= i < j < after.len() implies text_less(
            after[i]@,
            after[j]@,
        ) by {
            if j < at {
                assert(text_less(before[i]@, before[j]@));
            } else if j == at {
                assert(text_less(before[i]@, id@));
            } else if i < at {
                assert(text_less(before[i]@, before[j - 1]@));
            } else if i == at {
                assert(text_less(id@, before[j - 1]@));
            } else {
                assert(text_less(before[i - 1]@, before[j - 1]@));
            }
        }
        assert forall|x: Seq<char>| listed(after, x) <==> listed(before, x) || x == id@ by {
            if listed(after, x) {
                let i = choose|i: int| 0 <= i < after.len() && after[i]@ == x;
                if i < at {
                    assert(before[i]@ == x);
                } else if i > at {
                    assert(before[i - 1]@ == x);
                }
            }
            if listed(before, x) {
                let i = choose|i: int| 0 <= i < before.len() && before[i]@ == x;
                if i < at {
                    assert(after[i]@ == x);
                } else {
                    assert(after[i + 1]@ == x);
                }
            }
            if x == id@ {
                assert(after[at as int]@ == x);
            }
        }
    }
}

/// The address that stands for no token.
pub const NULL_ADDRESS: &'static str = "0x0000000000000000000000000000000000000000";

/// Why a pool gives the graph no edges.
#[derive(Debug, Clone, Copy, PartialEq, Eq, Structural)]
pub enum PoolRejection {
    /// One of its tokens is the null address.
    NullToken,
    /// A reserve is no number, or none that is finite and above zero.
    BadReserve,
    /// Its liquidity in USD is given and is no number.
    BadLiquidity,
    /// Its liquidity in USD is given and is below the minimum.
    LowLiquidity,
    /// The price or a rate came out infinite, undefined or not above zero.
    BadRate,
}

/// The two directions of trade through a pool.
pub struct Quote<W> {
    pub rate_0to1: W,
    pub weight_0to1: W,
    pub rate_1to0: W,
    pub weight_1to0: W,
}

/// The fee that a pool keeps where none is set: 0.30% of a trade, in
/// hundredths of a percent.
pub const DEFAULT_FEE_BPS: u32 = 30;

/// The least liquidity in USD where none is set.
pub const DEFAULT_MIN_LIQUIDITY_USD: u32 = 10_000;

/// How many hundredths of a percent make the whole.
pub const BPS_WHOLE: u32 = 10_000;

/// What the builder holds a pool to.
pub struct NetworkBuilder {
    /// The share of a trade that the pool keeps as its fee, in hundredths of
    /// a percent.
    pub fee_bps: u32,
    /// The least liquidity in USD of a pool that states its liquidity.
    pub min_liquidity_usd: u32,
}

/// What was found of a pool, question by question. A question that was not
/// asked, because an earlier answer had settled what becomes of the pool,
/// counts as answered with no; of a pool that states no liquidity the two
/// questions about its liquidity count as answered with yes.
#[derive(Debug, Clone, Copy, PartialEq, Eq, Structural)]
pub struct PoolChecks {
    /// One of the tokens is the null address.
    pub null_token: bool,
    /// Both reserves read as numbers that are finite and above zero.
    pub reserves_usable: bool,
    /// The liquidity in USD reads as a number.
    pub liquidity_readable: bool,
    /// The liquidity in USD is not below the minimum.
    pub liquidity_enough: bool,
    /// The price is finite and above zero.
    pub price_usable: bool,
    /// Both rates are finite and above zero.
    pub rates_usable: bool,
}

/// A graph and what became of each pool it was built from: what was found
/// of the pool, and why it was left out, or `None` for a pool that is in.
pub struct BuildReport<W> {
    pub network: Network<W>,
    pub checks: Vec<PoolChecks>,
    pub rejected: Vec<Option<PoolRejection>>,
}

/// What becomes of a pool of which `checks` was found: the first of the
/// answers that speaks against it decides, and a pool that nothing speaks
/// against is in.
pub open spec fn verdict_of(checks: PoolChecks) -> Option<PoolRejection> {
    if checks.null_token {
        Some(PoolRejection::NullToken)
    } else if !checks.reserves_usable {
        Some(PoolRejection::BadReserve)
    } else if !checks.liquidity_readable {
        Some(PoolRejection::BadLiquidity)
    } else if !checks.liquidity_enough {
        Some(PoolRejection::LowLiquidity)
    } else if !checks.price_usable || !checks.rates_usable {
        Some(PoolRejection::BadRate)
    } else {
        None
    }
}

/// Why a pool of which `checks` was found is left out, or `None` if it is in.
pub fn verdict(checks: &PoolChecks) -> (rejection: Option<PoolRejection>)
    ensures
        rejection == verdict_of(*checks),
{
    if checks.null_token {
        Some(PoolRejection::NullToken)
    } else if !checks.reserves_usable {
        Some(PoolRejection::BadReserve)
    } else if !checks.liquidity_readable {
        Some(PoolRejection::BadLiquidity)
    } else if !checks.liquidity_enough {
        Some(PoolRejection::LowLiquidity)
    } else if !checks.price_usable || !checks.rates_usable {
        Some(PoolRejection::BadRate)
    } else {
        None
    }
}

/// One of the pool's tokens is the null address.
pub open spec fn has_null_token(pool: Pool) -> bool {
    pool.token0.id@ == NULL_ADDRESS@ || pool.token1.id@ == NULL_ADDRESS@
}

/// A reserve, price or rate can be worked with: it is finite and above zero.
pub open spec fn usable_of<W: Scalar>(value: W) -> bool {
    value.finite() && W::of_u32(0).below(&value)
}

/// The price of a pool's first token in its second: the second reserve over
/// the first.
pub open spec fn price_of<W: Scalar>(pool: Pool) -> W {
    W::parsed(&pool.reserve1).unwrap().quotient(&W::parsed(&pool.reserve0).unwrap())
}

/// What is left of a trade after the fee: one less the fee, the fee being
/// its hundredths of a percent over the whole.
pub open spec fn kept_of<W: Scalar>(builder: NetworkBuilder) -> W {
    W::of_u32(1).difference(&W::of_u32(builder.fee_bps).quotient(&W::of_u32(BPS_WHOLE)))
}

/// The rates and weights of a pool: a trade gets the price less the fee, the
/// way back the inverse price less the fee, and a weight is the negated
/// logarithm of its rate.
pub open spec fn quote_of<W: Scalar>(builder: NetworkBuilder, pool: Pool) -> Quote<W> {
    let price = price_of::<W>(pool);
    let kept = kept_of::<W>(builder);
    let rate_0to1 = kept.product(&price);
    let rate_1to0 = kept.quotient(&price);
    Quote {
        rate_0to1,
        weight_0to1: rate_0to1.logarithm().negation(),
        rate_1to0,
        weight_1to0: rate_1to0.logarithm().negation(),
    }
}

/// What is found of a pool, question by question, each question asked only
/// where the answers before it leave the pool in:
/// - both reserves must read as numbers that are finite and above zero;
/// - liquidity that is stated must read as a number, and that number must
///   not be below the minimum;
/// - the price and both rates must be finite and above zero.
pub open spec fn checks_of<W: Scalar>(builder: NetworkBuilder, pool: Pool) -> PoolChecks {
    let null_token = has_null_token(pool);
    let reserve0 = W::parsed(&pool.reserve0);
    let reserve1 = W::parsed(&pool.reserve1);
    let reserves_usable = !null_token && reserve0 is Some && reserve1 is Some && usable_of(
        reserve0.unwrap(),
    ) && usable_of(reserve1.unwrap());
    let unstated = pool.reserveUSD is None;
    let liquidity = if unstated || !reserves_usable {
        None
    } else {
        W::parsed(&pool.reserveUSD.unwrap())
    };
    let liquidity_readable = unstated || liquidity is Some;
    let liquidity_enough = unstated || (liquidity is Some && !liquidity.unwrap().below(
        &W::of_u32(builder.min_liquidity_usd),
    ));
    let price_usable = reserves_usable && liquidity_readable && liquidity_enough && usable_of(
        price_of::<W>(pool),
    );
    let rates_usable = price_usable && usable_of(quote_of::<W>(builder, pool).rate_0to1)
        && usable_of(quote_of::<W>(builder, pool).rate_1to0);
    PoolChecks {
        null_token,
        reserves_usable,
        liquidity_readable,
        liquidity_enough,
        price_usable,
        rates_usable,
    }
}

/// A pool is in: nothing that is found of it speaks against it.
pub open spec fn is_in<W: Scalar>(builder: NetworkBuilder, pool: Pool) -> bool {
    verdict_of(checks_of::<W>(builder, pool)) is None
}

/// What looking into a pool gives: its rates, or why it has none.
pub open spec fn appraisal_of<W: Scalar>(builder: NetworkBuilder, pool: Pool) -> Result<
    Quote<W>,
    PoolRejection,
> {
    match verdict_of(checks_of::<W>(builder, pool)) {
        None => Ok(quote_of::<W>(builder, pool)),
        Some(reason) => Err(reason),
    }
}

/// A pool is in if and only if it has no null token, both reserves read as
/// numbers that are finite and above zero, its liquidity, if stated, reads as
/// a number not below the minimum, and the price and both rates are finite
/// and above zero.
pub proof fn lemma_in_iff<W: Scalar>(builder: NetworkBuilder, pool: Pool)
    ensures
        is_in::<W>(builder, pool) <==> {
            &&& !has_null_token(pool)
            &&& W::parsed(&pool.reserve0) is Some
            &&& W::parsed(&pool.reserve1) is Some
            &&& usable_of(W::parsed(&pool.reserve0).unwrap())
            &&& usable_of(W::parsed(&pool.reserve1).unwrap())
            &&& pool.reserveUSD matches Some(text) ==> W::parsed(&text) is Some && !W::parsed(
                &text,
            ).unwrap().below(&W::of_u32(builder.min_liquidity_usd))
            &&& usable_of(price_of::<W>(pool))
            &&& usable_of(quote_of::<W>(builder, pool).rate_0to1)
            &&& usable_of(quote_of::<W>(builder, pool).rate_1to0)
        },
{
}

/// The edge through `pool` from its first token to its second.
pub open spec fn forward_edge<W>(pool: Pool, quote: Quote<W>) -> DirEdge<W> {
    DirEdge {
        from: pool.token0.id,
        to: pool.token1.id,
        rate: quote.rate_0to1,
        weight: quote.weight_0to1,
        pool_id: pool.id,
    }
}

/// The edge through `pool` from its second token to its first.
pub open spec fn backward_edge<W>(pool: Pool, quote: Quote<W>) -> DirEdge<W> {
    DirEdge {
        from: pool.token1.id,
        to: pool.token0.id,
        rate: quote.rate_1to0,
        weight: quote.weight_1to0,
        pool_id: pool.id,
    }
}

/// The edges that the first `n` pools give: for each pool that is in, in the
/// order of the pools, the edge from its first token to its second and then
/// the edge back.
pub open spec fn edges_upto<W: Scalar>(builder: NetworkBuilder, pools: Seq<Pool>, n: int) -> Seq<
    DirEdge<W>,
>
    decreases n,
{
    if n <= 0 {
        Seq::empty()
    } else if is_in::<W>(builder, pools[n - 1]) {
        edges_upto::<W>(builder, pools, n - 1).push(
            forward_edge(pools[n - 1], quote_of::<W>(builder, pools[n - 1])),
        ).push(backward_edge(pools[n - 1], quote_of::<W>(builder, pools[n - 1])))
    } else {
        edges_upto::<W>(builder, pools, n - 1)
    }
}

/// How many of the first `n` pools are in.
pub open spec fn accepted_upto<W: Scalar>(builder: NetworkBuilder, pools: Seq<Pool>, n: int) -> int
    decreases n,
{
    if n <= 0 {
        0
    } else if is_in::<W>(builder, pools[n - 1]) {
        accepted_upto::<W>(builder, pools, n - 1) + 1
    } else {
        accepted_upto::<W>(builder, pools, n - 1)
    }
}

/// `report` is the graph that `builder` builds from `pools`: it is well
/// formed, what was found of each pool is reported and decides what became
/// of it, and the edges are those of the pools that are in.
pub open spec fn built_from<W: Scalar>(
    report: BuildReport<W>,
    builder: NetworkBuilder,
    pools: Seq<Pool>,
) -> bool {
    &&& report.network.wf()
    &&& report.checks.len() == pools.len()
    &&& report.rejected.len() == pools.len()
    &&& forall|i: int|
        0 <= i < pools.len() ==> #[trigger] report.checks[i] == checks_of::<W>(builder, pools[i])
    &&& forall|i: int|
        0 <= i < pools.len() ==> #[trigger] report.rejected[i] == verdict_of(report.checks[i])
    &&& report.network.edges@ == edges_upto::<W>(builder, pools, pools.len() as int)
}

/// The builder with a fee of 0.30% and a minimum liquidity of 10,000 USD.
pub open spec fn standard_builder() -> NetworkBuilder {
    NetworkBuilder { fee_bps: DEFAULT_FEE_BPS, min_liquidity_usd: DEFAULT_MIN_LIQUIDITY_USD }
}

impl NetworkBuilder {
    /// The builder with a fee of 0.30% and a minimum liquidity of 10,000 USD.
    pub fn new() -> (builder: Self)
        ensures
            builder == standard_builder(),
    {
        NetworkBuilder { fee_bps: DEFAULT_FEE_BPS, min_liquidity_usd: DEFAULT_MIN_LIQUIDITY_USD }
    }

    /// Whether a reserve, price or rate can be worked with, given what the
    /// arithmetic says of it: it is finite and above zero.
    fn usable(finite: bool, above_zero: bool) -> (usable: bool)
        ensures
            usable == (finite && above_zero),
    {
        finite && above_zero
    }

    /// Looks into `pool`: what is found of it, and its rates, or why it has
    /// none.
    ///
    /// The price of the first token in the second is the second reserve over
    /// the first; a trade gets the price less the fee, and the way back gets
    /// the inverse price less the fee. A weight is the negated logarithm of
    /// its rate. A pool that states its liquidity in USD must state a number
    /// that is not below the minimum.
    pub fn appraise<W: Scalar>(&self, pool: &Pool) -> (found: (
        PoolChecks,
        Result<Quote<W>, PoolRejection>,
    ))
        ensures
            found.0 == checks_of::<W>(*self, *pool),
            found.1 == appraisal_of::<W>(*self, *pool),
    {
        let null = String::from_str(NULL_ADDRESS);
        let unstated = pool.reserveUSD.is_none();
        let mut checks = PoolChecks {
            null_token: pool.token0.id == null || pool.token1.id == null,
            reserves_usable: false,
            liquidity_readable: unstated,
            liquidity_enough: unstated,
            price_usable: false,
            rates_usable: false,
        };
        if checks.null_token {
            return (checks, Err(PoolRejection::NullToken));
        }
        let reserve0 = match W::parse(&pool.reserve0) {
            Some(value) => value,
            None => {
                return (checks, Err(PoolRejection::BadReserve));
            },
        };
        let reserve1 = match W::parse(&pool.reserve1) {
            Some(value) => value,
            None => {
                return (checks, Err(PoolRejection::BadReserve));
            },
        };
        let zero = W::from_u32(0);
        checks.reserves_usable = Self::usable(reserve0.is_finite(), zero.less(&reserve0))
            && Self::usable(reserve1.is_finite(), zero.less(&reserve1));
        if !checks.reserves_usable {
            return (checks, Err(PoolRejection::BadReserve));
        }
        match &pool.reserveUSD {
            Some(text) => {
                match W::parse(text) {
                    Some(liquidity) => {
                        checks.liquidity_readable = true;
                        let least = W::from_u32(self.min_liquidity_usd);
                        checks.liquidity_enough = !liquidity.less(&least);
                        if !checks.liquidity_enough {
                            return (checks, Err(PoolRejection::LowLiquidity));
                        }
                    },
                    None => {
                        return (checks, Err(PoolRejection::BadLiquidity));
                    },
                }
            },
            None => {},
        }
        let price = reserve1.over(&reserve0);
        checks.price_usable = Self::usable(price.is_finite(), zero.less(&price));
        if !checks.price_usable {
            return (checks, Err(PoolRejection::BadRate));
        }
        let fee = W::from_u32(self.fee_bps).over(&W::from_u32(BPS_WHOLE));
        let kept = W::from_u32(1).minus(&fee);
        let rate_0to1 = kept.times(&price);
        let rate_1to0 = kept.over(&price);
        checks.rates_usable = Self::usable(rate_0to1.is_finite(), zero.less(&rate_0to1))
            && Self::usable(rate_1to0.is_finite(), zero.less(&rate_1to0));
        if !checks.rates_usable {
            return (checks, Err(PoolRejection::BadRate));
        }
        let weight_0to1 = rate_0to1.ln().negated();
        let weight_1to0 = rate_1to0.ln().negated();
        (checks, Ok(Quote { rate_0to1, weight_0to1, rate_1to0, weight_1to0 }))
    }

    /// The rates of trade through `pool`, or why it has none.
    pub fn quote<W: Scalar>(&self, pool: &Pool) -> (quote: Result<Quote<W>, PoolRejection>)
        ensures
            quote == appraisal_of::<W>(*self, *pool),
    {
        self.appraise(pool).1
    }

    /// Builds the graph of `pools` and reports what became of each pool.
    ///
    /// A pool that has rates gives two edges, one in each direction; the
    /// tokens of the graph are the ends of its edges, sorted.
    pub fn build<W: Scalar>(&self, pools: &Vec<Pool>) -> (report: BuildReport<W>)
        ensures
            built_from(report, *self, pools@),
    {
        let mut edges: Vec<DirEdge<W>> = Vec::new();
        let mut tokens: Vec<String> = Vec::new();
        let mut checks: Vec<PoolChecks> = Vec::new();
        let mut rejected: Vec<Option<PoolRejection>> = Vec::new();
        let mut i: usize = 0;
        while i < pools.len()
            invariant
                i <= pools.len(),
                checks.len() == i,
                rejected.len() == i,
                strictly_sorted(tokens@),
                forall|id: Seq<char>| listed(tokens@, id) <==> is_endpoint(edges@, id),
                forall|j: int|
                    0 <= j < i ==> #[trigger] checks[j] == checks_of::<W>(*self, pools[j]),
                forall|j: int| 0 <= j < i ==> #[trigger] rejected[j] == verdict_of(checks[j]),
                edges@ == edges_upto::<W>(*self, pools@, i as int),
            decreases pools.len() - i,
        {
            let pool = &pools[i];
            let ghost edges_before = edges@;
            let (found, quote) = self.appraise(pool);
            checks.push(found);
            match quote {
                Ok(quote) => {
                    let forward = DirEdge {
                        from: pool.token0.id.clone(),
                        to: pool.token1.id.clone(),
                        rate: quote.rate_0to1,
                        weight: quote.weight_0to1,
                        pool_id: pool.id.clone(),
                    };
                    let backward = DirEdge {
                        from: pool.token1.id.clone(),
                        to: pool.token0.id.clone(),
                        rate: quote.rate_1to0,
                        weight: quote.weight_1to0,
                        pool_id: pool.id.clone(),
                    };
                    assert(forward == forward_edge(*pool, quote));
                    assert(backward == backward_edge(*pool, quote));
                    edges.push(forward);
                    edges.push(backward);
                    insert_sorted(&mut tokens, &pool.token0.id);
                    insert_sorted(&mut tokens, &pool.token1.id);
                    proof {
                        let m = edges_before.len() as int;
                        assert forall|id: Seq<char>| listed(tokens@, id) <==> is_endpoint(
                            edges@,
                            id,
                        ) by {
                            if is_endpoint(edges@, id) {
                                let e = choose|e: int|
                                    0 <= e < edges@.len() && (edges@[e].from@ == id || edges@[e].to@
                                        == id);
                                if e < m {
                                    assert(edges_before[e] == edges@[e]);
                                    assert(is_endpoint(edges_before, id));
                                }
                            }
                            if is_endpoint(edges_before, id) {
                                let e = choose|e: int|
                                    0 <= e < edges_before.len() && (edges_before[e].from@ == id
                                        || edges_before[e].to@ == id);
                                assert(edges_before[e] == edges@[e]);
                            }
                            if id == pool.token0.id@ {
                                assert(edges@[m].from@ == id);
                            }
                            if id == pool.token1.id@ {
                                assert(edges@[m].to@ == id);
                            }
                        }
                    }
                },
                Err(_) => {},
            }
            rejected.push(verdict(&found));
            assert(edges@ =~= edges_upto::<W>(*self, pools@, i + 1));
            i += 1;
        }
        BuildReport { network: Network { tokens, edges }, checks, rejected }
    }
}

/// Every pool that is in gives exactly two edges, one in each direction: the
/// edges are twice as many as such pools, and the pool at `i` has its two at
/// the places of the pools that are in before it.
pub proof fn lemma_two_edges_per_pool<W: Scalar>(
    builder: NetworkBuilder,
    pools: Seq<Pool>,
    n: int,
)
    requires
        0 <= n <= pools.len(),
    ensures
        edges_upto::<W>(builder, pools, n).len() == 2 * accepted_upto::<W>(builder, pools, n),
        forall|i: int|
            0 <= i < n && #[trigger] is_in::<W>(builder, pools[i]) ==> {
                &&& 0 <= accepted_upto::<W>(builder, pools, i) < accepted_upto::<W>(
                    builder,
                    pools,
                    n,
                )
                &&& edges_upto::<W>(builder, pools, n)[2 * accepted_upto::<W>(builder, pools, i)]
                    == forward_edge(pools[i], quote_of::<W>(builder, pools[i]))
                &&& edges_upto::<W>(builder, pools, n)[2 * accepted_upto::<W>(builder, pools, i)
                    + 1] == backward_edge(pools[i], quote_of::<W>(builder, pools[i]))
            },
    decreases n,
{
    if n > 0 {
        lemma_two_edges_per_pool::<W>(builder, pools, n - 1);
    }
}

/// Every edge of a built graph has a rate that is finite and above zero, and
/// its weight is the negated logarithm of its rate.
pub proof fn lemma_edges_sound<W: Scalar>(builder: NetworkBuilder, pools: Seq<Pool>, n: int)
    requires
        0 <= n <= pools.len(),
    ensures
        forall|e: int|
            0 <= e < edges_upto::<W>(builder, pools, n).len() ==> {
                let edge = #[trigger] edges_upto::<W>(builder, pools, n)[e];
                usable_of(edge.rate) && edge.weight == edge.rate.logarithm().negation()
            },
    decreases n,
{
    if n > 0 {
        lemma_edges_sound::<W>(builder, pools, n - 1);
        let before = edges_upto::<W>(builder, pools, n - 1);
        let now = edges_upto::<W>(builder, pools, n);
        let pool = pools[n - 1];
        assert forall|e: int| 0 <= e < now.len() implies {
            let edge = #[trigger] now[e];
            usable_of(edge.rate) && edge.weight == edge.rate.logarithm().negation()
        } by {
            if e < before.len() {
                assert(now[e] == before[e]);
            } else {
                // the pool is in, so both of its rates were found usable
                assert(is_in::<W>(builder, pool));
                assert(checks_of::<W>(builder, pool).rates_usable);
                let quote = quote_of::<W>(builder, pool);
                if e == before.len() {
                    assert(now[e] == forward_edge(pool, quote));
                } else {
                    assert(now[e] == backward_edge(pool, quote));
                }
            }
        }
    }
}

/// Builds the rate graph of `pools` with a fee of 0.30% and a minimum
/// liquidity of 10,000 USD for the pools that state theirs.
pub fn construct_network<W: Scalar>(pools: &Vec<Pool>) -> (network: Network<W>)
    ensures
        network.wf(),
        network.edges@ == edges_upto::<W>(standard_builder(), pools@, pools.len() as int),
{
    let builder = NetworkBuilder::new();
    let report: BuildReport<W> = builder.build(pools);
    report.network
}

} // verus!
