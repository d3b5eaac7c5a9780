//! Retrieval of pool state, as far as it is decided here: how addresses are
//! cut into batches and batches into waves, which reads are sent for a batch,
//! and what the answers make of each pool. Sending and waiting are the
//! caller's.

use vstd::prelude::*;

use crate::abi::all_pairs_call;
use crate::abi::decode_address_return;
use crate::abi::decode_reserves_return;
use crate::abi::is_all_pairs_data;
use crate::abi::read_call;
use crate::abi::address_return;
use crate::abi::reserves_return;
use crate::abi::selector_of;
use crate::abi::Address;
use crate::abi::Call;
use crate::cache::TokenCache;
use crate::model::Pool;
use crate::model::Token;
use crate::text::decimal_string;
use crate::text::decimal_text;
use crate::text::hex_string;
use crate::text::hex_text;

verus! {

/// How many pools one aggregated call asks about.
pub const ADDR_BATCH: usize = 30;

/// How many aggregated calls are under way at once.
pub const MAX_CONCURRENCY: usize = 3;

/// The number of pieces when `total` items are cut into pieces of `size`.
pub open spec fn chunk_count(total: int, size: int) -> int {
    (total + size - 1) / size
}

/// Where piece `k` begins.
pub open spec fn chunk_start(size: int, k: int) -> int {
    k * size
}

/// Where piece `k` ends: a full piece further, or where the items end.
pub open spec fn chunk_end(total: int, size: int, k: int) -> int {
    if (k + 1) * size < total {
        (k + 1) * size
    } else {
        total
    }
}

/// The pieces are a partition: each index below `total` lies in the piece
/// with the number `i / size` and in no other.
pub proof fn lemma_chunks_partition(total: int, size: int, i: int)
    requires
        size > 0,
        0 <= i < total,
    ensures
        0 <= i / size < chunk_count(total, size),
        chunk_start(size, i / size) <= i < chunk_end(total, size, i / size),
        forall|k: int|
            0 <= k < chunk_count(total, size) && #[trigger] chunk_start(size, k) <= i < chunk_end(
                total,
                size,
                k,
            ) ==> k == i / size,
{
    let q = i / size;
    vstd::arithmetic::div_mod::lemma_fundamental_div_mod(i, size);
    vstd::arithmetic::div_mod::lemma_mod_bound(i, size);
    assert(i == size * q + i % size);
    assert(size * q == q * size) by (nonlinear_arith);
    assert((q + 1) * size == q * size + size) by (nonlinear_arith);
    assert(0 <= q) by (nonlinear_arith)
        requires
            size > 0,
            i >= 0,
            q == i / size,
    ;
    // the number of pieces is above q: q full pieces end at or before i
    vstd::arithmetic::div_mod::lemma_div_is_ordered(q * size + size, total + size - 1, size);
    vstd::arithmetic::div_mod::lemma_fundamental_div_mod_converse(
        q * size + size,
        size,
        q + 1,
        0,
    );
    assert forall|k: int|
        0 <= k < chunk_count(total, size) && #[trigger] chunk_start(size, k) <= i < chunk_end(
            total,
            size,
            k,
        ) implies k == q by {
        assert((k + 1) * size == k * size + size) by (nonlinear_arith);
        vstd::arithmetic::div_mod::lemma_fundamental_div_mod_converse(i, size, k, i - k * size);
    }
}

/// Cuts `0..total` into consecutive ranges of `size`, the last one shorter
/// where `size` does not divide `total`. Each range is given by its first
/// index and the index after its last.
pub fn chunk_ranges(total: usize, size: usize) -> (ranges: Vec<(usize, usize)>)
    requires
        size > 0,
    ensures
        ranges.len() == chunk_count(total as int, size as int),
        forall|k: int|
            0 <= k < ranges.len() ==> {
                &&& (#[trigger] ranges[k]).0 == chunk_start(size as int, k)
                &&& ranges[k].1 == chunk_end(total as int, size as int, k)
                &&& ranges[k].0 < ranges[k].1 <= total
                &&& ranges[k].1 - ranges[k].0 <= size
            },
        forall|k: int| 0 <= k < ranges.len() - 1 ==> (#[trigger] ranges[k]).1 == ranges[k + 1].0,
        ranges.len() > 0 ==> ranges[0].0 == 0 && ranges[ranges.len() - 1].1 == total,
{
    let mut ranges: Vec<(usize, usize)> = Vec::new();
    let mut start: usize = 0;
    proof {
        if total == 0 {
            vstd::arithmetic::div_mod::lemma_basic_div(size as int - 1, size as int);
        }
        assert(0 * size == 0);
    }
    while start < total
        invariant
            size > 0,
            start <= total,
            start < total ==> start == ranges.len() * size,
            start == total ==> ranges.len() == chunk_count(total as int, size as int),
            forall|k: int|
                0 <= k < ranges.len() ==> {
                    &&& (#[trigger] ranges[k]).0 == chunk_start(size as int, k)
                    &&& ranges[k].1 == chunk_end(total as int, size as int, k)
                    &&& ranges[k].0 < ranges[k].1 <= total
                    &&& ranges[k].1 - ranges[k].0 <= size
                },
            forall|k: int|
                0 <= k < ranges.len() - 1 ==> (#[trigger] ranges[k]).1 == ranges[k + 1].0,
            ranges.len() > 0 ==> ranges[0].0 == 0 && ranges[ranges.len() - 1].1 == start,
            ranges.len() == 0 ==> start == 0,
        decreases total - start,
    {
        let ghost k = ranges.len() as int;
        let end = if total - start <= size {
            total
        } else {
            start + size
        };
        proof {
            assert((k + 1) * size == k * size + size) by (nonlinear_arith);
            if end == total {
                vstd::arithmetic::div_mod::lemma_fundamental_div_mod_converse(
                    total + size - 1,
                    size as int,
                    k + 1,
                    total - 1 - k * size,
                );
            }
        }
        ranges.push((start, end));
        start = end;
    }
    ranges
}

/// Cuts the addresses into batches of `batch`, in order; the last batch holds
/// what is left.
pub fn partition_batches(addrs: &Vec<Address>, batch: usize) -> (batches: Vec<Vec<Address>>)
    requires
        batch > 0,
    ensures
        batches.len() == chunk_count(addrs.len() as int, batch as int),
        forall|k: int|
            0 <= k < batches.len() ==> (#[trigger] batches[k])@ == addrs@.subrange(
                chunk_start(batch as int, k),
                chunk_end(addrs.len() as int, batch as int, k),
            ),
        forall|k: int| 0 <= k < batches.len() ==> 0 < (#[trigger] batches[k]).len() <= batch,
{
    let ranges = chunk_ranges(addrs.len(), batch);
    let mut batches: Vec<Vec<Address>> = Vec::new();
    let mut k: usize = 0;
    while k < ranges.len()
        invariant
            k <= ranges.len(),
            batches.len() == k,
            ranges.len() == chunk_count(addrs.len() as int, batch as int),
            forall|j: int|
                0 <= j < ranges.len() ==> {
                    &&& (#[trigger] ranges[j]).0 == chunk_start(batch as int, j)
                    &&& ranges[j].1 == chunk_end(addrs.len() as int, batch as int, j)
                    &&& ranges[j].0 < ranges[j].1 <= addrs.len()
                    &&& ranges[j].1 - ranges[j].0 <= batch
                },
            forall|j: int|
                0 <= j < k ==> (#[trigger] batches[j])@ == addrs@.subrange(
                    chunk_start(batch as int, j),
                    chunk_end(addrs.len() as int, batch as int, j),
                ),
            forall|j: int| 0 <= j < k ==> 0 < (#[trigger] batches[j]).len() <= batch,
        decreases ranges.len() - k,
    {
        let (lo, hi) = ranges[k];
        let mut one: Vec<Address> = Vec::new();
        let mut i: usize = lo;
        while i < hi
            invariant
                lo <= i <= hi <= addrs.len(),
                one@ == addrs@.subrange(lo as int, i as int),
            decreases hi - i,
        {
            one.push(addrs[i]);
            i += 1;
            assert(one@ =~= addrs@.subrange(lo as int, i as int));
        }
        batches.push(one);
        k += 1;
    }
    batches
}

/// A fetch laid out in advance: the batches, and the waves in which they are
/// sent. A wave is a range of batches, given by its first index and the index
/// after its last.
pub struct FetchPlan {
    pub batches: Vec<Vec<Address>>,
    pub waves: Vec<(usize, usize)>,
}

/// Lays out the fetch of `addrs`: batches of at most `batch` addresses, sent
/// in waves of at most `permits` batches. The batches of a wave are under way
/// together; a wave starts when the one before it has been answered in full.
pub fn plan_fetch(addrs: &Vec<Address>, batch: usize, permits: usize) -> (plan: FetchPlan)
    requires
        batch > 0,
        permits > 0,
    ensures
        plan.batches.len() == chunk_count(addrs.len() as int, batch as int),
        forall|k: int|
            0 <= k < plan.batches.len() ==> (#[trigger] plan.batches[k])@ == addrs@.subrange(
                chunk_start(batch as int, k),
                chunk_end(addrs.len() as int, batch as int, k),
            ),
        plan.waves.len() == chunk_count(plan.batches.len() as int, permits as int),
        forall|w: int|
            0 <= w < plan.waves.len() ==> {
                &&& (#[trigger] plan.waves[w]).0 == chunk_start(permits as int, w)
                &&& plan.waves[w].1 == chunk_end(plan.batches.len() as int, permits as int, w)
                &&& plan.waves[w].0 < plan.waves[w].1 <= plan.batches.len()
                &&& plan.waves[w].1 - plan.waves[w].0 <= permits
            },
{
    let batches = partition_batches(addrs, batch);
    let waves = chunk_ranges(batches.len(), permits);
    FetchPlan { batches, waves }
}

/// The three reads of a pool, in the order they are sent.
#[derive(Debug, Clone, Copy, PartialEq, Eq, Structural)]
pub enum PoolRead {
    Token0,
    Token1,
    Reserves,
}

impl PoolRead {
    /// The signature of the function that the read calls.
    pub open spec fn signature(self) -> Seq<char> {
        match self {
            PoolRead::Token0 => "token0()"@,
            PoolRead::Token1 => "token1()"@,
            PoolRead::Reserves => "getReserves()"@,
        }
    }

    /// The signature of the function that the read calls, as text.
    pub fn signature_text(self) -> (text: &'static str)
        ensures
            text@ == self.signature(),
    {
        match self {
            PoolRead::Token0 => "token0()",
            PoolRead::Token1 => "token1()",
            PoolRead::Reserves => "getReserves()",
        }
    }
}

/// The read at place `i` of an aggregated call: reads come three to a pool.
pub open spec fn read_at(i: int) -> PoolRead {
    if i % 3 == 0 {
        PoolRead::Token0
    } else if i % 3 == 1 {
        PoolRead::Token1
    } else {
        PoolRead::Reserves
    }
}

/// The reads that one aggregated call holds for a batch: for each pool, in
/// order, its first token, its second token and its reserves.
pub fn pool_state_calls(chunk: &Vec<Address>) -> (calls: Vec<Call>)
    ensures
        calls.len() == 3 * chunk.len(),
        forall|i: int|
            0 <= i < calls.len() ==> {
                &&& (#[trigger] calls[i]).target == chunk[i / 3]
                &&& calls[i].call_data@ == selector_of(read_at(i).signature())
            },
{
    let mut calls: Vec<Call> = Vec::new();
    let mut k: usize = 0;
    while k < chunk.len()
        invariant
            k <= chunk.len(),
            calls.len() == 3 * k,
            forall|i: int|
                0 <= i < calls.len() ==> {
                    &&& (#[trigger] calls[i]).target == chunk[i / 3]
                    &&& calls[i].call_data@ == selector_of(read_at(i).signature())
                },
        decreases chunk.len() - k,
    {
        let pool = chunk[k];
        calls.push(read_call(pool, PoolRead::Token0.signature_text()));
        calls.push(read_call(pool, PoolRead::Token1.signature_text()));
        calls.push(read_call(pool, PoolRead::Reserves.signature_text()));
        k += 1;
    }
    calls
}

/// What the three reads of one pool returned.
#[derive(Debug, Clone, Copy)]
pub struct PoolState {
    pub pool: Address,
    pub token0: Address,
    pub token1: Address,
    pub reserve0: u128,
    pub reserve1: u128,
}

/// Why a pool was left out of a batch's result.
#[derive(Debug, Clone, Copy, PartialEq, Eq, Structural)]
pub enum DropReason {
    /// The answer holds fewer return values than the pool's reads.
    MissingReply,
    /// The first token's address could not be decoded.
    Token0,
    /// The second token's address could not be decoded.
    Token1,
    /// The reserves could not be decoded.
    Reserves,
    /// Nothing is known of the first token: its metadata could not be read.
    Token0Metadata,
    /// Nothing is known of the second token: its metadata could not be read.
    Token1Metadata,
}

/// What the answer to a batch holds for the pool at position `k`: the values
/// decoded from the three return values at `3k`, `3k + 1` and `3k + 2`, or
/// the first of them that is missing or does not decode.
pub open spec fn pool_outcome(data: Seq<Vec<u8>>, k: int) -> Result<
    (Seq<u8>, Seq<u8>, nat, nat),
    DropReason,
> {
    if data.len() < 3 * k + 3 {
        Err(DropReason::MissingReply)
    } else {
        match address_return(data[3 * k]@) {
            None => Err(DropReason::Token0),
            Some(token0) => match address_return(data[3 * k + 1]@) {
                None => Err(DropReason::Token1),
                Some(token1) => match reserves_return(data[3 * k + 2]@) {
                    None => Err(DropReason::Reserves),
                    Some(reserves) => Ok((token0, token1, reserves.0, reserves.1)),
                },
            },
        }
    }
}

/// `got` is what `outcome` says of the pool `pool`.
pub open spec fn outcome_is(
    got: Result<PoolState, DropReason>,
    pool: Address,
    outcome: Result<(Seq<u8>, Seq<u8>, nat, nat), DropReason>,
) -> bool {
    match got {
        Ok(state) => outcome == Ok::<(Seq<u8>, Seq<u8>, nat, nat), DropReason>(
            (state.token0@, state.token1@, state.reserve0 as nat, state.reserve1 as nat),
        ) && state.pool == pool,
        Err(reason) => outcome == Err::<(Seq<u8>, Seq<u8>, nat, nat), DropReason>(reason),
    }
}

/// Reads the answer to a batch, pool by pool. A pool whose return values are
/// missing or do not decode is reported with the reason and does not disturb
/// the pools after it.
pub fn collate_pool_states(chunk: &Vec<Address>, return_data: &Vec<Vec<u8>>) -> (states: Vec<
    Result<PoolState, DropReason>,
>)
    ensures
        states.len() == chunk.len(),
        forall|k: int|
            0 <= k < states.len() ==> outcome_is(
                #[trigger] states[k],
                chunk[k],
                pool_outcome(return_data@, k),
            ),
{
    let full = return_data.len() / 3;
    let mut states: Vec<Result<PoolState, DropReason>> = Vec::new();
    let mut k: usize = 0;
    while k < chunk.len()
        invariant
            k <= chunk.len(),
            states.len() == k,
            full == return_data.len() / 3,
            forall|j: int|
                0 <= j < k ==> outcome_is(
                    #[trigger] states[j],
                    chunk[j],
                    pool_outcome(return_data@, j),
                ),
        decreases chunk.len() - k,
    {
        let state = if k >= full {
            Err(DropReason::MissingReply)
        } else {
            let base = 3 * k;
            match decode_address_return(return_data[base].as_slice()) {
                None => Err(DropReason::Token0),
                Some(token0) => match decode_address_return(return_data[base + 1].as_slice()) {
                    None => Err(DropReason::Token1),
                    Some(token1) => match decode_reserves_return(
                        return_data[base + 2].as_slice(),
                    ) {
                        None => Err(DropReason::Reserves),
                        Some(reserves) => Ok(
                            PoolState {
                                pool: chunk[k],
                                token0,
                                token1,
                                reserve0: reserves.0,
                                reserve1: reserves.1,
                            },
                        ),
                    },
                },
            }
        };
        states.push(state);
        k += 1;
    }
    states
}

/// Whether two addresses are the same.
fn same_address(a: &Address, b: &Address) -> (same: bool)
    ensures
        same == (a@ == b@),
{
    let mut i: usize = 0;
    while i < 20
        invariant
            i <= 20,
            forall|j: int| 0 <= j < i ==> a[j] == b[j],
        decreases 20 - i,
    {
        if a[i] != b[i] {
            return false;
        }
        i += 1;
    }
    assert(a@ =~= b@);
    true
}

/// Whether `address` is among `list`.
fn holds_address(list: &Vec<Address>, address: &Address) -> (held: bool)
    ensures
        held == list@.map_values(|a: Address| a@).contains(address@),
{
    let ghost views = list@.map_values(|a: Address| a@);
    let mut i: usize = 0;
    while i < list.len()
        invariant
            i <= list.len(),
            views == list@.map_values(|a: Address| a@),
            forall|j: int| 0 <= j < i ==> views[j] != address@,
        decreases list.len() - i,
    {
        if same_address(&list[i], address) {
            assert(views[i as int] == address@);
            return true;
        }
        i += 1;
    }
    false
}

/// The token address at place `i` among those that the pools of a batch
/// name, two to a pool; `None` for a pool that was left out.
pub open spec fn wanted(states: Seq<Result<PoolState, DropReason>>, i: int) -> Option<Seq<u8>> {
    match states[i / 2] {
        Ok(state) => Some(
            if i % 2 == 0 {
                state.token0@
            } else {
                state.token1@
            },
        ),
        Err(_) => None,
    }
}

/// The token addresses among the first `n` named that are not in `cached`,
/// each once, in the order in which they are first named.
pub open spec fn needed_upto(
    states: Seq<Result<PoolState, DropReason>>,
    cached: Set<Seq<u8>>,
    n: int,
) -> Seq<Seq<u8>>
    decreases n,
{
    if n <= 0 {
        Seq::empty()
    } else {
        let before = needed_upto(states, cached, n - 1);
        match wanted(states, n - 1) {
            Some(token) => if cached.contains(token) || before.contains(token) {
                before
            } else {
                before.push(token)
            },
            None => before,
        }
    }
}

/// Of the tokens that a batch needs none is asked for twice and none that is
/// cached is asked for; and each token of a pool that was read is cached or
/// asked for.
pub proof fn lemma_needed_once(
    states: Seq<Result<PoolState, DropReason>>,
    cached: Set<Seq<u8>>,
    n: int,
)
    requires
        0 <= n <= 2 * states.len(),
    ensures
        needed_upto(states, cached, n).no_duplicates(),
        forall|i: int|
            0 <= i < needed_upto(states, cached, n).len() ==> !cached.contains(
                #[trigger] needed_upto(states, cached, n)[i],
            ),
        forall|i: int|
            0 <= i < n ==> (#[trigger] wanted(states, i) matches Some(token) ==> cached.contains(
                token,
            ) || needed_upto(states, cached, n).contains(token)),
    decreases n,
{
    if n > 0 {
        lemma_needed_once(states, cached, n - 1);
        let before = needed_upto(states, cached, n - 1);
        let now = needed_upto(states, cached, n);
        assert forall|i: int| 0 <= i < n implies (#[trigger] wanted(states, i) matches Some(
            token,
        ) ==> cached.contains(token) || now.contains(token)) by {
            if let Some(token) = wanted(states, i) {
                if !cached.contains(token) {
                    if i < n - 1 {
                        let at = choose|at: int| 0 <= at < before.len() && before[at] == token;
                        assert(now[at] == token);
                    } else if before.contains(token) {
                        let at = choose|at: int| 0 <= at < before.len() && before[at] == token;
                        assert(now[at] == token);
                    } else {
                        assert(now[now.len() - 1] == token);
                    }
                }
            }
        }
    }
}

/// The tokens whose metadata has to be read before the pools of a batch can
/// be put together: the addresses that the pools name and the cache lacks,
/// each once, in the order in which they are first named.
pub fn tokens_needed(states: &Vec<Result<PoolState, DropReason>>, cache: &TokenCache) -> (needed:
    Vec<Address>)
    ensures
        needed@.map_values(|a: Address| a@) == needed_upto(
            states@,
            cache@.dom(),
            2 * states.len(),
        ),
{
    let mut needed: Vec<Address> = Vec::new();
    let mut k: usize = 0;
    assert(needed@.map_values(|a: Address| a@) =~= needed_upto(states@, cache@.dom(), 0));
    while k < states.len()
        invariant
            k <= states.len(),
            needed@.map_values(|a: Address| a@) == needed_upto(states@, cache@.dom(), 2 * k),
        decreases states.len() - k,
    {
        match &states[k] {
            Ok(state) => {
                assert(wanted(states@, 2 * k) == Some(state.token0@));
                assert(wanted(states@, 2 * k + 1) == Some(state.token1@));
                let ghost before = needed@;
                if cache.lookup(&state.token0).is_none() && !holds_address(&needed, &state.token0) {
                    needed.push(state.token0);
                    assert(needed@.map_values(|a: Address| a@) =~= before.map_values(
                        |a: Address| a@,
                    ).push(state.token0@));
                }
                assert(needed@.map_values(|a: Address| a@) == needed_upto(
                    states@,
                    cache@.dom(),
                    2 * k + 1,
                ));
                let ghost between = needed@;
                if cache.lookup(&state.token1).is_none() && !holds_address(&needed, &state.token1) {
                    needed.push(state.token1);
                    assert(needed@.map_values(|a: Address| a@) =~= between.map_values(
                        |a: Address| a@,
                    ).push(state.token1@));
                }
            },
            Err(_) => {
                assert(wanted(states@, 2 * k) is None);
                assert(wanted(states@, 2 * k + 1) is None);
                assert(needed_upto(states@, cache@.dom(), 2 * k + 1) == needed_upto(
                    states@,
                    cache@.dom(),
                    2 * k,
                ));
            },
        }
        k += 1;
    }
    needed
}

/// What becomes of the pool at place `k` of a batch once the metadata has
/// been read: a pool that was left out stays out, a pool with a token that
/// the cache still lacks is left out, and any other has its record.
pub open spec fn pool_result(
    got: Result<Pool, DropReason>,
    state: Result<PoolState, DropReason>,
    cached: Map<Seq<u8>, Token>,
) -> bool {
    match state {
        Err(reason) => got == Err::<Pool, DropReason>(reason),
        Ok(state) => if !cached.dom().contains(state.token0@) {
            got == Err::<Pool, DropReason>(DropReason::Token0Metadata)
        } else if !cached.dom().contains(state.token1@) {
            got == Err::<Pool, DropReason>(DropReason::Token1Metadata)
        } else {
            got matches Ok(pool) && is_pool_of(
                pool,
                state,
                cached[state.token0@],
                cached[state.token1@],
            )
        },
    }
}

/// `pool` is the record of a pool in `state` with the given tokens.
pub open spec fn is_pool_of(pool: Pool, state: PoolState, token0: Token, token1: Token) -> bool {
    &&& pool.id@ == hex_text(state.pool@)
    &&& pool.token0 == token0
    &&& pool.token1 == token1
    &&& pool.reserve0@ == decimal_text(state.reserve0 as nat)
    &&& pool.reserve1@ == decimal_text(state.reserve1 as nat)
    &&& pool.reserveUSD is None
}

/// Puts the pools of a batch together from their state and the cached
/// tokens. A pool with a token that the cache lacks is reported and left
/// out; the pools after it are not disturbed.
pub fn assemble_batch(states: &Vec<Result<PoolState, DropReason>>, cache: &TokenCache) -> (pools:
    Vec<Result<Pool, DropReason>>)
    ensures
        pools.len() == states.len(),
        forall|k: int|
            0 <= k < pools.len() ==> pool_result(#[trigger] pools[k], states[k], cache@),
{
    let mut pools: Vec<Result<Pool, DropReason>> = Vec::new();
    let mut k: usize = 0;
    while k < states.len()
        invariant
            k <= states.len(),
            pools.len() == k,
            forall|j: int| 0 <= j < k ==> pool_result(#[trigger] pools[j], states[j], cache@),
        decreases states.len() - k,
    {
        let pool = match &states[k] {
            Err(reason) => Err(*reason),
            Ok(state) => match cache.lookup(&state.token0) {
                None => Err(DropReason::Token0Metadata),
                Some(token0) => match cache.lookup(&state.token1) {
                    None => Err(DropReason::Token1Metadata),
                    Some(token1) => Ok(assemble_pool(state, token0, token1)),
                },
            },
        };
        pools.push(pool);
        k += 1;
    }
    pools
}

/// The pool record of a pool whose state was read and whose tokens are
/// known: the addresses in hexadecimal, the reserves in decimal, no liquidity
/// in USD.
pub fn assemble_pool(state: &PoolState, token0: Token, token1: Token) -> (pool: Pool)
    ensures
        is_pool_of(pool, *state, token0, token1),
{
    Pool {
        id: hex_string(state.pool.as_slice()),
        token0,
        token1,
        reserve0: decimal_string(state.reserve0),
        reserve1: decimal_string(state.reserve1),
        reserveUSD: None,
    }
}

/// The reads of the factory's pairs `start`, `start + 1`, and so on, `count`
/// of them.
pub fn build_all_pairs_calls(start: u64, count: usize, factory: Address) -> (calls: Vec<Call>)
    requires
        start + count <= u64::MAX,
    ensures
        calls.len() == count,
        forall|i: int|
            0 <= i < calls.len() ==> {
                &&& (#[trigger] calls[i]).target == factory
                &&& is_all_pairs_data(calls[i].call_data@, (start + i) as nat)
            },
{
    let mut calls: Vec<Call> = Vec::new();
    let mut i: usize = 0;
    while i < count
        invariant
            i <= count,
            start + count <= u64::MAX,
            calls.len() == i,
            forall|j: int|
                0 <= j < calls.len() ==> {
                    &&& (#[trigger] calls[j]).target == factory
                    &&& is_all_pairs_data(calls[j].call_data@, (start + j) as nat)
                },
        decreases count - i,
    {
        calls.push(all_pairs_call(factory, start + i as u64));
        i += 1;
    }
    calls
}

/// Lays out the enumeration of the factory's pairs: one aggregated call for
/// each run of `page` indices below `total`. No index from `total` on is
/// asked for.
pub fn plan_discovery(total: usize, page: usize, factory: Address) -> (pages: Vec<Vec<Call>>)
    requires
        page > 0,
    ensures
        pages.len() == chunk_count(total as int, page as int),
        forall|k: int|
            0 <= k < pages.len() ==> (#[trigger] pages[k]).len() == chunk_end(
                total as int,
                page as int,
                k,
            ) - chunk_start(page as int, k),
        forall|k: int, i: int|
            0 <= k < pages.len() && 0 <= i < pages[k].len() ==> {
                &&& (#[trigger] pages[k][i]).target == factory
                &&& chunk_start(page as int, k) + i < total
                &&& is_all_pairs_data(
                    pages[k][i].call_data@,
                    (chunk_start(page as int, k) + i) as nat,
                )
            },
{
    let ranges = chunk_ranges(total, page);
    let mut pages: Vec<Vec<Call>> = Vec::new();
    let mut k: usize = 0;
    while k < ranges.len()
        invariant
            k <= ranges.len(),
            pages.len() == k,
            ranges.len() == chunk_count(total as int, page as int),
            forall|j: int|
                0 <= j < ranges.len() ==> {
                    &&& (#[trigger] ranges[j]).0 == chunk_start(page as int, j)
                    &&& ranges[j].1 == chunk_end(total as int, page as int, j)
                    &&& ranges[j].0 < ranges[j].1 <= total
                },
            forall|j: int|
                0 <= j < k ==> (#[trigger] pages[j]).len() == chunk_end(
                    total as int,
                    page as int,
                    j,
                ) - chunk_start(page as int, j),
            forall|j: int, i: int|
                0 <= j < k && 0 <= i < pages[j].len() ==> {
                    &&& (#[trigger] pages[j][i]).target == factory
                    &&& chunk_start(page as int, j) + i < total
                    &&& is_all_pairs_data(
                        pages[j][i].call_data@,
                        (chunk_start(page as int, j) + i) as nat,
                    )
                },
        decreases ranges.len() - k,
    {
        let (lo, hi) = ranges[k];
        let calls = build_all_pairs_calls(lo as u64, hi - lo, factory);
        pages.push(calls);
        k += 1;
    }
    pages
}

/// The addresses that the enumeration's reads returned, in order; `None`
/// where a return value does not hold an address.
pub fn collate_pair_addresses(return_data: &Vec<Vec<u8>>) -> (addresses: Vec<Option<Address>>)
    ensures
        addresses.len() == return_data.len(),
        forall|i: int|
            0 <= i < addresses.len() ==> match #[trigger] addresses[i] {
                Some(address) => address_return(return_data[i]@) == Some(address@),
                None => address_return(return_data[i]@) is None,
            },
{
    let mut addresses: Vec<Option<Address>> = Vec::new();
    let mut i: usize = 0;
    while i < return_data.len()
        invariant
            i <= return_data.len(),
            addresses.len() == i,
            forall|j: int|
                0 <= j < i ==> match #[trigger] addresses[j] {
                    Some(address) => address_return(return_data[j]@) == Some(address@),
                    None => address_return(return_data[j]@) is None,
                },
        decreases return_data.len() - i,
    {
        addresses.push(decode_address_return(return_data[i].as_slice()));
        i += 1;
    }
    addresses
}

} // verus!
