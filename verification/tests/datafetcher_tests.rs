use alloy::primitives::aliases::U112;
use alloy::sol_types::SolValue;
use arb_engine::abi::all_pairs_call;
use arb_engine::abi::read_call;
use arb_engine::abi::selector;
use arb_engine::abi::Address;
use arb_engine::cache::make_token;
use arb_engine::cache::TokenCache;
use arb_engine::cache::TokenMetadata;
use arb_engine::datafetcher::assemble_batch;
use arb_engine::datafetcher::assemble_pool;
use arb_engine::datafetcher::build_all_pairs_calls;
use arb_engine::datafetcher::chunk_ranges;
use arb_engine::datafetcher::collate_pair_addresses;
use arb_engine::datafetcher::collate_pool_states;
use arb_engine::datafetcher::partition_batches;
use arb_engine::datafetcher::plan_discovery;
use arb_engine::datafetcher::plan_fetch;
use arb_engine::datafetcher::pool_state_calls;
use arb_engine::datafetcher::tokens_needed;
use arb_engine::datafetcher::DropReason;
use arb_engine::datafetcher::PoolState;
use arb_engine::datafetcher::ADDR_BATCH;
use arb_engine::datafetcher::MAX_CONCURRENCY;

const UNISWAP_V2_FACTORY: Address = [
    0x5c, 0x69, 0xbe, 0xe7, 0x01, 0xef, 0x81, 0x4a, 0x2b, 0x6a, 0x3e, 0xdd, 0x4b, 0x16, 0x52, 0xcb,
    0x9c, 0xc5, 0xaa, 0x6f,
];

fn address(n: u8) -> Address {
    let mut bytes = [0u8; 20];
    bytes[0] = 0xaa;
    bytes[19] = n;
    bytes
}

fn address_word(address: &Address) -> Vec<u8> {
    let mut word = vec![0u8; 12];
    word.extend_from_slice(address);
    word
}

fn number_word(n: u128) -> Vec<u8> {
    let mut word = vec![0u8; 16];
    word.extend_from_slice(&n.to_be_bytes());
    word
}

fn reserves_words(reserve0: u128, reserve1: u128, stamp: u32) -> Vec<u8> {
    let mut words = number_word(reserve0);
    words.extend(number_word(reserve1));
    words.extend(number_word(stamp as u128));
    words
}

#[test]
fn test_build_all_pairs_calls() {
    let factory = UNISWAP_V2_FACTORY;
    let calls = build_all_pairs_calls(0, 5, factory);
    assert_eq!(calls.len(), 5);
    for (i, call) in calls.iter().enumerate() {
        let mut expected_data = vec![0x1e, 0x3d, 0xd1, 0x8b];
        expected_data.extend(number_word(i as u128));
        assert_eq!(call.target, factory);
        assert_eq!(call.call_data, expected_data);
    }
}

#[test]
fn all_pairs_calls_count_on_from_the_start() {
    let calls = build_all_pairs_calls(300, 2, UNISWAP_V2_FACTORY);
    assert_eq!(calls.len(), 2);
    assert_eq!(&calls[0].call_data[4..], &number_word(300)[..]);
    assert_eq!(&calls[1].call_data[4..], &number_word(301)[..]);
    assert!(build_all_pairs_calls(7, 0, UNISWAP_V2_FACTORY).is_empty());
    let far = all_pairs_call(UNISWAP_V2_FACTORY, u64::MAX);
    assert_eq!(&far.call_data[4..], &number_word(u64::MAX as u128)[..]);
}

#[test]
fn selectors_are_the_heads_of_the_digests() {
    assert_eq!(selector("token0()"), [0x0d, 0xfe, 0x16, 0x81]);
    assert_eq!(selector("token1()"), [0xd2, 0x12, 0x20, 0xa7]);
    assert_eq!(selector("getReserves()"), [0x09, 0x02, 0xf1, 0xac]);
    assert_eq!(selector("allPairs(uint256)"), [0x1e, 0x3d, 0xd1, 0x8b]);
    assert_eq!(selector("transfer(address,uint256)"), [0xa9, 0x05, 0x9c, 0xbb]);
    let digest = alloy::primitives::keccak256("token0()".as_bytes());
    assert_eq!(selector("token0()")[..], digest[..4]);
}

#[test]
fn read_call_sends_the_selector_alone() {
    let call = read_call(address(1), "token0()");
    assert_eq!(call.target, address(1));
    assert_eq!(call.call_data, vec![0x0d, 0xfe, 0x16, 0x81]);
}

#[test]
fn chunk_ranges_cut_in_order() {
    assert_eq!(chunk_ranges(65, 30), vec![(0, 30), (30, 60), (60, 65)]);
    assert_eq!(chunk_ranges(60, 30), vec![(0, 30), (30, 60)]);
    assert_eq!(chunk_ranges(1, 30), vec![(0, 1)]);
    assert_eq!(chunk_ranges(0, 30), vec![]);
    assert_eq!(chunk_ranges(3, 1), vec![(0, 1), (1, 2), (2, 3)]);
    assert_eq!(chunk_ranges(usize::MAX, usize::MAX), vec![(0, usize::MAX)]);
}

#[test]
fn sixty_five_addresses_make_three_batches() {
    let addrs: Vec<Address> = (0..65).map(address).collect();
    let batches = partition_batches(&addrs, 30);
    assert_eq!(batches.len(), 3);
    assert_eq!(batches[0].len(), 30);
    assert_eq!(batches[1].len(), 30);
    assert_eq!(batches[2].len(), 5);
    assert_eq!(ADDR_BATCH, 30);
    let joined: Vec<Address> = batches.iter().flatten().copied().collect();
    assert_eq!(joined, addrs);
}

#[test]
fn batches_keep_every_address_once_and_in_order() {
    for total in 0..40u8 {
        for size in 1..9usize {
            let addrs: Vec<Address> = (0..total).map(address).collect();
            let batches = partition_batches(&addrs, size);
            assert_eq!(batches.len(), (total as usize + size - 1) / size);
            assert!(batches.iter().all(|b| !b.is_empty() && b.len() <= size));
            let joined: Vec<Address> = batches.iter().flatten().copied().collect();
            assert_eq!(joined, addrs);
        }
    }
}

#[test]
fn no_batches_of_no_addresses() {
    assert!(partition_batches(&Vec::new(), 30).is_empty());
}

#[test]
fn waves_hold_at_most_the_permitted_batches() {
    let addrs: Vec<Address> = (0..200).map(address).collect();
    let plan = plan_fetch(&addrs, ADDR_BATCH, MAX_CONCURRENCY);
    assert_eq!(plan.batches.len(), 7);
    assert_eq!(plan.waves, vec![(0, 3), (3, 6), (6, 7)]);
    let plan = plan_fetch(&addrs, 200, 3);
    assert_eq!(plan.batches.len(), 1);
    assert_eq!(plan.waves, vec![(0, 1)]);
    let plan = plan_fetch(&Vec::new(), 30, 3);
    assert!(plan.batches.is_empty());
    assert!(plan.waves.is_empty());
}

#[test]
fn three_reads_for_each_pool() {
    let chunk = vec![address(1), address(2)];
    let calls = pool_state_calls(&chunk);
    assert_eq!(calls.len(), 6);
    let heads = [[0x0d, 0xfe, 0x16, 0x81], [0xd2, 0x12, 0x20, 0xa7], [0x09, 0x02, 0xf1, 0xac]];
    for (i, call) in calls.iter().enumerate() {
        assert_eq!(call.target, chunk[i / 3]);
        assert_eq!(call.call_data, heads[i % 3].to_vec());
    }
    assert!(pool_state_calls(&Vec::new()).is_empty());
}

#[test]
fn collate_reads_each_pool_from_its_three_values() {
    let chunk = vec![address(1), address(2)];
    let return_data = vec![
        address_word(&address(10)),
        address_word(&address(11)),
        reserves_words(1_000, 2_000, 17),
        address_word(&address(20)),
        address_word(&address(21)),
        reserves_words((1u128 << 112) - 1, 0, 0),
    ];
    let states = collate_pool_states(&chunk, &return_data);
    assert_eq!(states.len(), 2);
    let first: PoolState = states[0].unwrap();
    assert_eq!(first.pool, address(1));
    assert_eq!(first.token0, address(10));
    assert_eq!(first.token1, address(11));
    assert_eq!(first.reserve0, 1_000);
    assert_eq!(first.reserve1, 2_000);
    let second = states[1].unwrap();
    assert_eq!(second.pool, address(2));
    assert_eq!(second.token0, address(20));
    assert_eq!(second.token1, address(21));
    assert_eq!(second.reserve0, (1u128 << 112) - 1);
    assert_eq!(second.reserve1, 0);
}

#[test]
fn collate_skips_one_pool_and_keeps_the_rest() {
    let chunk = vec![address(1), address(2), address(3), address(4), address(5)];
    let good = |n: u8| {
        vec![
            address_word(&address(n)),
            address_word(&address(n + 1)),
            reserves_words(5, 6, 7),
        ]
    };
    let mut return_data = Vec::new();
    return_data.extend(good(10));
    // the second pool's first token is cut short
    return_data.extend(vec![vec![0u8; 31], address_word(&address(21)), reserves_words(1, 1, 1)]);
    // the third pool's second token is empty
    return_data.extend(vec![address_word(&address(30)), Vec::new(), reserves_words(1, 1, 1)]);
    // the fourth pool's reserves lack a word
    return_data.extend(vec![
        address_word(&address(40)),
        address_word(&address(41)),
        vec![0u8; 64],
    ]);
    return_data.extend(good(50));
    let states = collate_pool_states(&chunk, &return_data);
    assert_eq!(states.len(), 5);
    assert_eq!(states[0].unwrap().token0, address(10));
    assert_eq!(states[1].unwrap_err(), DropReason::Token0);
    assert_eq!(states[2].unwrap_err(), DropReason::Token1);
    assert_eq!(states[3].unwrap_err(), DropReason::Reserves);
    let last = states[4].unwrap();
    assert_eq!(last.pool, address(5));
    assert_eq!(last.token0, address(50));
    assert_eq!(last.token1, address(51));
}

#[test]
fn collate_reports_pools_without_an_answer() {
    let chunk = vec![address(1), address(2)];
    let return_data = vec![
        address_word(&address(10)),
        address_word(&address(11)),
        reserves_words(1, 2, 3),
        address_word(&address(20)),
    ];
    let states = collate_pool_states(&chunk, &return_data);
    assert_eq!(states[0].unwrap().reserve1, 2);
    assert_eq!(states[1].unwrap_err(), DropReason::MissingReply);
    let none = collate_pool_states(&chunk, &Vec::new());
    assert_eq!(none[0].unwrap_err(), DropReason::MissingReply);
    assert_eq!(none[1].unwrap_err(), DropReason::MissingReply);
}

#[test]
fn decoding_looks_at_the_low_bytes_only() {
    // what stands before an address or a reserve in its word is passed over
    let mut token0 = address_word(&address(10));
    token0[0] = 0xff;
    let mut reserves = reserves_words(3, 4, 5);
    reserves[0] = 0xff;
    reserves[17] = 0xff;
    let return_data = vec![token0, address_word(&address(11)), reserves];
    let states = collate_pool_states(&vec![address(1)], &return_data);
    let state = states[0].unwrap();
    assert_eq!(state.token0, address(10));
    assert_eq!(state.reserve0, 3);
    assert_eq!(state.reserve1, 4);
}

#[test]
fn decoding_takes_longer_values() {
    let mut token0 = address_word(&address(10));
    token0.extend(vec![9u8; 40]);
    let mut reserves = reserves_words(3, 4, 5);
    reserves.push(1);
    let return_data = vec![token0, address_word(&address(11)), reserves];
    let states = collate_pool_states(&vec![address(1)], &return_data);
    assert_eq!(states[0].unwrap().token0, address(10));
    assert_eq!(states[0].unwrap().reserve1, 4);
}

#[test]
fn pair_addresses_come_back_in_order() {
    let return_data =
        vec![address_word(&address(1)), vec![1, 2, 3], address_word(&address(3)), Vec::new()];
    let addresses = collate_pair_addresses(&return_data);
    assert_eq!(addresses, vec![Some(address(1)), None, Some(address(3)), None]);
    assert!(collate_pair_addresses(&Vec::new()).is_empty());
}

#[test]
fn discovery_asks_for_no_index_past_the_count() {
    let pages = plan_discovery(7, 3, UNISWAP_V2_FACTORY);
    assert_eq!(pages.len(), 3);
    assert_eq!(pages[0].len(), 3);
    assert_eq!(pages[1].len(), 3);
    assert_eq!(pages[2].len(), 1);
    let mut index = 0u128;
    for page in &pages {
        for call in page {
            assert_eq!(call.target, UNISWAP_V2_FACTORY);
            assert_eq!(&call.call_data[..4], &[0x1e, 0x3d, 0xd1, 0x8b]);
            assert_eq!(&call.call_data[4..], &number_word(index)[..]);
            index += 1;
        }
    }
    assert_eq!(index, 7);
    assert!(plan_discovery(0, 3, UNISWAP_V2_FACTORY).is_empty());
}

#[test]
fn assemble_pool_writes_addresses_and_reserves() {
    let state = PoolState {
        pool: address(1),
        token0: address(2),
        token1: address(3),
        reserve0: 123_456_789_012_345_678_901_234_567_890,
        reserve1: 0,
    };
    let meta = |symbol: &str| TokenMetadata {
        name: symbol.to_lowercase(),
        symbol: symbol.to_string(),
        decimals: 18,
    };
    let token0 = make_token(&state.token0, meta("WETH"));
    let token1 = make_token(&state.token1, meta("DAI"));
    let pool = assemble_pool(&state, token0, token1);
    assert_eq!(pool.id, "0xaa00000000000000000000000000000000000001");
    assert_eq!(pool.token0.id, "0xaa00000000000000000000000000000000000002");
    assert_eq!(pool.token0.symbol, "WETH");
    assert_eq!(pool.token1.id, "0xaa00000000000000000000000000000000000003");
    assert_eq!(pool.token1.name, "dai");
    assert_eq!(pool.reserve0, "123456789012345678901234567890");
    assert_eq!(pool.reserve1, "0");
    assert_eq!(pool.reserveUSD, None);
}

fn state(pool: u8, token0: u8, token1: u8) -> PoolState {
    PoolState {
        pool: address(pool),
        token0: address(token0),
        token1: address(token1),
        reserve0: 10,
        reserve1: 20,
    }
}

fn metadata(symbol: &str) -> TokenMetadata {
    TokenMetadata { name: symbol.to_lowercase(), symbol: symbol.to_string(), decimals: 18 }
}

#[test]
fn a_token_in_two_pools_is_asked_for_once() {
    let states = vec![
        Ok(state(1, 10, 11)),
        Err(DropReason::Reserves),
        Ok(state(3, 11, 12)),
        Ok(state(4, 10, 10)),
        Ok(state(5, 13, 12)),
    ];
    let mut cache = TokenCache::new();
    assert_eq!(
        tokens_needed(&states, &cache),
        vec![address(10), address(11), address(12), address(13)]
    );
    cache.remember(address(11), metadata("DAI"));
    assert_eq!(tokens_needed(&states, &cache), vec![address(10), address(12), address(13)]);
    for token in [10, 12, 13] {
        cache.remember(address(token), metadata("WETH"));
    }
    assert!(tokens_needed(&states, &cache).is_empty());
    assert!(tokens_needed(&Vec::new(), &cache).is_empty());
}

#[test]
fn a_batch_is_put_together_from_the_cache() {
    let states = vec![
        Ok(state(1, 10, 11)),
        Err(DropReason::Token1),
        Ok(state(3, 11, 12)),
        Ok(state(4, 12, 10)),
        Ok(state(5, 11, 10)),
    ];
    let mut cache = TokenCache::new();
    cache.remember(address(10), metadata("WETH"));
    cache.remember(address(11), metadata("DAI"));
    let pools = assemble_batch(&states, &cache);
    assert_eq!(pools.len(), 5);
    let first = pools[0].as_ref().unwrap();
    assert_eq!(first.id, "0xaa00000000000000000000000000000000000001");
    assert_eq!(first.token0.symbol, "WETH");
    assert_eq!(first.token0.id, "0xaa0000000000000000000000000000000000000a");
    assert_eq!(first.token1.symbol, "DAI");
    assert_eq!(first.reserve0, "10");
    assert_eq!(first.reserve1, "20");
    assert_eq!(pools[1].as_ref().err(), Some(&DropReason::Token1));
    assert_eq!(pools[2].as_ref().err(), Some(&DropReason::Token1Metadata));
    assert_eq!(pools[3].as_ref().err(), Some(&DropReason::Token0Metadata));
    let last = pools[4].as_ref().unwrap();
    assert_eq!(last.token0.symbol, "DAI");
    assert_eq!(last.token1.symbol, "WETH");
}

#[test]
fn collate_reads_what_alloy_encodes() {
    let token0 = alloy::primitives::Address::from(address(10));
    let token1 = alloy::primitives::Address::from(address(11));
    let reserves = (U112::from(123_456_789u64), U112::from(u64::MAX), 1_700_000_000u32);
    let return_data = vec![
        (token0,).abi_encode_sequence(),
        (token1,).abi_encode_sequence(),
        reserves.abi_encode_sequence(),
    ];
    let states = collate_pool_states(&vec![address(1)], &return_data);
    let state = states[0].unwrap();
    assert_eq!(state.token0, address(10));
    assert_eq!(state.token1, address(11));
    assert_eq!(state.reserve0, 123_456_789);
    assert_eq!(state.reserve1, u64::MAX as u128);
    let addresses = collate_pair_addresses(&return_data[..2].to_vec());
    assert_eq!(addresses, vec![Some(address(10)), Some(address(11))]);
}
