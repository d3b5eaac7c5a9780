//! The token cache of one run: what is known of each token address, so that
//! no token's metadata is asked for twice.

use dashmap::DashMap;
use vstd::prelude::*;

use crate::abi::Address;
use crate::model::Token;
use crate::text::decimal_string;
use crate::text::decimal_text;
use crate::text::hex_string;
use crate::text::hex_text;

verus! {

/// `dashmap::DashMap`, a hash map; what it holds is known here through its
/// methods alone.
#[verifier::external_type_specification]
#[verifier::external_body]
#[verifier::reject_recursive_types(K)]
#[verifier::reject_recursive_types(V)]
#[verifier::reject_recursive_types(S)]
pub struct ExDashMap<K, V, S>(DashMap<K, V, S>);

/// The entries of a map from addresses to tokens.
pub uninterp spec fn cache_entries(map: DashMap<Address, Token>) -> Map<Seq<u8>, Token>;

/// `DashMap::new`: a map without entries.
#[verifier::external_body]
fn map_new() -> (map: DashMap<Address, Token>)
    ensures
        cache_entries(map) =~= Map::empty(),
{
    DashMap::new()
}

/// `DashMap::get`: a copy of the value stored under `key`, or `None` where
/// nothing is stored under it.
#[verifier::external_body]
fn map_get(map: &DashMap<Address, Token>, key: &Address) -> (found: Option<Token>)
    ensures
        found == (if cache_entries(*map).dom().contains(key@) {
            Some(cache_entries(*map)[key@])
        } else {
            None
        }),
{
    match map.get(key) {
        Some(entry) => Some(entry.value().clone()),
        None => None,
    }
}

/// `DashMap::insert`: afterwards `value` is stored under `key`, in place of
/// what was stored there before, and the other entries are as they were.
#[verifier::external_body]
fn map_insert(map: &mut DashMap<Address, Token>, key: Address, value: Token)
    ensures
        cache_entries(*final(map)) == cache_entries(*old(map)).insert(key@, value),
{
    map.insert(key, value);
}

/// What the three metadata reads of a token contract returned.
#[derive(Debug, Clone)]
pub struct TokenMetadata {
    pub name: String,
    pub symbol: String,
    pub decimals: u8,
}

/// `token` is the record of the token at `address` with the given metadata.
pub open spec fn is_token_of(token: Token, address: Seq<u8>, metadata: TokenMetadata) -> bool {
    &&& token.id@ == hex_text(address)
    &&& token.name == metadata.name
    &&& token.symbol == metadata.symbol
    &&& token.decimals@ == decimal_text(metadata.decimals as nat)
}

/// The record of the token at `address`: its id is the address in
/// hexadecimal, its decimals are written out.
pub fn make_token(address: &Address, metadata: TokenMetadata) -> (token: Token)
    ensures
        is_token_of(token, address@, metadata),
{
    Token {
        symbol: metadata.symbol,
        name: metadata.name,
        id: hex_string(address.as_slice()),
        decimals: decimal_string(metadata.decimals as u128),
    }
}

/// The tokens seen so far in a run, by address.
///
/// A cache is made for a run and handed to whoever fetches. Looking up takes
/// shared access and remembering exclusive access: tasks that fetch side by
/// side hold the cache behind a lock and take it for one call at a time.
pub struct TokenCache {
    map: DashMap<Address, Token>,
}

impl TokenCache {
    /// The cached tokens, by address.
    pub closed spec fn view(&self) -> Map<Seq<u8>, Token> {
        cache_entries(self.map)
    }

    /// Every cached token stands under the address that its id spells.
    pub open spec fn canonical(&self) -> bool {
        forall|address: Seq<u8>| #[trigger]
            self@.dom().contains(address) ==> self@[address].id@ == hex_text(address)
    }

    /// A cache that holds nothing yet.
    pub fn new() -> (cache: TokenCache)
        ensures
            cache@ =~= Map::empty(),
            cache.canonical(),
    {
        TokenCache { map: map_new() }
    }

    /// The token cached for `address`, if there is one. A hit needs no read of
    /// the token contract.
    pub fn lookup(&self, address: &Address) -> (found: Option<Token>)
        ensures
            found == (if self@.dom().contains(address@) {
                Some(self@[address@])
            } else {
                None
            }),
    {
        map_get(&self.map, address)
    }

    /// Takes in the metadata read for `address` after a miss: builds the
    /// token's record, caches it and hands it out. If two callers read the
    /// same address at once, the later record replaces the earlier, which holds
    /// the same.
    pub fn remember(&mut self, address: Address, metadata: TokenMetadata) -> (token: Token)
        ensures
            is_token_of(token, address@, metadata),
            final(self)@ == old(self)@.insert(address@, token),
            old(self).canonical() ==> final(self).canonical(),
    {
        let token = make_token(&address, metadata);
        let copy = Token {
            symbol: token.symbol.clone(),
            name: token.name.clone(),
            id: token.id.clone(),
            decimals: token.decimals.clone(),
        };
        let ghost before = self@;
        map_insert(&mut self.map, address, copy);
        proof {
            if old(self).canonical() {
                assert forall|other: Seq<u8>| #[trigger]
                    self@.dom().contains(other) implies self@[other].id@ == hex_text(other) by {
                    if other != address@ {
                        assert(before.dom().contains(other));
                    }
                }
            }
        }
        token
    }
}

} // verus!
