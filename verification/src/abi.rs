//! The wire format of the contract calls, as far as the fetcher needs it:
//! call data for the reads it issues, and the values in what comes back.
//! Hashing, encoding and decoding are alloy's.

use alloy::primitives::U256;
use alloy::sol_types::sol_data;
use alloy::sol_types::SolType;
use vstd::prelude::*;
use vstd::utf8::encode_utf8;

use crate::text::be_value;

verus! {

/// An account or contract address: twenty bytes.
pub type Address = [u8; 20];

/// One read of a contract: where it goes and what is sent.
#[derive(Debug, Clone)]
pub struct Call {
    pub target: Address,
    pub call_data: Vec<u8>,
}

/// The Keccak-256 digest of a byte string.
pub uninterp spec fn keccak_digest(data: Seq<u8>) -> Seq<u8>;

/// `alloy::primitives::keccak256`: the Keccak-256 digest of `data`, which has
/// 32 bytes and depends on `data` alone.
#[verifier::external_body]
fn keccak256(data: &[u8]) -> (digest: [u8; 32])
    ensures
        digest@ == keccak_digest(data@),
{
    alloy::primitives::keccak256(data).0
}

/// `abi_encode` of alloy's `SolType` for `uint256`: one word of 32 bytes that
/// holds the value big-endian.
#[verifier::external_body]
fn encode_uint256(value: u64) -> (word: Vec<u8>)
    ensures
        word@.len() == 32,
        be_value(word@) == value,
{
    <sol_data::Uint<256> as SolType>::abi_encode(&U256::from(value))
}

/// `abi_decode_sequence` of alloy's `SolType` for the return tuple `(address)`:
/// it takes the first word of `data` and fails when `data` is shorter than a
/// word; the address is the word's last twenty bytes, whatever the first
/// twelve hold.
#[verifier::external_body]
pub(crate) fn decode_address_return(data: &[u8]) -> (decoded: Option<Address>)
    ensures
        match decoded {
            Some(address) => address_return(data@) == Some(address@),
            None => address_return(data@) is None,
        },
{
    match <(sol_data::Address,) as SolType>::abi_decode_sequence(data) {
        Ok(values) => Some(values.0.into_array()),
        Err(_) => None,
    }
}

/// `abi_decode_sequence` of alloy's `SolType` for the return tuple
/// `(uint112, uint112, uint32)`: it takes the first three words of `data` and
/// fails when `data` is shorter than that; each `uint112` is the big-endian
/// value of its word's last fourteen bytes and the `uint32` that of its
/// word's last four, whatever the bytes before them hold.
#[verifier::external_body]
pub(crate) fn decode_reserves_return(data: &[u8]) -> (decoded: Option<(u128, u128, u32)>)
    ensures
        match decoded {
            Some(values) => reserves_return(data@) == Some(
                (values.0 as nat, values.1 as nat, values.2 as nat),
            ),
            None => reserves_return(data@) is None,
        },
{
    match <(sol_data::Uint<112>, sol_data::Uint<112>, sol_data::Uint<32>) as SolType>::abi_decode_sequence(data) {
        Ok(values) => Some((values.0.to::<u128>(), values.1.to::<u128>(), values.2)),
        Err(_) => None,
    }
}

/// The address in the return data of a read that returns one address.
pub open spec fn address_return(data: Seq<u8>) -> Option<Seq<u8>> {
    if data.len() >= 32 {
        Some(data.subrange(12, 32))
    } else {
        None
    }
}

/// The values in the return data of a read of a pool's reserves: the two
/// reserves and the time of the block in which they last changed.
pub open spec fn reserves_return(data: Seq<u8>) -> Option<(nat, nat, nat)> {
    if data.len() >= 96 {
        Some(
            (
                be_value(data.subrange(18, 32)),
                be_value(data.subrange(50, 64)),
                be_value(data.subrange(92, 96)),
            ),
        )
    } else {
        None
    }
}

/// The four bytes that select a function: the head of the digest of its
/// signature.
pub open spec fn selector_of(signature: Seq<char>) -> Seq<u8> {
    keccak_digest(encode_utf8(signature)).subrange(0, 4)
}

/// The call data of `allPairs(index)`: the selector and the index as a word.
pub open spec fn is_all_pairs_data(data: Seq<u8>, index: nat) -> bool {
    &&& data.len() == 36
    &&& data.subrange(0, 4) == selector_of("allPairs(uint256)"@)
    &&& be_value(data.subrange(4, 36)) == index
}

/// The selector of the function with the given signature.
pub fn selector(signature: &str) -> (head: [u8; 4])
    ensures
        head@ == selector_of(signature@),
{
    let digest = keccak256(signature.as_bytes());
    [digest[0], digest[1], digest[2], digest[3]]
}

/// A read that takes no arguments: its call data is the selector alone.
pub fn read_call(target: Address, signature: &str) -> (call: Call)
    ensures
        call.target == target,
        call.call_data@ == selector_of(signature@),
{
    let head = selector(signature);
    let mut call_data: Vec<u8> = Vec::new();
    call_data.push(head[0]);
    call_data.push(head[1]);
    call_data.push(head[2]);
    call_data.push(head[3]);
    Call { target, call_data }
}

/// The read of the factory's pair at `index`.
pub fn all_pairs_call(factory: Address, index: u64) -> (call: Call)
    ensures
        call.target == factory,
        is_all_pairs_data(call.call_data@, index as nat),
{
    let head = selector("allPairs(uint256)");
    let mut word = encode_uint256(index);
    let mut call_data: Vec<u8> = Vec::new();
    call_data.push(head[0]);
    call_data.push(head[1]);
    call_data.push(head[2]);
    call_data.push(head[3]);
    let ghost arg = word@;
    call_data.append(&mut word);
    assert(call_data@.subrange(0, 4) =~= head@);
    assert(call_data@.subrange(4, 36) =~= arg);
    Call { target: factory, call_data }
}

} // verus!
