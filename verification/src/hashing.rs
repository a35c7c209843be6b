//! Content hashing for the protocol's identifiers. A query is identified by
//! the Keccak-256 digest of its `query_data`; a dispute by the digest of the
//! consumer chain's id, the query id and the disputed report's timestamp; a
//! data feed by the digest of its parameters. The digest itself comes from
//! an outside implementation and is only named here.

use vstd::prelude::*;
use sha3::Digest;
use crate::codec::abi_word;
use crate::codec::clone_bytes;
use crate::codec::encode_abi_word;

verus! {

/// The Keccak-256 digest of a byte sequence.
pub uninterp spec fn keccak256_of(data: Seq<u8>) -> Seq<u8>;

/// Relies on sha3::Keccak256: the 32-byte Keccak-256 digest, a function of
/// the input bytes alone.
#[verifier::external_body]
pub(crate) fn keccak256(data: &Vec<u8>) -> (r: Vec<u8>)
    ensures
        r@ == keccak256_of(data@),
        r@.len() == 32,
{
    sha3::Keccak256::digest(data.as_slice()).to_vec()
}

/// The preimage hashed into a dispute id: the consumer chain's id, the
/// query id and the disputed report's timestamp, integers as ABI words.
pub open spec fn dispute_id_preimage(para_id: u32, query_id: Seq<u8>, timestamp: u64) -> Seq<u8> {
    abi_word(para_id as u128) + query_id + abi_word(timestamp as u64 as u128)
}

/// The identifier of the dispute that chain `para_id` opens against the
/// report at `(query_id, timestamp)`.
pub open spec fn spec_dispute_id(para_id: u32, query_id: Seq<u8>, timestamp: u64) -> Seq<u8> {
    keccak256_of(dispute_id_preimage(para_id, query_id, timestamp))
}

/// Computes a dispute id: the digest of the chain id, the query id and the
/// report timestamp.
pub fn dispute_id(para_id: u32, query_id: &Vec<u8>, timestamp: u64) -> (r: Vec<u8>)
    requires
        query_id@.len() == 32,
    ensures
        r@ == spec_dispute_id(para_id, query_id@, timestamp),
        r@.len() == 32,
{
    let mut preimage = encode_abi_word(para_id as u128);
    let mut qid = clone_bytes(query_id);
    preimage.append(&mut qid);
    let mut ts = encode_abi_word(timestamp as u128);
    preimage.append(&mut ts);
    proof {
        assert(preimage@ =~= dispute_id_preimage(para_id, query_id@, timestamp));
    }
    keccak256(&preimage)
}

/// The preimage hashed into a feed id: the query id, then the feed's six
/// numeric parameters, integers as ABI words.
pub open spec fn feed_id_preimage(
    query_id: Seq<u8>,
    reward: u128,
    start_time: u64,
    interval: u64,
    window: u64,
    price_threshold: u16,
    reward_increase_per_second: u128,
) -> Seq<u8> {
    query_id + abi_word(reward) + abi_word(start_time as u128) + abi_word(interval as u128)
        + abi_word(window as u128) + abi_word(price_threshold as u128) + abi_word(
        reward_increase_per_second,
    )
}

/// Computes the identifier of a recurring data feed from its parameters.
pub fn feed_id(
    query_id: &Vec<u8>,
    reward: u128,
    start_time: u64,
    interval: u64,
    window: u64,
    price_threshold: u16,
    reward_increase_per_second: u128,
) -> (r: Vec<u8>)
    requires
        query_id@.len() == 32,
    ensures
        r@ == keccak256_of(
            feed_id_preimage(
                query_id@,
                reward,
                start_time,
                interval,
                window,
                price_threshold,
                reward_increase_per_second,
            ),
        ),
        r@.len() == 32,
{
    let mut preimage = clone_bytes(query_id);
    let mut w = encode_abi_word(reward);
    preimage.append(&mut w);
    let mut w = encode_abi_word(start_time as u128);
    preimage.append(&mut w);
    let mut w = encode_abi_word(interval as u128);
    preimage.append(&mut w);
    let mut w = encode_abi_word(window as u128);
    preimage.append(&mut w);
    let mut w = encode_abi_word(price_threshold as u128);
    preimage.append(&mut w);
    let mut w = encode_abi_word(reward_increase_per_second);
    preimage.append(&mut w);
    proof {
        assert(preimage@ =~= feed_id_preimage(
            query_id@,
            reward,
            start_time,
            interval,
            window,
            price_threshold,
            reward_increase_per_second,
        ));
    }
    keccak256(&preimage)
}

} // verus!
