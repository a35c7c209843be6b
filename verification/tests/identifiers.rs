//! The protocol's identifiers and word encoding, held against an
//! independent contract-ABI implementation: query ids, dispute ids and
//! feed ids are digests of exactly the bytes the contracts hash, and the
//! same inputs always give the same identifier.

use sha3::Digest;
use tellor_protocol::codec::{bytes_eq, decode_abi_word, encode_abi_word};
use tellor_protocol::hashing::{dispute_id, feed_id};

fn keccak(data: &[u8]) -> Vec<u8> {
    sha3::Keccak256::digest(data).to_vec()
}

#[test]
fn abi_words_match_the_contract_encoding() {
    for v in [0u128, 1, 255, 256, 4_390_000_000_000_000_000, u128::MAX] {
        let word = encode_abi_word(v);
        let expected = ethabi::encode(&[ethabi::Token::Uint(v.into())]);
        assert_eq!(word, expected);
    }
}

#[test]
fn abi_words_decode_back_to_their_value() {
    for v in [0u128, 1, 255, 256, 4_390_000_000_000_000_000, u128::MAX] {
        assert_eq!(decode_abi_word(&encode_abi_word(v)), Some(v));
    }
    // not one word
    assert_eq!(decode_abi_word(&vec![1, 2, 3]), None);
    // a value beyond 128 bits
    let too_big = ethabi::encode(&[ethabi::Token::Uint(ethabi::ethereum_types::U256::MAX)]);
    assert_eq!(decode_abi_word(&too_big), None);
}

#[test]
fn dispute_ids_match_the_contract_hashing() {
    let query_id = keccak(b"hello tellor");
    let timestamp: u64 = 1_700_000_000;
    let expected = keccak(&ethabi::encode(&[
        ethabi::Token::Uint(3_000u32.into()),
        ethabi::Token::FixedBytes(query_id.clone()),
        ethabi::Token::Uint(timestamp.into()),
    ]));
    assert_eq!(dispute_id(3_000, &query_id, timestamp), expected);
}

#[test]
fn query_ids_are_deterministic() {
    // the same query data always yield the same id; different data a
    // different one
    let query_id = keccak(b"hello tellor");
    assert_eq!(
        dispute_id(3_000, &query_id, 7),
        dispute_id(3_000, &query_id, 7)
    );
    assert_ne!(dispute_id(3_000, &query_id, 7), dispute_id(3_000, &query_id, 8));
    assert_ne!(
        dispute_id(2_000, &query_id, 7),
        dispute_id(3_000, &query_id, 7)
    );
    assert_eq!(keccak(b"hello tellor"), keccak(b"hello tellor"));
    assert_ne!(keccak(b"hello tellor"), keccak(b"hello tellor!"));
}

#[test]
fn feed_ids_match_the_contract_hashing() {
    let query_id = keccak(b"DOT/USD");
    let reward: u128 = 10;
    let start_time: u64 = 1_700_000_000;
    let interval: u64 = 3_600;
    let window: u64 = 600;
    let price_threshold: u16 = 50;
    let reward_increase_per_second: u128 = 0;
    let expected = keccak(&ethabi::encode(&[
        ethabi::Token::FixedBytes(query_id.clone()),
        ethabi::Token::Uint(reward.into()),
        ethabi::Token::Uint(start_time.into()),
        ethabi::Token::Uint(interval.into()),
        ethabi::Token::Uint(window.into()),
        ethabi::Token::Uint(price_threshold.into()),
        ethabi::Token::Uint(reward_increase_per_second.into()),
    ]));
    assert_eq!(
        feed_id(
            &query_id,
            reward,
            start_time,
            interval,
            window,
            price_threshold,
            reward_increase_per_second,
        ),
        expected
    );
}

#[test]
fn byte_string_comparison_is_exact() {
    assert!(bytes_eq(&vec![], &vec![]));
    assert!(bytes_eq(&vec![1, 2, 3], &vec![1, 2, 3]));
    assert!(!bytes_eq(&vec![1, 2, 3], &vec![1, 2, 4]));
    assert!(!bytes_eq(&vec![1, 2, 3], &vec![1, 2]));
}
