//! Byte-level helpers: comparison of byte strings and the 32-byte word
//! encoding that the execution chain's contracts use for hash preimages
//! (each unsigned integer as 32 big-endian base-256 digits).

use vstd::prelude::*;
use vstd::arithmetic::power::pow;

verus! {

/// The `n` big-endian base-256 digits of `v` (most significant first,
/// truncated to the low `n` digits).
pub open spec fn be_bytes(v: nat, n: nat) -> Seq<u8>
    decreases n,
{
    if n == 0 {
        Seq::empty()
    } else {
        be_bytes(v / 256, (n - 1) as nat).push((v % 256) as u8)
    }
}

/// A 32-byte contract-ABI word holding an unsigned integer.
pub open spec fn abi_word(v: u128) -> Seq<u8> {
    be_bytes(v as nat, 32)
}

/// The numeric value of big-endian base-256 digits.
pub open spec fn be_value(s: Seq<u8>) -> nat
    decreases s.len(),
{
    if s.len() == 0 {
        0
    } else {
        (be_value(s.drop_last()) * 256 + s.last()) as nat
    }
}

/// An ABI word is decodable when it carries a value that fits in 128 bits,
/// that is, when its high 16 bytes are zero.
pub open spec fn decoded_abi_word(s: Seq<u8>) -> Option<u128> {
    if s.len() == 32 && (forall|i: int| 0 <= i < 16 ==> s[i] == 0) {
        Some(be_value(s.skip(16)) as u128)
    } else {
        None
    }
}

/// Whether two byte strings hold the same bytes.
pub fn bytes_eq(a: &Vec<u8>, b: &Vec<u8>) -> (r: bool)
    ensures
        r == (a@ == b@),
{
    let r = a == b;
    proof {
        if a@.len() == b@.len() && (forall|i: int| #![auto] 0 <= i < a@.len() ==> a@[i] == b@[i]) {
            assert(a@ =~= b@);
        }
    }
    r
}

fn be_bytes_exec(v: u128, n: usize) -> (r: Vec<u8>)
    ensures
        r@ == be_bytes(v as nat, n as nat),
    decreases n,
{
    if n == 0 {
        Vec::new()
    } else {
        let mut r = be_bytes_exec(v / 256, n - 1);
        r.push((v % 256) as u8);
        r
    }
}

/// Encodes an unsigned integer as one 32-byte contract-ABI word.
pub fn encode_abi_word(v: u128) -> (r: Vec<u8>)
    ensures
        r@ == abi_word(v),
        r@.len() == 32,
{
    proof {
        lemma_be_bytes_len(v as nat, 32);
    }
    be_bytes_exec(v, 32)
}

proof fn lemma_be_bytes_len(v: nat, n: nat)
    ensures
        be_bytes(v, n).len() == n,
    decreases n,
{
    if n > 0 {
        lemma_be_bytes_len(v / 256, (n - 1) as nat);
    }
}

/// Reads an unsigned integer back out of one 32-byte contract-ABI word;
/// `None` when the word is not 32 bytes or its value needs more than
/// 128 bits.
pub fn decode_abi_word(b: &Vec<u8>) -> (r: Option<u128>)
    ensures
        r == decoded_abi_word(b@),
{
    if b.len() != 32 {
        return None;
    }
    let mut i: usize = 0;
    while i < 16
        invariant
            i <= 16,
            b@.len() == 32,
            forall|j: int| 0 <= j < i ==> b@[j] == 0,
        decreases 16 - i,
    {
        if b[i] != 0 {
            return None;
        }
        i = i + 1;
    }
    proof {
        vstd::arithmetic::power::lemma_pow0(256);
        assert(b@.subrange(16, 16) =~= Seq::<u8>::empty());
    }
    let mut acc: u128 = 0;
    let mut k: usize = 16;
    while k < 32
        invariant
            16 <= k <= 32,
            b@.len() == 32,
            acc as nat == be_value(b@.subrange(16, k as int)),
            (acc as nat) < pow(256, (k - 16) as nat),
        decreases 32 - k,
    {
        proof {
            let p: int = pow(256, (k - 16) as nat);
            assert(pow(256, (k - 16 + 1) as nat) == p * 256) by {
                vstd::arithmetic::power::lemma_pow1(256);
                vstd::arithmetic::power::lemma_pow_adds(256, (k - 16) as nat, 1);
            }
            assert((acc as nat) * 256 + 255 < p * 256) by (nonlinear_arith)
                requires
                    (acc as nat) < p,
            ;
            assert(pow(256, (k - 16 + 1) as nat) <= pow(256, 16)) by {
                vstd::arithmetic::power::lemma_pow_increases(256, (k - 16 + 1) as nat, 16);
            }
            assert(pow(256, 16) == 0x100000000000000000000000000000000) by {
                reveal_with_fuel(pow, 17);
            }
            let next = b@.subrange(16, k + 1 as int);
            assert(next.drop_last() =~= b@.subrange(16, k as int));
            assert(next.last() == b@[k as int]);
        }
        acc = acc * 256 + b[k] as u128;
        k = k + 1;
    }
    proof {
        assert(b@.subrange(16, 32) =~= b@.skip(16));
    }
    Some(acc)
}

/// Copies a byte string.
pub fn clone_bytes(b: &Vec<u8>) -> (r: Vec<u8>)
    ensures
        r@ == b@,
{
    let mut r: Vec<u8> = Vec::new();
    let mut i: usize = 0;
    while i < b.len()
        invariant
            i <= b@.len(),
            r@ == b@.subrange(0, i as int),
        decreases b@.len() - i,
    {
        r.push(b[i]);
        proof {
            assert(r@ =~= b@.subrange(0, i + 1 as int));
        }
        i = i + 1;
    }
    proof {
        assert(b@.subrange(0, b@.len() as int) =~= b@);
    }
    r
}

} // verus!
