//! The hash that names events and stands for indexed dynamic values, and
//! digests written in hexadecimal.

use vstd::prelude::*;

verus! {

/// The Keccak-256 digest of a byte string.
pub uninterp spec fn keccak256(bytes: Seq<u8>) -> Seq<u8>;

pub open spec fn hex_digit(d: int) -> char {
    if d == 0 {
        '0'
    } else if d == 1 {
        '1'
    } else if d == 2 {
        '2'
    } else if d == 3 {
        '3'
    } else if d == 4 {
        '4'
    } else if d == 5 {
        '5'
    } else if d == 6 {
        '6'
    } else if d == 7 {
        '7'
    } else if d == 8 {
        '8'
    } else if d == 9 {
        '9'
    } else if d == 10 {
        'a'
    } else if d == 11 {
        'b'
    } else if d == 12 {
        'c'
    } else if d == 13 {
        'd'
    } else if d == 14 {
        'e'
    } else {
        'f'
    }
}

/// The bytes in hexadecimal behind `0x`: two lower-case digits for each
/// byte, the high one first.
pub open spec fn hex_prefixed(bytes: Seq<u8>) -> Seq<char> {
    seq!['0', 'x'] + Seq::new(
        2 * bytes.len(),
        |i: int|
            if i % 2 == 0 {
                hex_digit(bytes[i / 2] as int / 16)
            } else {
                hex_digit(bytes[i / 2] as int % 16)
            },
    )
}

/// The Keccak-256 digest of `bytes`.
///
/// Runs tiny-keccak's `Keccak::v256` hasher over the bytes once, with
/// `update` and `finalize`. Nothing is proved of the digest: the contract
/// only gives it its name.
#[verifier::external_body]
pub(crate) fn keccak(bytes: &[u8]) -> (digest: [u8; 32])
    ensures
        digest@ == keccak256(bytes@),
{
    let mut hasher = tiny_keccak::Keccak::v256();
    tiny_keccak::Hasher::update(&mut hasher, bytes);
    let mut digest = [0u8; 32];
    tiny_keccak::Hasher::finalize(hasher, &mut digest);
    digest
}

/// The bytes in hexadecimal behind `0x`.
///
/// Calls const-hex's `encode_prefixed`, which writes `0x` and then, for
/// each byte, its high and its low digit from `0123456789abcdef`.
#[verifier::external_body]
pub(crate) fn to_hex_prefixed(bytes: &[u8]) -> (text: String)
    ensures
        text@ == hex_prefixed(bytes@),
{
    const_hex::encode_prefixed(bytes)
}

} // verus!
