//! 32-byte words: big-endian numbers, zero padding and the arithmetic of
//! lengths rounded up to whole words.

use vstd::prelude::*;

verus! {

/// The number of bytes in a word.
pub const WORD: usize = 32;

/// The number that a byte string spells, most significant byte first.
pub open spec fn be_value(bytes: Seq<u8>) -> nat
    decreases bytes.len(),
{
    if bytes.len() == 0 {
        0
    } else {
        be_value(bytes.drop_last()) * 256 + bytes.last() as nat
    }
}

/// The last `len` base-256 digits of `n`, most significant first.
pub open spec fn be_bytes(n: nat, len: nat) -> Seq<u8>
    decreases len,
{
    if len == 0 {
        Seq::empty()
    } else {
        be_bytes(n / 256, (len - 1) as nat).push((n % 256) as u8)
    }
}

/// The word that holds `n` as a big-endian number.
pub open spec fn word_of(n: nat) -> Seq<u8> {
    be_bytes(n, 32)
}

/// 256 to the power `k`.
pub open spec fn pow256(k: nat) -> nat
    decreases k,
{
    if k == 0 {
        1
    } else {
        256 * pow256((k - 1) as nat)
    }
}

/// The first number that no word can hold: 2 to the power 256.
pub open spec fn word_limit() -> nat {
    pow256(32)
}

/// `k` zero bytes.
pub open spec fn zeros(k: nat) -> Seq<u8> {
    Seq::new(k, |i: int| 0u8)
}

/// `len` rounded up to a whole number of words.
pub open spec fn padded_len(len: nat) -> nat {
    ((len + 31) / 32 * 32) as nat
}

/// `content` followed by the zero bytes that fill its last word.
pub open spec fn pad_right(content: Seq<u8>) -> Seq<u8> {
    content + zeros((padded_len(content.len()) - content.len()) as nat)
}

pub proof fn lemma_be_bytes_len(n: nat, len: nat)
    ensures
        be_bytes(n, len).len() == len,
    decreases len,
{
    if len > 0 {
        lemma_be_bytes_len(n / 256, (len - 1) as nat);
    }
}

/// A number below 256 to the power `len` is read back from its `len` digits.
pub proof fn lemma_be_value_of_be_bytes(n: nat, len: nat)
    requires
        n < pow256(len),
    ensures
        be_value(be_bytes(n, len)) == n,
    decreases len,
{
    if len > 0 {
        let rest = be_bytes(n / 256, (len - 1) as nat);
        lemma_be_value_of_be_bytes(n / 256, (len - 1) as nat);
        assert(be_bytes(n, len).drop_last() =~= rest);
    }
}

/// The digits of zero are zeros.
pub proof fn lemma_be_bytes_zero(len: nat)
    ensures
        be_bytes(0, len) == zeros(len),
    decreases len,
{
    if len > 0 {
        lemma_be_bytes_zero((len - 1) as nat);
        lemma_be_bytes_len(0, (len - 1) as nat);
    }
    lemma_be_bytes_len(0, len);
    assert(be_bytes(0, len) =~= zeros(len));
}

/// A byte string spells no less than any of its prefixes.
pub proof fn lemma_be_value_prefix(bytes: Seq<u8>, k: int)
    requires
        0 <= k <= bytes.len(),
    ensures
        be_value(bytes.subrange(0, k)) <= be_value(bytes),
    decreases bytes.len(),
{
    if k == bytes.len() {
        assert(bytes.subrange(0, k) =~= bytes);
    } else {
        lemma_be_value_prefix(bytes.drop_last(), k);
        assert(bytes.drop_last().subrange(0, k) =~= bytes.subrange(0, k));
    }
}

/// Every 64-bit number fits a word.
pub proof fn lemma_u64_below_word_limit()
    ensures
        0x1_0000_0000_0000_0000 <= word_limit(),
{
    reveal_with_fuel(pow256, 9);
    assert(pow256(8) == 0x1_0000_0000_0000_0000);
    lemma_pow256_grows(8, 32);
}

pub proof fn lemma_pow256_grows(a: nat, b: nat)
    requires
        a <= b,
    ensures
        1 <= pow256(a) <= pow256(b),
    decreases b,
{
    if b == 0 {
    } else if a == b {
        lemma_pow256_grows((a - 1) as nat, (b - 1) as nat);
    } else {
        lemma_pow256_grows(a, (b - 1) as nat);
    }
}

/// The word that holds `n`.
pub fn word_from_u64(n: u64) -> (w: [u8; 32])
    ensures
        w@ == word_of(n as nat),
{
    let mut w: [u8; 32] = [0u8; 32];
    let mut rest: u64 = n;
    let mut k: usize = 0;
    while k < 32
        invariant
            k <= 32,
            word_of(n as nat) == be_bytes(rest as nat, (32 - k) as nat) + w@.subrange(32 - k, 32),
        decreases 32 - k,
    {
        let ghost before = w@;
        w[31 - k] = (rest % 256) as u8;
        proof {
            let digits = be_bytes(rest as nat / 256, (31 - k) as nat);
            lemma_be_bytes_len(rest as nat / 256, (31 - k) as nat);
            assert(w@.subrange(31 - k, 32) =~= seq![(rest % 256) as u8] + before.subrange(
                32 - k,
                32,
            ));
            assert(digits.push((rest % 256) as u8) + before.subrange(32 - k, 32) =~= digits
                + w@.subrange(31 - k, 32));
        }
        rest = rest / 256;
        k += 1;
    }
    proof {
        assert(be_bytes(rest as nat, 0) + w@.subrange(0, 32) =~= w@);
    }
    w
}

/// The word with those 32 bytes.
pub fn word_from_slice(bytes: &[u8]) -> (w: [u8; 32])
    requires
        bytes@.len() == 32,
    ensures
        w@ == bytes@,
{
    let mut w: [u8; 32] = [0u8; 32];
    let mut i: usize = 0;
    while i < 32
        invariant
            i <= 32,
            bytes@.len() == 32,
            forall|j: int| 0 <= j < i ==> w@[j] == bytes@[j],
        decreases 32 - i,
    {
        w[i] = bytes[i];
        i += 1;
    }
    assert(w@ =~= bytes@);
    w
}

/// The number that a word holds, if it is a 64-bit one.
pub fn word_to_u64(bytes: &[u8]) -> (r: Option<u64>)
    requires
        bytes@.len() == 32,
    ensures
        r is Some <==> be_value(bytes@) <= u64::MAX,
        r matches Some(n) ==> n == be_value(bytes@),
{
    let mut acc: u64 = 0;
    let mut i: usize = 0;
    while i < 32
        invariant
            i <= 32,
            bytes@.len() == 32,
            acc == be_value(bytes@.subrange(0, i as int)),
        decreases 32 - i,
    {
        let b: u8 = bytes[i];
        proof {
            let next = bytes@.subrange(0, i + 1);
            assert(next.drop_last() =~= bytes@.subrange(0, i as int));
            assert(next.last() == b);
            lemma_be_value_prefix(bytes@, i + 1);
        }
        if acc > (u64::MAX - b as u64) / 256 {
            return None;
        }
        acc = acc * 256 + b as u64;
        i += 1;
    }
    proof {
        assert(bytes@.subrange(0, 32) =~= bytes@);
    }
    Some(acc)
}

/// Appends `k` zero bytes.
pub fn push_zeros(out: &mut Vec<u8>, k: usize)
    ensures
        final(out)@ == old(out)@ + zeros(k as nat),
{
    let mut i: usize = 0;
    while i < k
        invariant
            i <= k,
            out@ == old(out)@ + zeros(i as nat),
        decreases k - i,
    {
        out.push(0u8);
        i += 1;
        assert(out@ =~= old(out)@ + zeros(i as nat));
    }
    assert(old(out)@ + zeros(0) =~= old(out)@);
}

/// Appends a copy of `bytes`.
pub fn push_bytes(out: &mut Vec<u8>, bytes: &[u8])
    ensures
        final(out)@ == old(out)@ + bytes@,
{
    let mut i: usize = 0;
    while i < bytes.len()
        invariant
            i <= bytes@.len(),
            out@ == old(out)@ + bytes@.subrange(0, i as int),
        decreases bytes@.len() - i,
    {
        out.push(bytes[i]);
        i += 1;
        assert(out@ =~= old(out)@ + bytes@.subrange(0, i as int));
    }
    assert(bytes@.subrange(0, bytes@.len() as int) =~= bytes@);
    assert(old(out)@ + bytes@.subrange(0, 0) =~= old(out)@);
}

} // verus!
