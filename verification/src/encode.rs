//! Encoding of values: one word for a value of an elementary type, and
//! the head and tail layout for the members of a tuple or an array.

use crate::value::{vals_of, AbiValue, Val};
use crate::word::{
    lemma_be_bytes_len, pad_right, push_bytes, push_zeros, word_from_u64, word_of, zeros,
};
use vstd::prelude::*;
use vstd::utf8::encode_utf8;

verus! {

/// Whether the length of the value's encoding depends on the value: so it
/// is for strings, byte strings, arrays, and tuples with such a member.
pub open spec fn val_dynamic(v: Val) -> bool
    decreases v, 0nat,
{
    match v {
        Val::Bytes(_) | Val::Str(_) | Val::Array(_) => true,
        Val::Tuple(members) => vals_dynamic(members, members.len()),
        _ => false,
    }
}

/// Whether one of the first `k` values of the list is dynamic.
pub open spec fn vals_dynamic(vs: Seq<Val>, k: nat) -> bool
    decreases vs, k,
{
    if k == 0 || k > vs.len() {
        false
    } else {
        vals_dynamic(vs, (k - 1) as nat) || val_dynamic(vs[k - 1])
    }
}

/// The encoding of a value.
///
/// A value of an elementary type is one word: a boolean is the number 0 or
/// 1, an integer its word, an address stands at the right end of the word
/// and a fixed byte string at the left end. A byte string or a string is
/// the word of its length, then its bytes, filled up with zeros to whole
/// words. An array is the word of its length, then its members laid out as
/// those of a tuple.
pub open spec fn enc(v: Val) -> Seq<u8>
    decreases v, 0nat,
{
    match v {
        Val::Bool(b) => word_of(
            if b {
                1
            } else {
                0
            },
        ),
        Val::Uint(w) => w,
        Val::Int(w) => w,
        Val::Address(a) => zeros(12) + a,
        Val::FixedBytes(b) => pad_right(b),
        Val::Bytes(b) => word_of(b.len()) + pad_right(b),
        Val::Str(s) => word_of(encode_utf8(s).len()) + pad_right(encode_utf8(s)),
        Val::Array(members) => word_of(members.len()) + enc_seq(members),
        Val::Tuple(members) => enc_seq(members),
    }
}

/// The encoding of the members of a tuple: the head, which holds each
/// member that is not dynamic and, for each dynamic one, the word of the
/// offset at which it starts, counted from the start of the head; then the
/// tail, which holds the dynamic members.
pub open spec fn enc_seq(vs: Seq<Val>) -> Seq<u8>
    decreases vs, vs.len() + 1,
{
    heads(vs, heads_len(vs, vs.len()), vs.len()) + tails(vs, vs.len())
}

/// The length of the heads of the first `k` members.
pub open spec fn heads_len(vs: Seq<Val>, k: nat) -> nat
    decreases vs, k,
{
    if k == 0 || k > vs.len() {
        0
    } else {
        heads_len(vs, (k - 1) as nat) + if val_dynamic(vs[k - 1]) {
            32
        } else {
            enc(vs[k - 1]).len()
        }
    }
}

/// The heads of the first `k` members, in a tuple whose whole head has the
/// length `head`.
pub open spec fn heads(vs: Seq<Val>, head: nat, k: nat) -> Seq<u8>
    decreases vs, k,
{
    if k == 0 || k > vs.len() {
        Seq::empty()
    } else {
        heads(vs, head, (k - 1) as nat) + if val_dynamic(vs[k - 1]) {
            word_of(head + tails(vs, (k - 1) as nat).len())
        } else {
            enc(vs[k - 1])
        }
    }
}

/// The tails of the first `k` members.
pub open spec fn tails(vs: Seq<Val>, k: nat) -> Seq<u8>
    decreases vs, k,
{
    if k == 0 || k > vs.len() {
        Seq::empty()
    } else {
        tails(vs, (k - 1) as nat) + if val_dynamic(vs[k - 1]) {
            enc(vs[k - 1])
        } else {
            Seq::empty()
        }
    }
}

/// The heads of the first `k` members while the tails are being written:
/// the offsets of the dynamic members before member `done` are in place,
/// those of the others are still zero.
pub open spec fn heads_partial(vs: Seq<Val>, head: nat, done: nat, k: nat) -> Seq<u8>
    decreases k,
{
    if k == 0 || k > vs.len() {
        Seq::empty()
    } else {
        heads_partial(vs, head, done, (k - 1) as nat) + if val_dynamic(vs[k - 1]) {
            if k - 1 < done {
                word_of(head + tails(vs, (k - 1) as nat).len())
            } else {
                zeros(32)
            }
        } else {
            enc(vs[k - 1])
        }
    }
}

/// `s` with the 32 bytes from `at` on replaced by `w`.
pub open spec fn with_word(s: Seq<u8>, at: int, w: Seq<u8>) -> Seq<u8> {
    s.subrange(0, at) + w + s.subrange(at + 32, s.len() as int)
}

pub proof fn lemma_word_of_len(n: nat)
    ensures
        word_of(n).len() == 32,
{
    lemma_be_bytes_len(n, 32);
}

pub proof fn lemma_vals_dynamic(vs: Seq<Val>, k: nat)
    requires
        k <= vs.len(),
    ensures
        vals_dynamic(vs, k) <==> exists|i: int| 0 <= i < k && val_dynamic(#[trigger] vs[i]),
    decreases k,
{
    if k > 0 {
        lemma_vals_dynamic(vs, (k - 1) as nat);
        if val_dynamic(vs[k - 1]) {
        } else if vals_dynamic(vs, k) {
            let i = choose|i: int| 0 <= i < k - 1 && val_dynamic(#[trigger] vs[i]);
            assert(0 <= i < k && val_dynamic(vs[i]));
        }
    }
}

pub proof fn lemma_heads_len(vs: Seq<Val>, head: nat, k: nat)
    requires
        k <= vs.len(),
    ensures
        heads(vs, head, k).len() == heads_len(vs, k),
    decreases k,
{
    if k > 0 {
        lemma_heads_len(vs, head, (k - 1) as nat);
        lemma_word_of_len(head + tails(vs, (k - 1) as nat).len());
    }
}

pub proof fn lemma_heads_partial_len(vs: Seq<Val>, head: nat, done: nat, k: nat)
    requires
        k <= vs.len(),
    ensures
        heads_partial(vs, head, done, k).len() == heads_len(vs, k),
    decreases k,
{
    if k > 0 {
        lemma_heads_partial_len(vs, head, done, (k - 1) as nat);
        lemma_word_of_len(head + tails(vs, (k - 1) as nat).len());
    }
}

/// Once every offset is in place the heads are complete.
pub proof fn lemma_heads_partial_done(vs: Seq<Val>, head: nat, done: nat, k: nat)
    requires
        k <= vs.len(),
        k <= done,
    ensures
        heads_partial(vs, head, done, k) == heads(vs, head, k),
    decreases k,
{
    if k > 0 {
        lemma_heads_partial_done(vs, head, done, (k - 1) as nat);
    }
}

/// The heads do not change when a member that is not dynamic is passed.
pub proof fn lemma_heads_partial_skip(vs: Seq<Val>, head: nat, done: nat, k: nat)
    requires
        k <= vs.len(),
        done < vs.len(),
        !val_dynamic(vs[done as int]),
    ensures
        heads_partial(vs, head, done + 1, k) == heads_partial(vs, head, done, k),
    decreases k,
{
    if k > 0 {
        lemma_heads_partial_skip(vs, head, done, (k - 1) as nat);
    }
}

/// Writing the offset of the dynamic member `done` into its place in the
/// heads puts that member among those that are done.
pub proof fn lemma_heads_partial_step(vs: Seq<Val>, head: nat, done: nat, k: nat)
    requires
        k <= vs.len(),
        done < vs.len(),
        val_dynamic(vs[done as int]),
    ensures
        heads_partial(vs, head, done + 1, k) == if k <= done {
            heads_partial(vs, head, done, k)
        } else {
            with_word(
                heads_partial(vs, head, done, k),
                heads_len(vs, done) as int,
                word_of(head + tails(vs, done).len()),
            )
        },
    decreases k,
{
    if k > 0 {
        let before = heads_partial(vs, head, done, (k - 1) as nat);
        let offset = word_of(head + tails(vs, done).len());
        lemma_heads_partial_step(vs, head, done, (k - 1) as nat);
        lemma_heads_partial_len(vs, head, done, (k - 1) as nat);
        lemma_heads_partial_len(vs, head, done, k);
        lemma_word_of_len(head + tails(vs, done).len());
        if k - 1 == done {
            assert(heads_partial(vs, head, done + 1, k) =~= with_word(
                heads_partial(vs, head, done, k),
                heads_len(vs, done) as int,
                offset,
            ));
        } else if k - 1 > done {
            lemma_heads_len_grows(vs, done + 1, (k - 1) as nat);
            assert(heads_partial(vs, head, done + 1, k) =~= with_word(
                heads_partial(vs, head, done, k),
                heads_len(vs, done) as int,
                offset,
            ));
        }
    }
}

pub proof fn lemma_heads_len_grows(vs: Seq<Val>, a: nat, b: nat)
    requires
        a <= b <= vs.len(),
    ensures
        heads_len(vs, a) <= heads_len(vs, b),
    decreases b,
{
    if a < b {
        lemma_heads_len_grows(vs, a, (b - 1) as nat);
    }
}

/// Whether the length of the value's encoding depends on the value.
#[verifier::loop_isolation(false)]
pub fn value_is_dynamic(v: &AbiValue) -> (r: bool)
    ensures
        r == val_dynamic(v@),
    decreases v,
{
    match v {
        AbiValue::Bytes(_) | AbiValue::String(_) | AbiValue::Array(_) => true,
        AbiValue::Tuple(members) => {
            let mut i: usize = 0;
            while i < members.len()
                invariant
                    i <= members@.len(),
                    !vals_dynamic(vals_of(members@), i as nat),
                decreases members@.len() - i,
            {
                if value_is_dynamic(&members[i]) {
                    proof {
                        lemma_vals_dynamic(vals_of(members@), members@.len() as nat);
                        assert(val_dynamic(vals_of(members@)[i as int]));
                    }
                    return true;
                }
                i += 1;
            }
            false
        },
        _ => false,
    }
}

/// Replaces the 32 bytes from `at` on by the word `w`.
fn write_word_at(out: &mut Vec<u8>, at: usize, w: &[u8; 32])
    requires
        at + 32 <= old(out)@.len(),
    ensures
        final(out)@ == with_word(old(out)@, at as int, w@),
{
    let len: usize = out.len();
    let mut k: usize = 0;
    while k < 32
        invariant
            k <= 32,
            at + 32 <= len,
            out@.len() == len,
            len == old(out)@.len(),
            forall|i: int|
                0 <= i < out@.len() ==> #[trigger] out@[i] == if at <= i < at + k {
                    w@[i - at]
                } else {
                    old(out)@[i]
                },
        decreases 32 - k,
    {
        out[at + k] = w[k];
        k += 1;
    }
    assert(out@ =~= with_word(old(out)@, at as int, w@));
}

/// Appends `content` and the zeros that fill its last word.
fn push_padded(out: &mut Vec<u8>, content: &[u8])
    ensures
        final(out)@ == old(out)@ + pad_right(content@),
{
    let fill: usize = (32 - content.len() % 32) % 32;
    push_bytes(out, content);
    push_zeros(out, fill);
    assert(final(out)@ =~= old(out)@ + pad_right(content@));
}

/// Appends the word of a length and the padded content.
fn push_with_length(out: &mut Vec<u8>, content: &[u8])
    ensures
        final(out)@ == old(out)@ + (word_of(content@.len()) + pad_right(content@)),
{
    let w: [u8; 32] = word_from_u64(content.len() as u64);
    push_bytes(out, w.as_slice());
    push_padded(out, content);
    assert(final(out)@ =~= old(out)@ + (word_of(content@.len()) + pad_right(content@)));
}

/// Appends the encoding of `v`.
pub fn encode_into(v: &AbiValue, out: &mut Vec<u8>)
    ensures
        final(out)@ == old(out)@ + enc(v@),
    decreases v,
{
    match v {
        AbiValue::Bool(b) => {
            let w: [u8; 32] = word_from_u64(
                if *b {
                    1
                } else {
                    0
                },
            );
            push_bytes(out, w.as_slice());
        },
        AbiValue::Uint(w) => push_bytes(out, w.as_slice()),
        AbiValue::Int(w) => push_bytes(out, w.as_slice()),
        AbiValue::Address(a) => {
            push_zeros(out, 12);
            push_bytes(out, a.as_slice());
            assert(final(out)@ =~= old(out)@ + enc(v@));
        },
        AbiValue::FixedBytes(b) => push_padded(out, b.as_slice()),
        AbiValue::Bytes(b) => push_with_length(out, b.as_slice()),
        AbiValue::String(s) => push_with_length(out, s.as_str().as_bytes()),
        AbiValue::Array(members) => {
            let w: [u8; 32] = word_from_u64(members.len() as u64);
            push_bytes(out, w.as_slice());
            encode_seq_into(members, out);
            assert(final(out)@ =~= old(out)@ + enc(v@));
        },
        AbiValue::Tuple(members) => encode_seq_into(members, out),
    }
}

/// Appends the encoding of the members of a tuple.
///
/// The head is written first, with a zero word in the place of each
/// offset; then each dynamic member is appended, and its offset, which is
/// known by then, is written into its place.
#[verifier::loop_isolation(false)]
pub fn encode_seq_into(vs: &Vec<AbiValue>, out: &mut Vec<u8>)
    ensures
        final(out)@ == old(out)@ + enc_seq(vals_of(vs@)),
    decreases vs,
{
    let ghost vals = vals_of(vs@);
    let ghost head = heads_len(vals, vals.len());
    let base: usize = out.len();
    let n: usize = vs.len();
    let mut places: Vec<usize> = Vec::new();
    let mut i: usize = 0;
    while i < n
        invariant
            i <= n,
            places@.len() == i,
            out@ == old(out)@ + heads_partial(vals, head, 0, i as nat),
            forall|m: int| 0 <= m < i ==> #[trigger] places@[m] == base + heads_len(vals, m as nat),
        decreases n - i,
    {
        proof {
            lemma_heads_partial_len(vals, head, 0, i as nat);
        }
        places.push(out.len());
        if value_is_dynamic(&vs[i]) {
            push_zeros(out, 32);
        } else {
            encode_into(&vs[i], out);
        }
        i += 1;
        assert(out@ =~= old(out)@ + heads_partial(vals, head, 0, i as nat));
    }
    proof {
        lemma_heads_partial_len(vals, head, 0, n as nat);
        assert(old(out)@ + heads_partial(vals, head, 0, n as nat) + tails(vals, 0) =~= old(out)@
            + heads_partial(vals, head, 0, n as nat));
    }
    let mut i: usize = 0;
    while i < n
        invariant
            i <= n,
            out@ == old(out)@ + heads_partial(vals, head, i as nat, n as nat) + tails(
                vals,
                i as nat,
            ),
        decreases n - i,
    {
        let ghost partial = heads_partial(vals, head, i as nat, n as nat);
        let ghost tail = tails(vals, i as nat);
        proof {
            lemma_heads_partial_len(vals, head, i as nat, n as nat);
            lemma_heads_len_grows(vals, (i + 1) as nat, n as nat);
        }
        if value_is_dynamic(&vs[i]) {
            let offset: usize = out.len() - base;
            let w: [u8; 32] = word_from_u64(offset as u64);
            write_word_at(out, places[i], &w);
            proof {
                lemma_heads_partial_step(vals, head, i as nat, n as nat);
                assert(out@ =~= old(out)@ + heads_partial(vals, head, (i + 1) as nat, n as nat)
                    + tail);
            }
            encode_into(&vs[i], out);
        } else {
            proof {
                lemma_heads_partial_skip(vals, head, i as nat, n as nat);
            }
        }
        i += 1;
        assert(out@ =~= old(out)@ + heads_partial(vals, head, i as nat, n as nat) + tails(
            vals,
            i as nat,
        ));
    }
    proof {
        lemma_heads_partial_done(vals, head, n as nat, n as nat);
        assert(final(out)@ =~= old(out)@ + enc_seq(vals));
    }
}

/// The encoding of the values as the members of one tuple.
pub fn encode_values(vs: &Vec<AbiValue>) -> (bytes: Vec<u8>)
    ensures
        bytes@ == enc_seq(vals_of(vs@)),
{
    let mut bytes: Vec<u8> = Vec::new();
    encode_seq_into(vs, &mut bytes);
    assert(bytes@ =~= enc_seq(vals_of(vs@)));
    bytes
}

} // verus!
