//! Decoding inverts encoding: a value of a type is read back from its
//! encoding, whatever follows it in the buffer.

use crate::decode::{
    dec, dec_content, dec_member, dec_members, has_member, lemma_members_width_step,
    member_input, members_width, val_of_word, Decoded, Walk,
};
use crate::encode::{
    enc, enc_seq, heads, heads_len, lemma_heads_len, lemma_heads_len_grows, lemma_word_of_len,
    tails, val_dynamic, vals_dynamic,
};
use crate::error::Error;
use crate::types::{
    head_width, lemma_tys_resolved, member_ty, ty_dynamic, ty_resolved, ty_word, tys_dynamic, Ty,
};
use crate::value::{has_type, lemma_members_typed, members_typed, word_fits, Val};
use crate::word::{
    be_bytes, be_value, lemma_be_bytes_len, lemma_be_bytes_zero, lemma_be_value_of_be_bytes,
    pad_right, padded_len, word_limit, word_of, zeros,
};
use vstd::prelude::*;
use vstd::utf8::encode_utf8;

verus! {

/// Whether the first `n` members of an array or a tuple of type `t` have
/// resolved types.
pub open spec fn members_resolved(t: Ty, n: nat) -> bool {
    forall|i: int| 0 <= i < n ==> ty_resolved(#[trigger] member_ty(t, i))
}

/// A value is dynamic exactly when its type is.
pub proof fn lemma_typed_dynamic(v: Val, t: Ty)
    requires
        has_type(v, t),
    ensures
        val_dynamic(v) == ty_dynamic(t),
    decreases v, 0nat,
{
    if let Val::Tuple(vs) = v {
        lemma_typed_dynamic_members(vs, t, vs.len());
    }
}

pub proof fn lemma_typed_dynamic_members(vs: Seq<Val>, t: Ty, k: nat)
    requires
        t is Tuple,
        vs.len() == t->Tuple_0.len(),
        k <= vs.len(),
        members_typed(vs, t, k),
    ensures
        vals_dynamic(vs, k) == tys_dynamic(t->Tuple_0, k),
    decreases vs, k,
{
    if k > 0 {
        lemma_typed_dynamic_members(vs, t, (k - 1) as nat);
        lemma_typed_dynamic(vs[k - 1], member_ty(t, k - 1));
    }
}

/// Nothing stands in the tail for members that are not dynamic.
pub proof fn lemma_static_tails(vs: Seq<Val>, k: nat)
    requires
        k <= vs.len(),
        !vals_dynamic(vs, k),
    ensures
        tails(vs, k) == Seq::<u8>::empty(),
    decreases k,
{
    if k > 0 {
        lemma_static_tails(vs, (k - 1) as nat);
        assert(tails(vs, k) =~= Seq::<u8>::empty());
    }
}

/// The word of a value of an elementary type is one of that type, and
/// holds that value.
pub proof fn lemma_word_inverse(v: Val, t: Ty)
    requires
        has_type(v, t),
        ty_resolved(t),
        ty_word(t),
    ensures
        enc(v).len() == 32,
        word_fits(t, enc(v)),
        val_of_word(t, enc(v)) == v,
{
    match v {
        Val::Bool(b) => {
            let n: nat = if b {
                1
            } else {
                0
            };
            lemma_be_bytes_zero(31);
            lemma_be_bytes_len(0, 31);
            assert(word_of(n) == be_bytes(0, 31).push(n as u8));
            assert(word_of(n) =~= zeros(31).push(n as u8));
        },
        Val::Address(a) => {
            assert(enc(v).subrange(12, 32) =~= a);
        },
        Val::FixedBytes(b) => {
            assert(padded_len(b.len()) == 32);
            assert(enc(v).subrange(0, b.len() as int) =~= b);
        },
        _ => {},
    }
}

/// The encoding of a value that is not dynamic is as long as the head of
/// its type.
pub proof fn lemma_typed_width(v: Val, t: Ty)
    requires
        has_type(v, t),
        ty_resolved(t),
        !ty_dynamic(t),
    ensures
        enc(v).len() == head_width(t),
    decreases v, 0nat,
{
    if let Val::Tuple(vs) = v {
        lemma_typed_dynamic(v, t);
        lemma_tys_resolved(t->Tuple_0, vs.len());
        lemma_members_width(vs, t, vs.len());
        lemma_static_tails(vs, vs.len());
        lemma_heads_len(vs, heads_len(vs, vs.len()), vs.len());
    } else {
        lemma_word_inverse(v, t);
    }
}

/// The heads of typed members are as long as the heads of their types.
pub proof fn lemma_members_width(vs: Seq<Val>, t: Ty, k: nat)
    requires
        k <= vs.len(),
        k == 0 || has_member(t, k - 1),
        members_typed(vs, t, k),
        members_resolved(t, k),
    ensures
        heads_len(vs, k) == members_width(t, k),
    decreases vs, k,
{
    if k > 0 {
        let mt = member_ty(t, k - 1);
        assert(has_member(t, k - 1));
        lemma_members_width(vs, t, (k - 1) as nat);
        lemma_members_width_step(t, (k - 1) as nat);
        lemma_typed_dynamic(vs[k - 1], mt);
        assert(ty_resolved(mt));
        if !ty_dynamic(mt) {
            lemma_typed_width(vs[k - 1], mt);
        }
    } else {
        if let Ty::Array(elem) = t {
            assert(0 * head_width(*elem) == 0) by (nonlinear_arith);
        }
    }
}

/// What member `k` has in the head: the word of its offset where it is
/// dynamic, else its encoding.
pub open spec fn head_slot(vs: Seq<Val>, head: nat, k: int) -> Seq<u8> {
    if val_dynamic(vs[k]) {
        word_of(head + tails(vs, k as nat).len())
    } else {
        enc(vs[k])
    }
}

/// The head of member `k` stands in the heads behind those of the members
/// before it.
pub proof fn lemma_heads_slot(vs: Seq<Val>, head: nat, n: nat, k: nat)
    requires
        k < n <= vs.len(),
    ensures
        heads_len(vs, k + 1) <= heads_len(vs, n),
        heads(vs, head, n).subrange(heads_len(vs, k) as int, heads_len(vs, k + 1) as int)
            == head_slot(vs, head, k as int),
    decreases n,
{
    lemma_heads_len(vs, head, n);
    lemma_heads_len(vs, head, (n - 1) as nat);
    lemma_heads_len_grows(vs, k + 1, n);
    lemma_word_of_len(head + tails(vs, k).len());
    if k + 1 == n {
        assert(heads(vs, head, n).subrange(heads_len(vs, k) as int, heads_len(vs, k + 1) as int)
            =~= head_slot(vs, head, k as int));
    } else {
        lemma_heads_slot(vs, head, (n - 1) as nat, k);
        assert(heads(vs, head, n).subrange(heads_len(vs, k) as int, heads_len(vs, k + 1) as int)
            =~= heads(vs, head, (n - 1) as nat).subrange(
            heads_len(vs, k) as int,
            heads_len(vs, k + 1) as int,
        ));
    }
}

/// The tails of the first `k` members start the tails of the first `n`.
pub proof fn lemma_tails_prefix(vs: Seq<Val>, n: nat, k: nat)
    requires
        k <= n <= vs.len(),
    ensures
        tails(vs, k).len() <= tails(vs, n).len(),
        tails(vs, n).subrange(0, tails(vs, k).len() as int) == tails(vs, k),
    decreases n,
{
    if k == n {
        assert(tails(vs, n).subrange(0, tails(vs, k).len() as int) =~= tails(vs, k));
    } else {
        lemma_tails_prefix(vs, (n - 1) as nat, k);
        assert(tails(vs, n).subrange(0, tails(vs, k).len() as int) =~= tails(
            vs,
            (n - 1) as nat,
        ).subrange(0, tails(vs, k).len() as int));
    }
}

/// The encoding of a member is no longer than that of the tuple.
pub proof fn lemma_member_shorter(vs: Seq<Val>, k: nat)
    requires
        k < vs.len(),
    ensures
        enc(vs[k as int]).len() <= enc_seq(vs).len(),
{
    let n = vs.len();
    let head = heads_len(vs, n);
    lemma_heads_len(vs, head, n);
    lemma_heads_len_grows(vs, k + 1, n);
    lemma_tails_prefix(vs, n, k + 1);
}

/// A value of a resolved type is read back from its encoding, whatever
/// follows it, if the encoding is short enough for a word to hold its
/// length.
pub proof fn lemma_dec_enc(v: Val, t: Ty, rest: Seq<u8>)
    requires
        has_type(v, t),
        ty_resolved(t),
        enc(v).len() < word_limit(),
    ensures
        dec(t, enc(v) + rest) == Ok::<Decoded, Error>(Decoded { value: v, used: enc(v).len() }),
    decreases v, 0nat, 0nat,
{
    let b = enc(v) + rest;
    match v {
        Val::Bytes(content) => {
            lemma_word_of_len(content.len());
            lemma_content_inverse(content, rest);
        },
        Val::Str(s) => {
            lemma_word_of_len(encode_utf8(s).len());
            lemma_content_inverse(encode_utf8(s), rest);
            vstd::utf8::encode_utf8_valid_utf8(s);
            vstd::utf8::encode_utf8_decode_utf8(s);
        },
        Val::Array(vs) => {
            let n = vs.len();
            let width = head_width(member_ty(t, 0));
            lemma_word_of_len(n);
            assert(members_resolved(t, n));
            lemma_members_width(vs, t, n);
            lemma_heads_len(vs, heads_len(vs, n), n);
            crate::types::lemma_head_width_resolved(member_ty(t, 0));
            assert(n <= n * width) by (nonlinear_arith)
                requires
                    width >= 1,
            ;
            lemma_be_value_of_be_bytes(n, 32);
            assert(b.subrange(0, 32) =~= word_of(n));
            assert(b.skip(32) =~= enc_seq(vs) + rest);
            lemma_dec_enc_members(vs, t, rest, n);
            assert(vs.subrange(0, n as int) =~= vs);
        },
        Val::Tuple(vs) => {
            let n = vs.len();
            lemma_tys_resolved(t->Tuple_0, n);
            assert(members_resolved(t, n));
            lemma_members_width(vs, t, n);
            lemma_heads_len(vs, heads_len(vs, n), n);
            lemma_dec_enc_members(vs, t, rest, n);
            assert(vs.subrange(0, n as int) =~= vs);
        },
        _ => {
            lemma_word_inverse(v, t);
            assert(b.subrange(0, 32) =~= enc(v));
        },
    }
}

/// A byte string is read back from the word of its length and its padded
/// bytes.
pub proof fn lemma_content_inverse(content: Seq<u8>, rest: Seq<u8>)
    requires
        content.len() < word_limit(),
    ensures
        dec_content(word_of(content.len()) + pad_right(content) + rest) == Ok::<
            (Seq<u8>, nat),
            Error,
        >((content, 32 + pad_right(content).len())),
{
    let b = word_of(content.len()) + pad_right(content) + rest;
    lemma_word_of_len(content.len());
    lemma_be_value_of_be_bytes(content.len(), 32);
    assert(b.subrange(0, 32) =~= word_of(content.len()));
    assert(b.subrange(32, 32 + content.len() as int) =~= content);
}

/// Where the walk finds a dynamic member: the word in its head spells the
/// offset at which its encoding starts.
pub proof fn lemma_dynamic_input(vs: Seq<Val>, rest: Seq<u8>, i: nat)
    requires
        i < vs.len(),
        val_dynamic(vs[i as int]),
        enc_seq(vs).len() < word_limit(),
    ensures
        ({
            let b = enc_seq(vs) + rest;
            let at = heads_len(vs, i) as int;
            let floor = heads_len(vs, vs.len()) + tails(vs, i).len();
            let after = tails(vs, vs.len()).skip(tails(vs, i + 1).len() as int) + rest;
            &&& at + 32 <= heads_len(vs, vs.len())
            &&& be_value(b.subrange(at, at + 32)) == floor
            &&& floor <= b.len()
            &&& b.skip(floor as int) == enc(vs[i as int]) + after
        }),
{
    let n = vs.len();
    let head = heads_len(vs, n);
    let b = enc_seq(vs) + rest;
    let at = heads_len(vs, i) as int;
    let floor = head + tails(vs, i).len();
    let v = vs[i as int];
    let after = tails(vs, n).skip(tails(vs, i + 1).len() as int) + rest;
    lemma_heads_len(vs, head, n);
    lemma_heads_slot(vs, head, n, i);
    lemma_tails_prefix(vs, n, i + 1);
    lemma_tails_prefix(vs, n, i);
    lemma_word_of_len(floor);
    lemma_be_value_of_be_bytes(floor, 32);
    assert(b.subrange(at, at + 32) =~= head_slot(vs, head, i as int));
    assert(tails(vs, n).subrange(0, tails(vs, i + 1).len() as int) =~= tails(vs, i) + enc(v));
    assert(tails(vs, n) =~= tails(vs, i) + enc(v) + tails(vs, n).skip(
        tails(vs, i + 1).len() as int,
    ));
    assert(b.skip(floor as int) =~= enc(v) + after);
}

/// Where the walk finds a member that is not dynamic: in its head.
pub proof fn lemma_static_input(vs: Seq<Val>, rest: Seq<u8>, i: nat)
    requires
        i < vs.len(),
        !val_dynamic(vs[i as int]),
    ensures
        ({
            let b = enc_seq(vs) + rest;
            let at = heads_len(vs, i) as int;
            &&& b.subrange(at, at + enc(vs[i as int]).len()) == enc(vs[i as int])
            &&& tails(vs, i + 1) == tails(vs, i)
        }),
{
    let n = vs.len();
    let head = heads_len(vs, n);
    let b = enc_seq(vs) + rest;
    let at = heads_len(vs, i) as int;
    lemma_heads_len(vs, head, n);
    lemma_heads_slot(vs, head, n, i);
    assert(b.subrange(at, at + enc(vs[i as int]).len()) =~= head_slot(vs, head, i as int));
    assert(tails(vs, i + 1) =~= tails(vs, i));
}

/// The walk reads member `i` back, and stands behind its tail.
pub proof fn lemma_dec_enc_member(vs: Seq<Val>, t: Ty, rest: Seq<u8>, i: nat)
    requires
        i < vs.len(),
        has_member(t, vs.len() - 1),
        members_typed(vs, t, vs.len()),
        members_resolved(t, vs.len()),
        enc_seq(vs).len() < word_limit(),
    ensures
        dec_member(
            member_ty(t, i as int),
            enc_seq(vs) + rest,
            members_width(t, i),
            heads_len(vs, vs.len()) + tails(vs, i).len(),
        ) == Ok::<(Val, nat), Error>(
            (vs[i as int], heads_len(vs, vs.len()) + tails(vs, i + 1).len()),
        ),
    decreases vs, i, 0nat,
{
    let n = vs.len();
    let b = enc_seq(vs) + rest;
    let v = vs[i as int];
    let mt = member_ty(t, i as int);
    let at = members_width(t, i);
    let floor = heads_len(vs, n) + tails(vs, i).len();
    assert(has_member(t, i as int));
    lemma_members_typed(vs, t, n);
    assert(has_type(v, mt));
    assert(ty_resolved(mt));
    lemma_members_typed(vs, t, i);
    assert(members_resolved(t, i));
    lemma_members_width(vs, t, i);
    lemma_typed_dynamic(v, mt);
    lemma_member_shorter(vs, i);
    if ty_dynamic(mt) {
        let after = tails(vs, n).skip(tails(vs, i + 1).len() as int) + rest;
        lemma_dynamic_input(vs, rest, i);
        lemma_dec_enc(v, mt, after);
        assert(member_input(mt, b, at, floor) == Ok::<Seq<u8>, Error>(enc(v) + after));
    } else {
        lemma_static_input(vs, rest, i);
        lemma_typed_width(v, mt);
        lemma_dec_enc(v, mt, Seq::empty());
        assert(enc(v) + Seq::<u8>::empty() =~= enc(v));
        assert(member_input(mt, b, at, floor) == Ok::<Seq<u8>, Error>(enc(v)));
    }
}

/// The walk over the encoding of typed members, whatever follows it,
/// finds the members, and stands after `k` of them behind the tail of
/// member `k - 1`.
pub proof fn lemma_dec_enc_members(vs: Seq<Val>, t: Ty, rest: Seq<u8>, k: nat)
    requires
        k <= vs.len(),
        vs.len() == 0 || has_member(t, vs.len() - 1),
        members_typed(vs, t, vs.len()),
        members_resolved(t, vs.len()),
        enc_seq(vs).len() < word_limit(),
    ensures
        dec_members(t, vs.len(), enc_seq(vs) + rest, k) == Ok::<Walk, Error>(
            Walk {
                values: vs.subrange(0, k as int),
                floor: heads_len(vs, vs.len()) + tails(vs, k).len(),
            },
        ),
    decreases vs, k, 1nat,
{
    let n = vs.len();
    if k == 0 {
        lemma_members_width(vs, t, n);
        assert(vs.subrange(0, 0) =~= Seq::<Val>::empty());
    } else {
        let i = (k - 1) as nat;
        lemma_dec_enc_members(vs, t, rest, i);
        lemma_dec_enc_member(vs, t, rest, i);
        assert(has_member(t, i as int));
        assert(vs.subrange(0, k as int) =~= vs.subrange(0, i as int).push(vs[i as int]));
    }
}

/// The value that a word of an elementary type holds has that type.
pub proof fn lemma_word_typed(t: Ty, w: Seq<u8>)
    requires
        ty_resolved(t),
        ty_word(t),
        w.len() == 32,
        word_fits(t, w),
    ensures
        has_type(val_of_word(t, w), t),
{
}

/// What is decoded as a value of a resolved type has that type.
pub proof fn lemma_dec_typed(t: Ty, b: Seq<u8>)
    requires
        ty_resolved(t),
        dec(t, b) is Ok,
    ensures
        has_type(dec(t, b)->Ok_0.value, t),
    decreases t, 1nat, 0nat,
{
    match t {
        Ty::Array(elem) => {
            let n = be_value(b.subrange(0, 32));
            assert(members_resolved(t, n));
            lemma_dec_members_typed(t, n, b.skip(32), n);
        },
        Ty::Tuple(members) => {
            let n = members.len();
            lemma_tys_resolved(members, n);
            assert(members_resolved(t, n));
            lemma_dec_members_typed(t, n, b, n);
        },
        Ty::Bytes | Ty::Str | Ty::Custom(_) => {},
        _ => {
            lemma_word_typed(t, b.subrange(0, 32));
        },
    }
}

/// The members that a walk has decoded have the types of the members.
pub proof fn lemma_dec_members_typed(t: Ty, n: nat, b: Seq<u8>, k: nat)
    requires
        k == 0 || has_member(t, k - 1),
        members_resolved(t, k),
        dec_members(t, n, b, k) is Ok,
    ensures
        dec_members(t, n, b, k)->Ok_0.values.len() == k,
        members_typed(dec_members(t, n, b, k)->Ok_0.values, t, k),
    decreases t, 0nat, k,
{
    if k > 0 {
        let i = (k - 1) as nat;
        let mt = member_ty(t, i as int);
        let before = dec_members(t, n, b, i)->Ok_0;
        let after = dec_members(t, n, b, k)->Ok_0;
        assert(has_member(t, i as int));
        assert(members_resolved(t, i));
        lemma_dec_members_typed(t, n, b, i);
        assert(dec_members(t, n, b, i) is Ok);
        let member = dec_member(mt, b, members_width(t, i), before.floor);
        assert(member is Ok);
        let input = member_input(mt, b, members_width(t, i), before.floor)->Ok_0;
        assert(dec(mt, input) is Ok);
        assert(after.values == before.values.push(dec(mt, input)->Ok_0.value));
        assert(ty_resolved(mt));
        lemma_dec_typed(mt, input);
        lemma_members_typed(before.values, t, i);
        assert forall|j: int| 0 <= j < k implies has_type(
            #[trigger] after.values[j],
            member_ty(t, j),
        ) by {
            if j < i {
                assert(after.values[j] == before.values[j]);
            }
        }
        lemma_members_typed(after.values, t, k);
    }
}

} // verus!
