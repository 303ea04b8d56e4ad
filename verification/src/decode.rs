//! Decoding of values from their encoding: head slots are read in order,
//! offsets are followed, and every offset and length is held against the
//! bounds of the buffer and the end of the member before it.

use crate::error::Error;
use crate::types::{
    head_width, heads_width, lemma_head_width_resolved, lemma_heads_width_grows,
    lemma_tys_resolved, member_ty, ty_dynamic, ty_resolved, tys_of, AbiType, Ty,
};
use crate::value::{vals_of, word_fits, word_fits_type, AbiValue, Val};
use crate::word::{be_value, padded_len, word_from_slice, word_to_u64};
use vstd::prelude::*;
use vstd::slice::{slice_subrange, slice_to_vec};
use vstd::utf8::{decode_utf8, encode_utf8, valid_utf8};

verus! {

/// A decoded value and the number of bytes that it took from the buffer.
pub struct Decoded {
    pub value: Val,
    pub used: nat,
}

/// Where the walk over the members of a tuple stands: the values decoded so
/// far, and the first byte behind the dynamic member decoded last (behind
/// the head, before the first of them).
pub struct Walk {
    pub values: Seq<Val>,
    pub floor: nat,
}

/// The value of the elementary type `t` that the word `w` holds.
pub open spec fn val_of_word(t: Ty, w: Seq<u8>) -> Val {
    match t {
        Ty::Bool => Val::Bool(w[31] == 1),
        Ty::Int(_) => Val::Int(w),
        Ty::Address => Val::Address(w.subrange(12, 32)),
        Ty::FixedBytes(len) => Val::FixedBytes(w.subrange(0, len as int)),
        _ => Val::Uint(w),
    }
}

/// Whether an array or a tuple of type `t` can have a member `i`.
pub open spec fn has_member(t: Ty, i: int) -> bool {
    match t {
        Ty::Array(_) => 0 <= i,
        Ty::Tuple(members) => 0 <= i < members.len(),
        _ => false,
    }
}

/// The length of the heads of the first `k` members of an array or a tuple
/// of type `t`.
pub open spec fn members_width(t: Ty, k: nat) -> nat {
    match t {
        Ty::Array(elem) => k * head_width(*elem),
        Ty::Tuple(members) => heads_width(members, k),
        _ => 0,
    }
}

/// The bytes of a byte string that `b` starts with, and the number of
/// bytes that it takes with the word of its length and its padding.
pub open spec fn dec_content(b: Seq<u8>) -> Result<(Seq<u8>, nat), Error> {
    if b.len() < 32 {
        Err(Error::DecodeBoundsError)
    } else {
        let len = be_value(b.subrange(0, 32));
        if 32 + padded_len(len) > b.len() {
            Err(Error::DecodeBoundsError)
        } else {
            Ok((b.subrange(32, 32 + len as int), 32 + padded_len(len)))
        }
    }
}

/// The bytes from which a member of type `mt` is decoded, if its head
/// stands at `at` in `b`: the head itself, or for a dynamic member what
/// `b` holds from the member's offset on. The offset may not point in
/// front of `floor` nor behind the end of `b`.
pub open spec fn member_input(mt: Ty, b: Seq<u8>, at: nat, floor: nat) -> Result<Seq<u8>, Error> {
    if ty_dynamic(mt) {
        let offset = be_value(b.subrange(at as int, at as int + 32));
        if offset < floor || offset > b.len() {
            Err(Error::DecodeBoundsError)
        } else {
            Ok(b.skip(offset as int))
        }
    } else {
        Ok(b.subrange(at as int, at as int + head_width(mt)))
    }
}

/// The value of type `t` that `b` starts with.
///
/// It fails with `TypeMismatch` where `b` is too short for a word or for
/// the head of a tuple, where a word is not one of its type, and where a
/// string is not UTF-8; with `DecodeBoundsError` where a length or an
/// offset leads out of `b`, or an offset in front of the end of the
/// dynamic member before it.
pub open spec fn dec(t: Ty, b: Seq<u8>) -> Result<Decoded, Error>
    decreases t, 1nat, 0nat,
{
    match t {
        Ty::Custom(_) => Err(Error::UnresolvedType),
        Ty::Bytes => match dec_content(b) {
            Err(e) => Err(e),
            Ok((content, used)) => Ok(Decoded { value: Val::Bytes(content), used }),
        },
        Ty::Str => match dec_content(b) {
            Err(e) => Err(e),
            Ok((content, used)) => if valid_utf8(content) {
                Ok(Decoded { value: Val::Str(decode_utf8(content)), used })
            } else {
                Err(Error::TypeMismatch)
            },
        },
        Ty::Array(elem) => if b.len() < 32 {
            Err(Error::DecodeBoundsError)
        } else {
            let n = be_value(b.subrange(0, 32));
            if n * head_width(*elem) > b.len() - 32 {
                Err(Error::DecodeBoundsError)
            } else {
                match dec_members(t, n, b.skip(32), n) {
                    Err(e) => Err(e),
                    Ok(walk) => Ok(
                        Decoded { value: Val::Array(walk.values), used: 32 + walk.floor },
                    ),
                }
            }
        },
        Ty::Tuple(members) => if heads_width(members, members.len()) > b.len() {
            Err(Error::TypeMismatch)
        } else {
            match dec_members(t, members.len(), b, members.len()) {
                Err(e) => Err(e),
                Ok(walk) => Ok(Decoded { value: Val::Tuple(walk.values), used: walk.floor }),
            }
        },
        _ => if b.len() < 32 || !word_fits(t, b.subrange(0, 32)) {
            Err(Error::TypeMismatch)
        } else {
            Ok(Decoded { value: val_of_word(t, b.subrange(0, 32)), used: 32 })
        },
    }
}

/// The member of type `mt` whose head stands at `at` in `b`, and the
/// floor behind it: for a dynamic member the first byte behind it, else
/// the floor as it was.
pub open spec fn dec_member(mt: Ty, b: Seq<u8>, at: nat, floor: nat) -> Result<(Val, nat), Error>
    decreases mt, 2nat, 0nat,
{
    match member_input(mt, b, at, floor) {
        Err(e) => Err(e),
        Ok(input) => match dec(mt, input) {
            Err(e) => Err(e),
            Ok(d) => Ok(
                (
                    d.value,
                    if ty_dynamic(mt) {
                        be_value(b.subrange(at as int, at as int + 32)) + d.used
                    } else {
                        floor
                    },
                ),
            ),
        },
    }
}

/// The walk over the first `k` members of an array or a tuple of type `t`
/// with `n` members, whose encoding `b` starts with.
pub open spec fn dec_members(t: Ty, n: nat, b: Seq<u8>, k: nat) -> Result<Walk, Error>
    decreases t, 0nat, k,
{
    if k == 0 || !has_member(t, k - 1) {
        Ok(Walk { values: Seq::empty(), floor: members_width(t, n) })
    } else {
        match dec_members(t, n, b, (k - 1) as nat) {
            Err(e) => Err(e),
            Ok(walk) => match dec_member(
                member_ty(t, k - 1),
                b,
                members_width(t, (k - 1) as nat),
                walk.floor,
            ) {
                Err(e) => Err(e),
                Ok((value, floor)) => Ok(Walk { values: walk.values.push(value), floor }),
            },
        }
    }
}

/// The head of a dynamic member is the word of its offset.
pub proof fn lemma_head_width_dynamic(t: Ty)
    requires
        ty_dynamic(t),
    ensures
        head_width(t) == 32,
{
}

/// A walk that has failed stays failed.
pub proof fn lemma_dec_members_err(t: Ty, n: nat, b: Seq<u8>, i: nat, k: nat)
    requires
        i <= k,
        has_member(t, k - 1) || i == k,
        dec_members(t, n, b, i) is Err,
    ensures
        dec_members(t, n, b, k) == dec_members(t, n, b, i),
    decreases k,
{
    if i < k {
        lemma_dec_members_err(t, n, b, i, (k - 1) as nat);
    }
}

pub proof fn lemma_members_width_step(t: Ty, k: nat)
    requires
        has_member(t, k as int),
    ensures
        members_width(t, k + 1) == members_width(t, k) + head_width(member_ty(t, k as int)),
{
    if let Ty::Array(elem) = t {
        assert((k + 1) * head_width(*elem) == k * head_width(*elem) + head_width(*elem))
            by (nonlinear_arith);
    }
}

pub proof fn lemma_members_width_grows(t: Ty, a: nat, b: nat)
    requires
        a <= b,
        b == 0 || has_member(t, b - 1),
    ensures
        members_width(t, a) <= members_width(t, b),
{
    match t {
        Ty::Array(elem) => {
            assert(a * head_width(*elem) <= b * head_width(*elem)) by (nonlinear_arith)
                requires
                    a <= b,
            ;
        },
        Ty::Tuple(members) => {
            lemma_heads_width_grows(members, a, b);
        },
        _ => {},
    }
}

/// The string that the bytes spell in UTF-8.
///
/// Calls `String::from_utf8` of std, which gives the string that holds
/// exactly these bytes, and fails where they are not valid UTF-8. The
/// contract says that, with the validity of vstd's model of UTF-8.
#[verifier::external_body]
fn utf8_to_string(bytes: Vec<u8>) -> (r: Option<String>)
    ensures
        r is Some <==> valid_utf8(bytes@),
        r matches Some(s) ==> encode_utf8(s@) == bytes@,
{
    String::from_utf8(bytes).ok()
}

/// The head width of the type, unless it is more than `limit`.
pub fn head_width_within(t: &AbiType, limit: usize) -> (r: Option<usize>)
    ensures
        r is Some <==> head_width(t@) <= limit,
        r matches Some(w) ==> w == head_width(t@),
    decreases t, 1nat,
{
    match t {
        AbiType::Tuple(members) => {
            if t.is_dynamic() {
                if limit >= 32 {
                    Some(32)
                } else {
                    None
                }
            } else {
                heads_width_within(members, limit)
            }
        },
        _ => if limit >= 32 {
            Some(32)
        } else {
            None
        },
    }
}

/// The head widths of the types added up, unless that is more than
/// `limit`.
#[verifier::loop_isolation(false)]
pub fn heads_width_within(ts: &Vec<AbiType>, limit: usize) -> (r: Option<usize>)
    ensures
        r is Some <==> heads_width(tys_of(ts@), ts@.len()) <= limit,
        r matches Some(w) ==> w == heads_width(tys_of(ts@), ts@.len()),
    decreases ts, 0nat,
{
    let ghost tys = tys_of(ts@);
    let mut total: usize = 0;
    let mut i: usize = 0;
    while i < ts.len()
        invariant
            i <= ts@.len(),
            total == heads_width(tys, i as nat),
            total <= limit,
        decreases ts@.len() - i,
    {
        match head_width_within(&ts[i], limit - total) {
            None => {
                proof {
                    lemma_heads_width_grows(tys, (i + 1) as nat, ts@.len());
                }
                return None;
            },
            Some(w) => {
                total = total + w;
            },
        }
        i += 1;
    }
    Some(total)
}

/// The type of member `i` of an array or a tuple.
fn member_type(t: &AbiType, i: usize) -> (mt: &AbiType)
    requires
        has_member(t@, i as int),
    ensures
        mt@ == member_ty(t@, i as int),
        decreases_to!(t => mt),
{
    match t {
        AbiType::Array(elem) => elem,
        AbiType::Tuple(members) => {
            assert(t@ == Ty::Tuple(tys_of(members@)));
            &members[i]
        },
        _ => t,
    }
}

/// The address at the right end of a word.
fn address_array(w: &[u8]) -> (r: [u8; 20])
    requires
        w@.len() == 32,
    ensures
        r@ == w@.subrange(12, 32),
{
    let mut r: [u8; 20] = [0u8; 20];
    let mut i: usize = 0;
    while i < 20
        invariant
            i <= 20,
            w@.len() == 32,
            forall|j: int| 0 <= j < i ==> r@[j] == w@[j + 12],
        decreases 20 - i,
    {
        r[i] = w[i + 12];
        i += 1;
    }
    assert(r@ =~= w@.subrange(12, 32));
    r
}

/// The value of the elementary type `t` that the word `w` holds.
fn value_from_word(t: &AbiType, w: &[u8]) -> (v: AbiValue)
    requires
        w@.len() == 32,
        ty_resolved(t@),
    ensures
        v@ == val_of_word(t@, w@),
{
    match t {
        AbiType::Bool => AbiValue::Bool(w[31] == 1),
        AbiType::Int(_) => AbiValue::Int(word_from_slice(w)),
        AbiType::Address => AbiValue::Address(address_array(w)),
        AbiType::FixedBytes(len) => AbiValue::FixedBytes(
            slice_to_vec(slice_subrange(w, 0, *len as usize)),
        ),
        _ => AbiValue::Uint(word_from_slice(w)),
    }
}

/// The place of the content of a byte string in `b`, as the index behind
/// its last byte, and the number of bytes that it takes in all.
fn decode_content(b: &[u8]) -> (r: Result<(usize, usize), Error>)
    ensures
        match r {
            Ok((end, used)) => 32 <= end <= used <= b@.len() && dec_content(b@) == Ok::<
                (Seq<u8>, nat),
                Error,
            >((b@.subrange(32, end as int), used as nat)),
            Err(e) => dec_content(b@) == Err::<(Seq<u8>, nat), Error>(e),
        },
{
    if b.len() < 32 {
        return Err(Error::DecodeBoundsError);
    }
    let rest: usize = b.len() - 32;
    match word_to_u64(slice_subrange(b, 0, 32)) {
        None => Err(Error::DecodeBoundsError),
        Some(len) => {
            if len > rest as u64 {
                return Err(Error::DecodeBoundsError);
            }
            let len: usize = len as usize;
            let fill: usize = (32 - len % 32) % 32;
            if fill > rest - len {
                return Err(Error::DecodeBoundsError);
            }
            Ok((32 + len, 32 + len + fill))
        },
    }
}

/// The number of members that the word `count` gives to an array with
/// members of type `elem`, and the length of their heads, unless the heads
/// are longer than `room`.
fn array_extent(elem: &AbiType, count: &[u8], room: usize) -> (r: Option<(usize, usize)>)
    requires
        ty_resolved(elem@),
        count@.len() == 32,
    ensures
        r is Some <==> be_value(count@) * head_width(elem@) <= room,
        r matches Some((n, head)) ==> n == be_value(count@) && head == n * head_width(elem@),
{
    let ghost width = head_width(elem@);
    let ghost number = be_value(count@);
    proof {
        lemma_head_width_resolved(elem@);
    }
    match word_to_u64(count) {
        None => {
            assert(number * width >= number) by (nonlinear_arith)
                requires
                    width >= 1,
            ;
            None
        },
        Some(n) => {
            if n == 0 {
                assert(0 * width == 0) by (nonlinear_arith);
                return Some((0, 0));
            }
            match head_width_within(elem, room) {
                None => {
                    assert(n * width >= width) by (nonlinear_arith)
                        requires
                            width >= 1,
                            n >= 1,
                    ;
                    None
                },
                Some(w) => {
                    let most: usize = room / w;
                    if n > most as u64 {
                        assert(n * w > room) by (nonlinear_arith)
                            requires
                                n > most,
                                most == (room as int) / (w as int),
                                w > 0,
                        ;
                        return None;
                    }
                    assert(n * w <= room) by (nonlinear_arith)
                        requires
                            n <= most,
                            most == (room as int) / (w as int),
                            w > 0,
                    ;
                    Some((n as usize, n as usize * w))
                },
            }
        },
    }
}

/// The value of type `t` that `b` starts with, and the number of bytes
/// that it takes.
pub fn decode(t: &AbiType, b: &[u8]) -> (r: Result<(AbiValue, usize), Error>)
    requires
        ty_resolved(t@),
    ensures
        match r {
            Ok((v, used)) => dec(t@, b@) == Ok::<Decoded, Error>(
                Decoded { value: v@, used: used as nat },
            ) && used <= b@.len(),
            Err(e) => dec(t@, b@) == Err::<Decoded, Error>(e),
        },
    decreases t, 1nat,
{
    match t {
        AbiType::Custom(_) => Err(Error::UnresolvedType),
        AbiType::Bytes => match decode_content(b) {
            Err(e) => Err(e),
            Ok((end, used)) => Ok((AbiValue::Bytes(slice_to_vec(slice_subrange(b, 32, end))), used)),
        },
        AbiType::String => match decode_content(b) {
            Err(e) => Err(e),
            Ok((end, used)) => match utf8_to_string(slice_to_vec(slice_subrange(b, 32, end))) {
                None => Err(Error::TypeMismatch),
                Some(s) => {
                    proof {
                        vstd::utf8::encode_utf8_decode_utf8(s@);
                    }
                    Ok((AbiValue::String(s), used))
                },
            },
        },
        AbiType::Array(elem) => {
            if b.len() < 32 {
                return Err(Error::DecodeBoundsError);
            }
            let body = slice_subrange(b, 32, b.len());
            match array_extent(elem, slice_subrange(b, 0, 32), body.len()) {
                None => Err(Error::DecodeBoundsError),
                Some((n, head)) => match decode_members(t, n, head, body) {
                    Err(e) => Err(e),
                    Ok((values, floor)) => Ok((AbiValue::Array(values), 32 + floor)),
                },
            }
        },
        AbiType::Tuple(members) => {
            match heads_width_within(members, b.len()) {
                None => Err(Error::TypeMismatch),
                Some(head) => {
                    proof {
                        lemma_tys_resolved(tys_of(members@), members@.len());
                    }
                    match decode_members(t, members.len(), head, b) {
                        Err(e) => Err(e),
                        Ok((values, floor)) => Ok((AbiValue::Tuple(values), floor)),
                    }
                },
            }
        },
        _ => {
            if b.len() < 32 {
                return Err(Error::TypeMismatch);
            }
            let w = slice_subrange(b, 0, 32);
            if !word_fits_type(t, w) {
                return Err(Error::TypeMismatch);
            }
            Ok((value_from_word(t, w), 32))
        },
    }
}

/// The member of type `mt` whose head stands at `at` in `b`, the width
/// of that head, and the floor behind the member.
fn decode_member(mt: &AbiType, b: &[u8], at: usize, floor: usize) -> (r: Result<
    (AbiValue, usize, usize),
    Error,
>)
    requires
        ty_resolved(mt@),
        at + head_width(mt@) <= b@.len(),
        floor <= b@.len(),
    ensures
        match r {
            Ok((v, width, next)) => dec_member(mt@, b@, at as nat, floor as nat) == Ok::<
                (Val, nat),
                Error,
            >((v@, next as nat)) && width == head_width(mt@) && floor <= next <= b@.len(),
            Err(e) => dec_member(mt@, b@, at as nat, floor as nat) == Err::<(Val, nat), Error>(e),
        },
    decreases mt, 2nat,
{
    let len: usize = b.len();
    if mt.is_dynamic() {
        proof {
            lemma_head_width_dynamic(mt@);
        }
        match word_to_u64(slice_subrange(b, at, at + 32)) {
            None => {
                assert(member_input(mt@, b@, at as nat, floor as nat) is Err);
                Err(Error::DecodeBoundsError)
            },
            Some(offset) => {
                if offset < floor as u64 || offset > len as u64 {
                    assert(member_input(mt@, b@, at as nat, floor as nat) is Err);
                    return Err(Error::DecodeBoundsError);
                }
                let offset: usize = offset as usize;
                assert(member_input(mt@, b@, at as nat, floor as nat) == Ok::<Seq<u8>, Error>(
                    b@.subrange(offset as int, len as int),
                ));
                match decode(mt, slice_subrange(b, offset, len)) {
                    Err(e) => Err(e),
                    Ok((v, used)) => Ok((v, 32, offset + used)),
                }
            },
        }
    } else {
        match head_width_within(mt, b.len() - at) {
            None => Err(Error::TypeMismatch),
            Some(width) => match decode(mt, slice_subrange(b, at, at + width)) {
                Err(e) => Err(e),
                Ok((v, used)) => Ok((v, width, floor)),
            },
        }
    }
}

/// The members of an array or a tuple of type `t` with `n` members, whose
/// encoding `b` starts with a head of `head` bytes; and the index behind
/// the last byte that a member takes.
pub fn decode_members(t: &AbiType, n: usize, head: usize, b: &[u8]) -> (r: Result<
    (Vec<AbiValue>, usize),
    Error,
>)
    requires
        n == 0 || has_member(t@, n - 1),
        forall|i: int| 0 <= i < n ==> ty_resolved(#[trigger] member_ty(t@, i)),
        head == members_width(t@, n as nat),
        head <= b@.len(),
    ensures
        match r {
            Ok((values, floor)) => dec_members(t@, n as nat, b@, n as nat) == Ok::<Walk, Error>(
                Walk { values: vals_of(values@), floor: floor as nat },
            ) && floor <= b@.len(),
            Err(e) => dec_members(t@, n as nat, b@, n as nat) == Err::<Walk, Error>(e),
        },
    decreases t, 0nat,
{
    let mut values: Vec<AbiValue> = Vec::new();
    let mut at: usize = 0;
    let mut floor: usize = head;
    let mut i: usize = 0;
    assert(vals_of(values@) =~= Seq::<Val>::empty());
    while i < n
        invariant
            i <= n,
            n == 0 || has_member(t@, n - 1),
            forall|i: int| 0 <= i < n ==> ty_resolved(#[trigger] member_ty(t@, i)),
            head == members_width(t@, n as nat),
            at == members_width(t@, i as nat),
            head <= floor <= b@.len(),
            dec_members(t@, n as nat, b@, i as nat) == Ok::<Walk, Error>(
                Walk { values: vals_of(values@), floor: floor as nat },
            ),
        decreases n - i,
    {
        assert(has_member(t@, i as int));
        let mt = member_type(t, i);
        proof {
            lemma_members_width_step(t@, i as nat);
            lemma_members_width_grows(t@, (i + 1) as nat, n as nat);
            assert(ty_resolved(member_ty(t@, i as int)));
        }
        match decode_member(mt, b, at, floor) {
            Err(e) => {
                proof {
                    assert(dec_members(t@, n as nat, b@, (i + 1) as nat) == Err::<Walk, Error>(e));
                    lemma_dec_members_err(t@, n as nat, b@, (i + 1) as nat, n as nat);
                }
                return Err(e);
            },
            Ok((v, width, next)) => {
                proof {
                    crate::value::lemma_vals_of_push(values@, v);
                }
                values.push(v);
                at = at + width;
                floor = next;
            },
        }
        i += 1;
    }
    Ok((values, floor))
}

} // verus!
