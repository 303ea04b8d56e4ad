//! Values of the ABI types, and which value has which type.

use crate::types::{member_ty, ty_resolved, tys_of, AbiType, Ty};
use vstd::prelude::*;

verus! {

/// The mathematical model of a value.
pub enum Val {
    Bool(bool),
    /// An unsigned integer as the 32 bytes of its word, most significant
    /// first.
    Uint(Seq<u8>),
    /// A signed integer as the 32 bytes of its word in two's complement.
    Int(Seq<u8>),
    /// The 20 bytes of an address.
    Address(Seq<u8>),
    /// A byte string of fixed length; also a digest, with 32 bytes.
    FixedBytes(Seq<u8>),
    Bytes(Seq<u8>),
    Str(Seq<char>),
    Array(Seq<Val>),
    Tuple(Seq<Val>),
}

/// A value as a record holds it.
#[derive(Debug, PartialEq, Eq)]
pub enum AbiValue {
    Bool(bool),
    /// An unsigned integer: its word, most significant byte first.
    Uint([u8; 32]),
    /// A signed integer: its word in two's complement.
    Int([u8; 32]),
    Address([u8; 20]),
    /// A byte string of fixed length; a digest is one of 32 bytes.
    FixedBytes(Vec<u8>),
    Bytes(Vec<u8>),
    String(String),
    Array(Vec<AbiValue>),
    Tuple(Vec<AbiValue>),
}

/// The model of a value.
pub open spec fn val_of(v: AbiValue) -> Val
    decreases v,
{
    match v {
        AbiValue::Bool(b) => Val::Bool(b),
        AbiValue::Uint(w) => Val::Uint(w@),
        AbiValue::Int(w) => Val::Int(w@),
        AbiValue::Address(a) => Val::Address(a@),
        AbiValue::FixedBytes(b) => Val::FixedBytes(b@),
        AbiValue::Bytes(b) => Val::Bytes(b@),
        AbiValue::String(s) => Val::Str(s@),
        AbiValue::Array(members) => Val::Array(vals_of(members@)),
        AbiValue::Tuple(members) => Val::Tuple(vals_of(members@)),
    }
}

/// The models of a list of values, member by member.
pub open spec fn vals_of(vs: Seq<AbiValue>) -> Seq<Val>
    decreases vs,
{
    Seq::new(vs.len(), |i: int| if 0 <= i < vs.len() { val_of(vs[i]) } else { Val::Bool(false) })
}

impl View for AbiValue {
    type V = Val;

    open spec fn view(&self) -> Val {
        val_of(*self)
    }
}

/// Whether the bytes of `w` from `from` up to `to` all equal `b`.
pub open spec fn all_bytes(w: Seq<u8>, from: int, to: int, b: u8) -> bool {
    forall|i: int| from <= i < to ==> #[trigger] w[i] == b
}

/// The byte that fills the word of a signed integer in front of its own
/// bytes, the first of which is `top`.
pub open spec fn sign_fill(top: u8) -> u8 {
    if top >= 128 {
        255
    } else {
        0
    }
}

/// Whether the 32 bytes of `w` are the word of a value of the elementary
/// type `t`: the bytes that the type does not use are zero (for a signed
/// integer, copies of its sign), and a boolean is 0 or 1.
pub open spec fn word_fits(t: Ty, w: Seq<u8>) -> bool {
    match t {
        Ty::Bool => all_bytes(w, 0, 31, 0) && w[31] <= 1,
        Ty::Uint(bits) => all_bytes(w, 0, 32 - bits / 8, 0),
        Ty::Int(bits) => bits >= 256 || all_bytes(
            w,
            0,
            32 - bits / 8,
            sign_fill(w[32 - bits / 8]),
        ),
        Ty::Address => all_bytes(w, 0, 12, 0),
        Ty::FixedBytes(len) => all_bytes(w, len as int, 32, 0),
        _ => false,
    }
}

/// Whether `v` is a value of type `t`.
pub open spec fn has_type(v: Val, t: Ty) -> bool
    decreases v, 0nat,
{
    match v {
        Val::Bool(_) => t is Bool,
        Val::Uint(w) => t is Uint && w.len() == 32 && word_fits(t, w),
        Val::Int(w) => t is Int && w.len() == 32 && word_fits(t, w),
        Val::Address(a) => t is Address && a.len() == 20,
        Val::FixedBytes(b) => t matches Ty::FixedBytes(len) && b.len() == len,
        Val::Bytes(_) => t is Bytes,
        Val::Str(_) => t is Str,
        Val::Array(members) => t is Array && members_typed(members, t, members.len()),
        Val::Tuple(members) => t matches Ty::Tuple(ts) && members.len() == ts.len()
            && members_typed(members, t, members.len()),
    }
}

/// Whether the first `k` values of the list have the types of the members
/// of the array or tuple type `t`.
pub open spec fn members_typed(vs: Seq<Val>, t: Ty, k: nat) -> bool
    decreases vs, k,
{
    if k == 0 || k > vs.len() {
        true
    } else {
        members_typed(vs, t, (k - 1) as nat) && has_type(vs[k - 1], member_ty(t, k - 1))
    }
}

pub proof fn lemma_members_typed(vs: Seq<Val>, t: Ty, k: nat)
    requires
        k <= vs.len(),
    ensures
        members_typed(vs, t, k) <==> forall|i: int|
            0 <= i < k ==> has_type(#[trigger] vs[i], member_ty(t, i)),
    decreases k,
{
    if k > 0 {
        lemma_members_typed(vs, t, (k - 1) as nat);
    }
}

pub proof fn lemma_vals_of_push(vs: Seq<AbiValue>, v: AbiValue)
    ensures
        vals_of(vs.push(v)) == vals_of(vs).push(val_of(v)),
{
    assert(vals_of(vs.push(v)) =~= vals_of(vs).push(val_of(v)));
}

/// Whether the bytes of `w` from `from` up to `to` all equal `b`.
pub fn all_bytes_are(w: &[u8], from: usize, to: usize, b: u8) -> (r: bool)
    requires
        to <= w@.len(),
    ensures
        r == all_bytes(w@, from as int, to as int, b),
{
    let mut i: usize = from;
    while i < to
        invariant
            to <= w@.len(),
            from <= i,
            all_bytes(w@, from as int, i as int, b),
        decreases to - i,
    {
        if w[i] != b {
            return false;
        }
        i += 1;
    }
    true
}

/// Whether the 32 bytes of `w` are the word of a value of the elementary
/// type `ty`.
pub fn word_fits_type(ty: &AbiType, w: &[u8]) -> (r: bool)
    requires
        ty_resolved(ty@),
        w@.len() == 32,
    ensures
        r == word_fits(ty@, w@),
{
    match ty {
        AbiType::Bool => all_bytes_are(w, 0, 31, 0) && w[31] <= 1,
        AbiType::Uint(bits) => all_bytes_are(w, 0, 32 - (*bits / 8) as usize, 0),
        AbiType::Int(bits) => {
            if *bits >= 256 {
                true
            } else {
                let own: usize = 32 - (*bits / 8) as usize;
                let fill: u8 = if w[own] >= 128 {
                    255
                } else {
                    0
                };
                all_bytes_are(w, 0, own, fill)
            }
        },
        AbiType::Address => all_bytes_are(w, 0, 12, 0),
        AbiType::FixedBytes(len) => all_bytes_are(w, *len as usize, 32, 0),
        _ => false,
    }
}

impl AbiValue {
    /// Whether this is a value of type `ty`.
    #[verifier::loop_isolation(false)]
    pub fn has_type(&self, ty: &AbiType) -> (r: bool)
        requires
            ty_resolved(ty@),
        ensures
            r == has_type(self@, ty@),
        decreases self,
    {
        match self {
            AbiValue::Bool(_) => matches!(ty, AbiType::Bool),
            AbiValue::Uint(w) => matches!(ty, AbiType::Uint(_)) && word_fits_type(
                ty,
                w.as_slice(),
            ),
            AbiValue::Int(w) => matches!(ty, AbiType::Int(_)) && word_fits_type(ty, w.as_slice()),
            AbiValue::Address(_) => matches!(ty, AbiType::Address),
            AbiValue::FixedBytes(b) => match ty {
                AbiType::FixedBytes(len) => b.len() == *len as usize,
                _ => false,
            },
            AbiValue::Bytes(_) => matches!(ty, AbiType::Bytes),
            AbiValue::String(_) => matches!(ty, AbiType::String),
            AbiValue::Array(members) => match ty {
                AbiType::Array(elem) => {
                    let mut i: usize = 0;
                    while i < members.len()
                        invariant
                            i <= members@.len(),
                            members_typed(vals_of(members@), ty@, i as nat),
                        decreases members@.len() - i,
                    {
                        if !members[i].has_type(elem) {
                            proof {
                                lemma_members_typed(vals_of(members@), ty@, members@.len() as nat);
                                assert(!has_type(vals_of(members@)[i as int], member_ty(ty@, i as int)));
                            }
                            return false;
                        }
                        i += 1;
                    }
                    true
                },
                _ => false,
            },
            AbiValue::Tuple(members) => match ty {
                AbiType::Tuple(ts) => {
                    if members.len() != ts.len() {
                        assert(ty@ == Ty::Tuple(tys_of(ts@)));
                        assert(self@ == Val::Tuple(vals_of(members@)));
                        return false;
                    }
                    proof {
                        crate::types::lemma_tys_resolved(tys_of(ts@), ts@.len() as nat);
                    }
                    let mut i: usize = 0;
                    while i < members.len()
                        invariant
                            i <= members@.len(),
                            members_typed(vals_of(members@), ty@, i as nat),
                        decreases members@.len() - i,
                    {
                        assert(ty_resolved(tys_of(ts@)[i as int]));
                        if !members[i].has_type(&ts[i]) {
                            proof {
                                lemma_members_typed(vals_of(members@), ty@, members@.len() as nat);
                                assert(!has_type(vals_of(members@)[i as int], member_ty(ty@, i as int)));
                            }
                            return false;
                        }
                        i += 1;
                    }
                    true
                },
                _ => false,
            },
        }
    }
}

impl Clone for AbiValue {
    #[verifier::loop_isolation(false)]
    fn clone(&self) -> (r: Self)
        ensures
            r@ == self@,
        decreases self,
    {
        match self {
            AbiValue::Bool(b) => AbiValue::Bool(*b),
            AbiValue::Uint(w) => AbiValue::Uint(*w),
            AbiValue::Int(w) => AbiValue::Int(*w),
            AbiValue::Address(a) => AbiValue::Address(*a),
            AbiValue::FixedBytes(b) => AbiValue::FixedBytes(copy_bytes(b)),
            AbiValue::Bytes(b) => AbiValue::Bytes(copy_bytes(b)),
            AbiValue::String(s) => AbiValue::String(s.clone()),
            AbiValue::Array(members) => AbiValue::Array(clone_values(members)),
            AbiValue::Tuple(members) => AbiValue::Tuple(clone_values(members)),
        }
    }
}

fn copy_bytes(bytes: &Vec<u8>) -> (r: Vec<u8>)
    ensures
        r@ == bytes@,
{
    let mut r: Vec<u8> = Vec::new();
    crate::word::push_bytes(&mut r, bytes.as_slice());
    assert(r@ =~= bytes@);
    r
}

/// A copy of each value of the list.
pub fn clone_values(values: &Vec<AbiValue>) -> (r: Vec<AbiValue>)
    ensures
        vals_of(r@) == vals_of(values@),
    decreases values,
{
    let mut r: Vec<AbiValue> = Vec::new();
    let mut i: usize = 0;
    while i < values.len()
        invariant
            i <= values@.len(),
            r@.len() == i,
            forall|j: int| 0 <= j < i ==> val_of(#[trigger] r@[j]) == val_of(values@[j]),
        decreases values@.len() - i,
    {
        r.push(values[i].clone());
        i += 1;
    }
    assert(vals_of(r@) =~= vals_of(values@));
    r
}

} // verus!
