//! The type model: ABI types, which of them are dynamic, how wide their
//! place in a tuple's head is, and their canonical names.

use vstd::prelude::*;
use vstd::string::*;

verus! {

/// The mathematical model of an ABI type.
pub enum Ty {
    Bool,
    /// An unsigned integer of that many bits.
    Uint(nat),
    /// A signed integer of that many bits.
    Int(nat),
    Address,
    /// A byte string of that fixed length.
    FixedBytes(nat),
    Bytes,
    Str,
    /// An array of any length with members of one type.
    Array(Box<Ty>),
    Tuple(Seq<Ty>),
    /// A name that stands for a type and was never replaced by it.
    Custom(Seq<char>),
}

/// An ABI type as a schema holds it.
#[derive(Debug, PartialEq, Eq)]
pub enum AbiType {
    Bool,
    /// `uintN`, with `N` the number of bits.
    Uint(u16),
    /// `intN`, with `N` the number of bits.
    Int(u16),
    Address,
    /// `bytesN`, with `N` the number of bytes.
    FixedBytes(u8),
    Bytes,
    String,
    /// `T[]`.
    Array(Box<AbiType>),
    Tuple(Vec<AbiType>),
    /// A reference to a user type that nothing has resolved.
    Custom(String),
}

/// The model of a type.
pub open spec fn ty_of(t: AbiType) -> Ty
    decreases t,
{
    match t {
        AbiType::Bool => Ty::Bool,
        AbiType::Uint(bits) => Ty::Uint(bits as nat),
        AbiType::Int(bits) => Ty::Int(bits as nat),
        AbiType::Address => Ty::Address,
        AbiType::FixedBytes(len) => Ty::FixedBytes(len as nat),
        AbiType::Bytes => Ty::Bytes,
        AbiType::String => Ty::Str,
        AbiType::Array(elem) => Ty::Array(Box::new(ty_of(*elem))),
        AbiType::Tuple(members) => Ty::Tuple(tys_of(members@)),
        AbiType::Custom(name) => Ty::Custom(name@),
    }
}

/// The models of a list of types, member by member.
pub open spec fn tys_of(ts: Seq<AbiType>) -> Seq<Ty>
    decreases ts,
{
    Seq::new(ts.len(), |i: int| if 0 <= i < ts.len() { ty_of(ts[i]) } else { Ty::Bool })
}

impl View for AbiType {
    type V = Ty;

    open spec fn view(&self) -> Ty {
        ty_of(*self)
    }
}

/// A type is resolved when it is a type of the ABI: no name is left in it,
/// an integer has 8 to 256 bits in whole bytes, a fixed byte string 1 to 32
/// bytes, and a tuple at least one member.
pub open spec fn ty_resolved(t: Ty) -> bool
    decreases t, 0nat,
{
    match t {
        Ty::Uint(bits) | Ty::Int(bits) => 8 <= bits <= 256 && bits % 8 == 0,
        Ty::FixedBytes(len) => 1 <= len <= 32,
        Ty::Array(elem) => ty_resolved(*elem),
        Ty::Tuple(members) => members.len() > 0 && tys_resolved(members, members.len()),
        Ty::Custom(_) => false,
        _ => true,
    }
}

/// Whether the first `k` types of the list are resolved.
pub open spec fn tys_resolved(ts: Seq<Ty>, k: nat) -> bool
    decreases ts, k,
{
    if k == 0 || k > ts.len() {
        true
    } else {
        tys_resolved(ts, (k - 1) as nat) && ty_resolved(ts[k - 1])
    }
}

/// A type is dynamic when the length of its encoding depends on the value:
/// strings, byte strings, arrays, and tuples with a dynamic member.
pub open spec fn ty_dynamic(t: Ty) -> bool
    decreases t, 0nat,
{
    match t {
        Ty::Bytes | Ty::Str | Ty::Array(_) => true,
        Ty::Tuple(members) => tys_dynamic(members, members.len()),
        _ => false,
    }
}

/// Whether one of the first `k` types of the list is dynamic.
pub open spec fn tys_dynamic(ts: Seq<Ty>, k: nat) -> bool
    decreases ts, k,
{
    if k == 0 || k > ts.len() {
        false
    } else {
        tys_dynamic(ts, (k - 1) as nat) || ty_dynamic(ts[k - 1])
    }
}

/// The elementary types, whose values are encoded as one word.
pub open spec fn ty_word(t: Ty) -> bool {
    t is Bool || t is Uint || t is Int || t is Address || t is FixedBytes
}

/// The type of member `i` of an array or a tuple of type `t`.
pub open spec fn member_ty(t: Ty, i: int) -> Ty {
    match t {
        Ty::Array(elem) => *elem,
        Ty::Tuple(members) => members[i],
        _ => t,
    }
}

/// The number of bytes that a member of this type takes in the head of the
/// tuple that holds it: a word for an offset where the type is dynamic,
/// else its whole encoding.
pub open spec fn head_width(t: Ty) -> nat
    decreases t, 0nat,
{
    match t {
        Ty::Tuple(members) => if ty_dynamic(t) {
            32
        } else {
            heads_width(members, members.len())
        },
        _ => 32,
    }
}

/// The head widths of the first `k` types of the list, added up.
pub open spec fn heads_width(ts: Seq<Ty>, k: nat) -> nat
    decreases ts, k,
{
    if k == 0 || k > ts.len() {
        0
    } else {
        heads_width(ts, (k - 1) as nat) + head_width(ts[k - 1])
    }
}

pub open spec fn digit(d: nat) -> char {
    if d == 0 {
        '0'
    } else if d == 1 {
        '1'
    } else if d == 2 {
        '2'
    } else if d == 3 {
        '3'
    } else if d == 4 {
        '4'
    } else if d == 5 {
        '5'
    } else if d == 6 {
        '6'
    } else if d == 7 {
        '7'
    } else if d == 8 {
        '8'
    } else {
        '9'
    }
}

/// A number in decimal, without leading zeros.
pub open spec fn decimal(n: nat) -> Seq<char>
    decreases n,
{
    if n < 10 {
        seq![digit(n)]
    } else {
        decimal(n / 10).push(digit(n % 10))
    }
}

/// The canonical name of a type, as signatures spell it: the full form
/// with the width (`uint256`), `[]` behind an array's member type, and a
/// tuple's member names between brackets, parted by commas.
pub open spec fn ty_name(t: Ty) -> Seq<char>
    decreases t, 0nat,
{
    match t {
        Ty::Bool => "bool"@,
        Ty::Uint(bits) => "uint"@ + decimal(bits),
        Ty::Int(bits) => "int"@ + decimal(bits),
        Ty::Address => "address"@,
        Ty::FixedBytes(len) => "bytes"@ + decimal(len),
        Ty::Bytes => "bytes"@,
        Ty::Str => "string"@,
        Ty::Array(elem) => ty_name(*elem) + "[]"@,
        Ty::Tuple(members) => "("@ + names_joined(members, members.len()) + ")"@,
        Ty::Custom(name) => name,
    }
}

/// The canonical names of the first `k` types of the list, parted by
/// commas.
pub open spec fn names_joined(ts: Seq<Ty>, k: nat) -> Seq<char>
    decreases ts, k,
{
    if k == 0 || k > ts.len() {
        Seq::empty()
    } else if k == 1 {
        ty_name(ts[0])
    } else {
        names_joined(ts, (k - 1) as nat) + ","@ + ty_name(ts[k - 1])
    }
}

pub proof fn lemma_tys_of_push(ts: Seq<AbiType>, t: AbiType)
    ensures
        tys_of(ts.push(t)) == tys_of(ts).push(ty_of(t)),
{
    assert(tys_of(ts.push(t)) =~= tys_of(ts).push(ty_of(t)));
}

pub proof fn lemma_tys_resolved(ts: Seq<Ty>, k: nat)
    requires
        k <= ts.len(),
    ensures
        tys_resolved(ts, k) <==> forall|i: int| 0 <= i < k ==> ty_resolved(#[trigger] ts[i]),
    decreases k,
{
    if k > 0 {
        lemma_tys_resolved(ts, (k - 1) as nat);
    }
}

pub proof fn lemma_tys_dynamic(ts: Seq<Ty>, k: nat)
    requires
        k <= ts.len(),
    ensures
        tys_dynamic(ts, k) <==> exists|i: int| 0 <= i < k && ty_dynamic(#[trigger] ts[i]),
    decreases k,
{
    if k > 0 {
        lemma_tys_dynamic(ts, (k - 1) as nat);
        if ty_dynamic(ts[k - 1]) {
        } else if tys_dynamic(ts, k) {
            let i = choose|i: int| 0 <= i < k - 1 && ty_dynamic(#[trigger] ts[i]);
            assert(0 <= i < k && ty_dynamic(ts[i]));
        }
    }
}

/// A resolved type takes at least a word in a head.
pub proof fn lemma_head_width_resolved(t: Ty)
    requires
        ty_resolved(t),
    ensures
        head_width(t) >= 32,
    decreases t,
{
    if let Ty::Tuple(members) = t {
        if !ty_dynamic(t) {
            lemma_tys_resolved(members, members.len());
            lemma_head_width_resolved(members[0]);
            lemma_heads_width_grows(members, 1, members.len());
            reveal_with_fuel(heads_width, 2);
        }
    }
}

pub proof fn lemma_heads_width_grows(ts: Seq<Ty>, a: nat, b: nat)
    requires
        a <= b <= ts.len(),
    ensures
        heads_width(ts, a) <= heads_width(ts, b),
    decreases b,
{
    if a < b {
        lemma_heads_width_grows(ts, a, (b - 1) as nat);
    }
}

fn digit_str(d: u16) -> (s: &'static str)
    requires
        d < 10,
    ensures
        s@ == seq![digit(d as nat)],
{
    proof {
        reveal_strlit("0");
        reveal_strlit("1");
        reveal_strlit("2");
        reveal_strlit("3");
        reveal_strlit("4");
        reveal_strlit("5");
        reveal_strlit("6");
        reveal_strlit("7");
        reveal_strlit("8");
        reveal_strlit("9");
    }
    let s: &'static str = match d {
        0 => "0",
        1 => "1",
        2 => "2",
        3 => "3",
        4 => "4",
        5 => "5",
        6 => "6",
        7 => "7",
        8 => "8",
        _ => "9",
    };
    assert(s@ =~= seq![digit(d as nat)]);
    s
}

/// Appends `n` in decimal.
pub fn push_decimal(out: &mut String, n: u16)
    ensures
        final(out)@ == old(out)@ + decimal(n as nat),
    decreases n,
{
    if n >= 10 {
        push_decimal(out, n / 10);
    }
    out.append(digit_str(n % 10));
    proof {
        if n >= 10 {
            assert(final(out)@ =~= old(out)@ + decimal(n as nat));
        }
    }
}

impl AbiType {
    /// Whether this is a type of the ABI, with nothing left to resolve.
    #[verifier::loop_isolation(false)]
    pub fn is_resolved(&self) -> (r: bool)
        ensures
            r == ty_resolved(self@),
        decreases self,
    {
        match self {
            AbiType::Uint(bits) | AbiType::Int(bits) => 8 <= *bits && *bits <= 256 && *bits % 8
                == 0,
            AbiType::FixedBytes(len) => 1 <= *len && *len <= 32,
            AbiType::Array(elem) => elem.is_resolved(),
            AbiType::Tuple(members) => {
                let mut i: usize = 0;
                while i < members.len()
                    invariant
                        i <= members@.len(),
                        tys_resolved(tys_of(members@), i as nat),
                    decreases members@.len() - i,
                {
                    if !members[i].is_resolved() {
                        proof {
                            lemma_tys_resolved(tys_of(members@), members@.len());
                            assert(!ty_resolved(tys_of(members@)[i as int]));
                        }
                        return false;
                    }
                    i += 1;
                }
                members.len() > 0
            },
            AbiType::Custom(_) => false,
            _ => true,
        }
    }

    /// Whether the length of a value's encoding depends on the value.
    #[verifier::loop_isolation(false)]
    pub fn is_dynamic(&self) -> (r: bool)
        ensures
            r == ty_dynamic(self@),
        decreases self,
    {
        match self {
            AbiType::Bytes | AbiType::String | AbiType::Array(_) => true,
            AbiType::Tuple(members) => {
                let mut i: usize = 0;
                while i < members.len()
                    invariant
                        i <= members@.len(),
                        !tys_dynamic(tys_of(members@), i as nat),
                    decreases members@.len() - i,
                {
                    if members[i].is_dynamic() {
                        proof {
                            lemma_tys_dynamic(tys_of(members@), members@.len());
                            assert(ty_dynamic(tys_of(members@)[i as int]));
                        }
                        return true;
                    }
                    i += 1;
                }
                false
            },
            _ => false,
        }
    }

    /// Whether a value of this type is encoded as one word.
    pub fn is_word(&self) -> (r: bool)
        ensures
            r == ty_word(self@),
    {
        match self {
            AbiType::Bool
            | AbiType::Uint(_)
            | AbiType::Int(_)
            | AbiType::Address
            | AbiType::FixedBytes(_) => true,
            _ => false,
        }
    }

    /// Appends the canonical name of the type.
    #[verifier::loop_isolation(false)]
    pub fn write_name(&self, out: &mut String)
        ensures
            final(out)@ == old(out)@ + ty_name(self@),
        decreases self,
    {
        match self {
            AbiType::Bool => out.append("bool"),
            AbiType::Uint(bits) => {
                out.append("uint");
                push_decimal(out, *bits);
                assert(final(out)@ =~= old(out)@ + ty_name(self@));
            },
            AbiType::Int(bits) => {
                out.append("int");
                push_decimal(out, *bits);
                assert(final(out)@ =~= old(out)@ + ty_name(self@));
            },
            AbiType::Address => out.append("address"),
            AbiType::FixedBytes(len) => {
                out.append("bytes");
                push_decimal(out, *len as u16);
                assert(final(out)@ =~= old(out)@ + ty_name(self@));
            },
            AbiType::Bytes => out.append("bytes"),
            AbiType::String => out.append("string"),
            AbiType::Array(elem) => {
                elem.write_name(out);
                out.append("[]");
                assert(final(out)@ =~= old(out)@ + ty_name(self@));
            },
            AbiType::Tuple(members) => {
                out.append("(");
                let ghost tys = tys_of(members@);
                let mut i: usize = 0;
                while i < members.len()
                    invariant
                        i <= members@.len(),
                        tys == tys_of(members@),
                        out@ == old(out)@ + "("@ + names_joined(tys, i as nat),
                    decreases members@.len() - i,
                {
                    if i > 0 {
                        out.append(",");
                    }
                    members[i].write_name(out);
                    i += 1;
                    assert(out@ =~= old(out)@ + "("@ + names_joined(tys, i as nat));
                }
                out.append(")");
                assert(final(out)@ =~= old(out)@ + ty_name(self@));
            },
            AbiType::Custom(name) => out.append(name.as_str()),
        }
    }

    /// The canonical name of the type.
    pub fn canonical_name(&self) -> (name: String)
        ensures
            name@ == ty_name(self@),
    {
        let mut name = String::new();
        self.write_name(&mut name);
        assert(name@ =~= ty_name(self@));
        name
    }
}

impl Clone for AbiType {
    #[verifier::loop_isolation(false)]
    fn clone(&self) -> (r: Self)
        ensures
            r@ == self@,
        decreases self,
    {
        match self {
            AbiType::Bool => AbiType::Bool,
            AbiType::Uint(bits) => AbiType::Uint(*bits),
            AbiType::Int(bits) => AbiType::Int(*bits),
            AbiType::Address => AbiType::Address,
            AbiType::FixedBytes(len) => AbiType::FixedBytes(*len),
            AbiType::Bytes => AbiType::Bytes,
            AbiType::String => AbiType::String,
            AbiType::Array(elem) => AbiType::Array(Box::new((&**elem).clone())),
            AbiType::Tuple(members) => {
                let mut copy: Vec<AbiType> = Vec::new();
                let mut i: usize = 0;
                while i < members.len()
                    invariant
                        i <= members@.len(),
                        copy@.len() == i,
                        forall|j: int| 0 <= j < i ==> ty_of(#[trigger] copy@[j]) == ty_of(members@[j]),
                    decreases members@.len() - i,
                {
                    copy.push(members[i].clone());
                    i += 1;
                }
                assert(tys_of(copy@) =~= tys_of(members@));
                AbiType::Tuple(copy)
            },
            AbiType::Custom(name) => AbiType::Custom(name.clone()),
        }
    }
}

} // verus!
