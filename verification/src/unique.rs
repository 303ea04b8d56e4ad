//! Signatures are read in one way only: two events with one signature
//! have one name and one list of parameter types.

use crate::schema::signature_of;
use crate::types::{decimal, digit, names_joined, ty_name, ty_resolved, Ty};
use vstd::prelude::*;

verus! {

/// The characters that part and close the names of types.
pub open spec fn mark(c: char) -> bool {
    c == '(' || c == ')' || c == ',' || c == '[' || c == ']'
}

pub open spec fn no_marks(s: Seq<char>) -> bool {
    forall|i: int| 0 <= i < s.len() ==> !mark(#[trigger] s[i])
}

/// What may follow the name of a type that is no array: nothing, or a
/// mark.
pub open spec fn stops(r: Seq<char>) -> bool {
    r.len() == 0 || mark(r[0])
}

/// What may follow the name of a type in a list: nothing, a comma or the
/// closing bracket.
pub open spec fn closes(r: Seq<char>) -> bool {
    r.len() == 0 || r[0] == ',' || r[0] == ')'
}

/// The types whose name is one word: all but arrays and tuples.
pub open spec fn plain(t: Ty) -> bool {
    !(t is Array) && !(t is Tuple)
}

/// The type that is left when the arrays around a type are taken away.
pub open spec fn core_of(t: Ty) -> Ty
    decreases t,
{
    match t {
        Ty::Array(elem) => core_of(*elem),
        _ => t,
    }
}

/// The number of arrays around the core of a type.
pub open spec fn depth_of(t: Ty) -> nat
    decreases t,
{
    match t {
        Ty::Array(elem) => 1 + depth_of(*elem),
        _ => 0,
    }
}

/// `d` pairs of square brackets.
pub open spec fn brackets(d: nat) -> Seq<char>
    decreases d,
{
    if d == 0 {
        Seq::empty()
    } else {
        brackets((d - 1) as nat) + "[]"@
    }
}

/// What follows member `i - 1` in the name of a tuple that `r` follows:
/// the members from `i` on, each behind a comma, the closing bracket and
/// `r`.
pub open spec fn tail_from(ts: Seq<Ty>, i: nat, r: Seq<char>) -> Seq<char>
    decreases ts.len() - i,
{
    if i >= ts.len() {
        ")"@ + r
    } else {
        ","@ + ty_name(ts[i as int]) + tail_from(ts, i + 1, r)
    }
}

pub open spec fn all_resolved(ts: Seq<Ty>) -> bool {
    forall|i: int| 0 <= i < ts.len() ==> ty_resolved(#[trigger] ts[i])
}

pub proof fn lemma_core(t: Ty)
    ensures
        t is Array ==> decreases_to!(t => core_of(t)),
        !(t is Array) ==> core_of(t) == t,
        !(core_of(t) is Array),
        ty_resolved(t) ==> ty_resolved(core_of(t)),
        ty_name(t) == ty_name(core_of(t)) + brackets(depth_of(t)),
    decreases t,
{
    if let Ty::Array(elem) = t {
        lemma_core(*elem);
        assert(ty_name(t) =~= ty_name(core_of(t)) + brackets(depth_of(t)));
    } else {
        assert(ty_name(t) =~= ty_name(core_of(t)) + brackets(depth_of(t)));
    }
}

/// A type is its core with its arrays around it.
pub proof fn lemma_same_core(a: Ty, b: Ty)
    requires
        core_of(a) == core_of(b),
        depth_of(a) == depth_of(b),
    ensures
        a == b,
    decreases a,
{
    if let Ty::Array(elem_a) = a {
        if let Ty::Array(elem_b) = b {
            lemma_same_core(*elem_a, *elem_b);
        }
    } else {
        if let Ty::Array(elem_b) = b {
        }
    }
}

pub proof fn lemma_brackets_front(d: nat)
    requires
        d > 0,
    ensures
        brackets(d) == "[]"@ + brackets((d - 1) as nat),
        brackets(d).len() == 2 * d,
        brackets(d)[0] == '[',
    decreases d,
{
    reveal_strlit("[]");
    if d > 1 {
        lemma_brackets_front((d - 1) as nat);
        assert(brackets(d) =~= "[]"@ + brackets((d - 1) as nat));
    } else {
        assert(brackets(1) =~= "[]"@ + brackets(0));
    }
}

pub proof fn lemma_cancel(p: Seq<char>, x: Seq<char>, y: Seq<char>)
    requires
        p + x == p + y,
    ensures
        x == y,
{
    assert(x =~= (p + x).subrange(p.len() as int, (p + x).len() as int));
    assert(y =~= (p + y).subrange(p.len() as int, (p + y).len() as int));
}

/// Brackets in front of what closes a name are counted in one way.
pub proof fn lemma_brackets_unique(d1: nat, d2: nat, r1: Seq<char>, r2: Seq<char>)
    requires
        closes(r1),
        closes(r2),
        brackets(d1) + r1 == brackets(d2) + r2,
    ensures
        d1 == d2,
        r1 == r2,
    decreases d1,
{
    let whole = brackets(d1) + r1;
    if d1 == 0 {
        if d2 > 0 {
            lemma_brackets_front(d2);
            assert(whole[0] == r1[0]);
            assert((brackets(d2) + r2)[0] == '[');
        }
        assert(r1 =~= whole);
        assert(r2 =~= brackets(d2) + r2);
    } else {
        lemma_brackets_front(d1);
        if d2 == 0 {
            assert(whole[0] == '[');
            assert((brackets(d2) + r2)[0] == r2[0]);
            assert(false);
        } else {
            lemma_brackets_front(d2);
            let a = brackets((d1 - 1) as nat) + r1;
            let b = brackets((d2 - 1) as nat) + r2;
            assert("[]"@ + a =~= brackets(d1) + r1);
            assert("[]"@ + b =~= brackets(d2) + r2);
            lemma_cancel("[]"@, a, b);
            lemma_brackets_unique((d1 - 1) as nat, (d2 - 1) as nat, r1, r2);
        }
    }
}

/// A word without marks ends where the first mark stands.
pub proof fn lemma_word_unique(a: Seq<char>, b: Seq<char>, r1: Seq<char>, r2: Seq<char>)
    requires
        no_marks(a),
        no_marks(b),
        stops(r1),
        stops(r2),
        a + r1 == b + r2,
    ensures
        a == b,
        r1 == r2,
{
    let whole = a + r1;
    assert(whole.len() == a.len() + r1.len());
    assert((b + r2).len() == b.len() + r2.len());
    if a.len() < b.len() {
        assert(whole[a.len() as int] == r1[0]);
        assert((b + r2)[a.len() as int] == b[a.len() as int]);
        assert(false);
    }
    if b.len() < a.len() {
        assert((b + r2)[b.len() as int] == r2[0]);
        assert(whole[b.len() as int] == a[b.len() as int]);
        assert(false);
    }
    assert forall|i: int| 0 <= i < a.len() implies a[i] == b[i] by {
        assert(whole[i] == a[i]);
        assert((b + r2)[i] == b[i]);
    }
    assert(a =~= b);
    lemma_cancel(a, r1, r2);
}

pub open spec fn is_digit(c: char) -> bool {
    c == '0' || c == '1' || c == '2' || c == '3' || c == '4' || c == '5' || c == '6' || c == '7'
        || c == '8' || c == '9'
}

pub proof fn lemma_decimal_digits(n: nat)
    ensures
        decimal(n).len() >= 1,
        n >= 10 ==> decimal(n).len() >= 2,
        forall|i: int| 0 <= i < decimal(n).len() ==> is_digit(#[trigger] decimal(n)[i]),
    decreases n,
{
    if n >= 10 {
        lemma_decimal_digits(n / 10);
    }
}

/// A number is read from its decimal digits in one way.
pub proof fn lemma_decimal_unique(n: nat, m: nat)
    requires
        decimal(n) == decimal(m),
    ensures
        n == m,
    decreases n,
{
    lemma_decimal_digits(n);
    lemma_decimal_digits(m);
    if n < 10 {
        assert(decimal(n)[0] == digit(n));
        if m < 10 {
            assert(decimal(m)[0] == digit(m));
        }
    } else {
        if m >= 10 {
            assert(decimal(n).drop_last() =~= decimal(n / 10));
            assert(decimal(m).drop_last() =~= decimal(m / 10));
            assert(decimal(n).last() == digit(n % 10));
            assert(decimal(m).last() == digit(m % 10));
            lemma_decimal_unique(n / 10, m / 10);
        }
    }
}

/// How the name of a plain type starts, and that no mark stands in it.
pub proof fn lemma_plain_shape(t: Ty)
    requires
        plain(t),
        ty_resolved(t),
    ensures
        ty_name(t).len() >= 4,
        no_marks(ty_name(t)),
        match t {
            Ty::Bool => ty_name(t)[0] == 'b' && ty_name(t)[1] == 'o',
            Ty::Uint(_) => ty_name(t)[0] == 'u',
            Ty::Int(_) => ty_name(t)[0] == 'i',
            Ty::Address => ty_name(t)[0] == 'a',
            Ty::FixedBytes(_) => ty_name(t)[0] == 'b' && ty_name(t)[1] == 'y' && ty_name(t).len()
                > 5,
            Ty::Bytes => ty_name(t)[0] == 'b' && ty_name(t)[1] == 'y' && ty_name(t).len() == 5,
            _ => ty_name(t)[0] == 's',
        },
{
    reveal_strlit("bool");
    reveal_strlit("uint");
    reveal_strlit("int");
    reveal_strlit("address");
    reveal_strlit("bytes");
    reveal_strlit("string");
    match t {
        Ty::Uint(bits) => {
            lemma_decimal_digits(bits);
        },
        Ty::Int(bits) => {
            lemma_decimal_digits(bits);
        },
        Ty::FixedBytes(len) => {
            lemma_decimal_digits(len);
        },
        _ => {},
    }
}

/// Plain types with one name are one type.
pub proof fn lemma_plain_unique(a: Ty, b: Ty)
    requires
        plain(a),
        plain(b),
        ty_resolved(a),
        ty_resolved(b),
        ty_name(a) == ty_name(b),
    ensures
        a == b,
{
    lemma_plain_shape(a);
    lemma_plain_shape(b);
    match a {
        Ty::Uint(bits) => {
            lemma_cancel("uint"@, decimal(bits), decimal(b->Uint_0));
            lemma_decimal_unique(bits, b->Uint_0);
        },
        Ty::Int(bits) => {
            lemma_cancel("int"@, decimal(bits), decimal(b->Int_0));
            lemma_decimal_unique(bits, b->Int_0);
        },
        Ty::FixedBytes(len) => {
            lemma_cancel("bytes"@, decimal(len), decimal(b->FixedBytes_0));
            lemma_decimal_unique(len, b->FixedBytes_0);
        },
        _ => {},
    }
}

/// The name of a resolved type starts with a letter or with the opening
/// bracket of a tuple.
pub proof fn lemma_first_char(t: Ty)
    requires
        ty_resolved(t),
    ensures
        ty_name(t).len() > 0,
        ty_name(t)[0] != ')',
        ty_name(t)[0] != ',',
        ty_name(t)[0] == '(' <==> core_of(t) is Tuple,
    decreases t,
{
    reveal_strlit("(");
    match t {
        Ty::Array(elem) => {
            lemma_first_char(*elem);
        },
        Ty::Tuple(_) => {},
        _ => {
            lemma_plain_shape(t);
        },
    }
}

pub proof fn lemma_tail_closes(ts: Seq<Ty>, i: nat, r: Seq<char>)
    ensures
        tail_from(ts, i, r).len() > 0,
        closes(tail_from(ts, i, r)),
        i < ts.len() ==> tail_from(ts, i, r)[0] == ',',
        i >= ts.len() ==> tail_from(ts, i, r)[0] == ')',
{
    reveal_strlit(")");
    reveal_strlit(",");
}

/// The names of a list, parted by commas, with the closing bracket and
/// `r` behind them, are the names of the first `k` with what follows them.
pub proof fn lemma_joined_tail(ts: Seq<Ty>, k: nat, r: Seq<char>)
    requires
        1 <= k <= ts.len(),
    ensures
        names_joined(ts, k) + tail_from(ts, k, r) == names_joined(ts, ts.len()) + ")"@ + r,
    decreases ts.len() - k,
{
    if k == ts.len() {
        assert(names_joined(ts, k) + tail_from(ts, k, r) =~= names_joined(ts, ts.len()) + ")"@
            + r);
    } else {
        lemma_joined_tail(ts, k + 1, r);
        assert(names_joined(ts, k) + tail_from(ts, k, r) =~= names_joined(ts, k + 1) + tail_from(
            ts,
            k + 1,
            r,
        ));
    }
}

/// A resolved type in front of what closes its name is read in one way.
pub proof fn lemma_type_unique(a: Ty, b: Ty, r1: Seq<char>, r2: Seq<char>)
    requires
        ty_resolved(a),
        ty_resolved(b),
        closes(r1),
        closes(r2),
        ty_name(a) + r1 == ty_name(b) + r2,
    ensures
        a == b,
        r1 == r2,
    decreases a, 2nat, 0nat,
{
    lemma_core(a);
    lemma_core(b);
    let rest1 = brackets(depth_of(a)) + r1;
    let rest2 = brackets(depth_of(b)) + r2;
    assert(ty_name(core_of(a)) + rest1 =~= ty_name(a) + r1);
    assert(ty_name(core_of(b)) + rest2 =~= ty_name(b) + r2);
    if depth_of(a) > 0 {
        lemma_brackets_front(depth_of(a));
        assert(rest1[0] == '[');
    }
    if depth_of(b) > 0 {
        lemma_brackets_front(depth_of(b));
        assert(rest2[0] == '[');
    }
    assert(brackets(0) + r1 =~= r1);
    assert(brackets(0) + r2 =~= r2);
    lemma_core_unique(core_of(a), core_of(b), rest1, rest2);
    lemma_brackets_unique(depth_of(a), depth_of(b), r1, r2);
    lemma_same_core(a, b);
}

/// A resolved type that is no array, in front of nothing or of a mark, is
/// read in one way.
pub proof fn lemma_core_unique(a: Ty, b: Ty, r1: Seq<char>, r2: Seq<char>)
    requires
        ty_resolved(a),
        ty_resolved(b),
        !(a is Array),
        !(b is Array),
        stops(r1),
        stops(r2),
        ty_name(a) + r1 == ty_name(b) + r2,
    ensures
        a == b,
        r1 == r2,
    decreases a, 1nat, 0nat,
{
    reveal_strlit("(");
    reveal_strlit(")");
    lemma_first_char(a);
    lemma_first_char(b);
    assert((ty_name(a) + r1)[0] == ty_name(a)[0]);
    assert((ty_name(b) + r2)[0] == ty_name(b)[0]);
    match a {
        Ty::Tuple(ms1) => {
            let ms2 = b->Tuple_0;
            crate::types::lemma_tys_resolved(ms1, ms1.len());
            crate::types::lemma_tys_resolved(ms2, ms2.len());
            let x = names_joined(ms1, ms1.len()) + ")"@ + r1;
            let y = names_joined(ms2, ms2.len()) + ")"@ + r2;
            assert("("@ + x =~= ty_name(a) + r1);
            assert("("@ + y =~= ty_name(b) + r2);
            lemma_cancel("("@, x, y);
            lemma_list_unique(ms1, ms2, r1, r2);
        },
        _ => {
            lemma_plain_shape(a);
            lemma_plain_shape(b);
            lemma_word_unique(ty_name(a), ty_name(b), r1, r2);
            lemma_plain_unique(a, b);
        },
    }
}

/// A list of resolved types in front of the closing bracket is read in
/// one way.
pub proof fn lemma_list_unique(ms1: Seq<Ty>, ms2: Seq<Ty>, r1: Seq<char>, r2: Seq<char>)
    requires
        all_resolved(ms1),
        all_resolved(ms2),
        names_joined(ms1, ms1.len()) + ")"@ + r1 == names_joined(ms2, ms2.len()) + ")"@ + r2,
    ensures
        ms1 == ms2,
        r1 == r2,
    decreases ms1, 1nat, 0nat,
{
    reveal_strlit(")");
    let x = names_joined(ms1, ms1.len()) + ")"@ + r1;
    let y = names_joined(ms2, ms2.len()) + ")"@ + r2;
    if ms1.len() == 0 || ms2.len() == 0 {
        if ms1.len() > 0 {
            lemma_first_char(ms1[0]);
            lemma_joined_tail(ms1, 1, r1);
            assert(x[0] == ty_name(ms1[0])[0]);
            assert(y[0] == ')');
            assert(false);
        }
        if ms2.len() > 0 {
            lemma_first_char(ms2[0]);
            lemma_joined_tail(ms2, 1, r2);
            assert(y[0] == ty_name(ms2[0])[0]);
            assert(x[0] == ')');
            assert(false);
        }
        assert(ms1 =~= ms2);
        assert(x =~= ")"@ + r1);
        assert(y =~= ")"@ + r2);
        lemma_cancel(")"@, r1, r2);
    } else {
        lemma_joined_tail(ms1, 1, r1);
        lemma_joined_tail(ms2, 1, r2);
        lemma_tail_closes(ms1, 1, r1);
        lemma_tail_closes(ms2, 1, r2);
        lemma_type_unique(ms1[0], ms2[0], tail_from(ms1, 1, r1), tail_from(ms2, 1, r2));
        lemma_tail_unique(ms1, ms2, 1, r1, r2);
    }
}

/// What follows the first `i` members of two lists that agree so far is
/// read in one way.
pub proof fn lemma_tail_unique(ms1: Seq<Ty>, ms2: Seq<Ty>, i: nat, r1: Seq<char>, r2: Seq<char>)
    requires
        all_resolved(ms1),
        all_resolved(ms2),
        i <= ms1.len(),
        i <= ms2.len(),
        forall|j: int| 0 <= j < i ==> ms1[j] == ms2[j],
        tail_from(ms1, i, r1) == tail_from(ms2, i, r2),
    ensures
        ms1 == ms2,
        r1 == r2,
    decreases ms1, 0nat, ms1.len() - i,
{
    reveal_strlit(")");
    reveal_strlit(",");
    lemma_tail_closes(ms1, i, r1);
    lemma_tail_closes(ms2, i, r2);
    if i >= ms1.len() || i >= ms2.len() {
        assert(ms1.len() == ms2.len());
        assert(ms1 =~= ms2);
        lemma_cancel(")"@, r1, r2);
    } else {
        let x = ty_name(ms1[i as int]) + tail_from(ms1, i + 1, r1);
        let y = ty_name(ms2[i as int]) + tail_from(ms2, i + 1, r2);
        assert(","@ + x =~= tail_from(ms1, i, r1));
        assert(","@ + y =~= tail_from(ms2, i, r2));
        lemma_cancel(","@, x, y);
        lemma_tail_closes(ms1, i + 1, r1);
        lemma_tail_closes(ms2, i + 1, r2);
        lemma_type_unique(
            ms1[i as int],
            ms2[i as int],
            tail_from(ms1, i + 1, r1),
            tail_from(ms2, i + 1, r2),
        );
        lemma_tail_unique(ms1, ms2, i + 1, r1, r2);
    }
}

/// The signature tells the name and the types: two events whose names
/// hold no opening bracket and whose parameter types are resolved have one
/// signature only if they have one name and one list of types. So another
/// name, or another type in any place, gives another signature.
pub proof fn lemma_signature_unique(
    name1: Seq<char>,
    tys1: Seq<Ty>,
    name2: Seq<char>,
    tys2: Seq<Ty>,
)
    requires
        !name1.contains('('),
        !name2.contains('('),
        all_resolved(tys1),
        all_resolved(tys2),
        signature_of(name1, tys1) == signature_of(name2, tys2),
    ensures
        name1 == name2,
        tys1 == tys2,
{
    reveal_strlit("(");
    let x = names_joined(tys1, tys1.len()) + ")"@;
    let y = names_joined(tys2, tys2.len()) + ")"@;
    let s1 = signature_of(name1, tys1);
    let s2 = signature_of(name2, tys2);
    assert(s1 =~= name1 + ("("@ + x));
    assert(s2 =~= name2 + ("("@ + y));
    if name1.len() < name2.len() {
        assert(s1[name1.len() as int] == '(');
        assert(s2[name1.len() as int] == name2[name1.len() as int]);
        assert(name2.contains('('));
    }
    if name2.len() < name1.len() {
        assert(s2[name2.len() as int] == '(');
        assert(s1[name2.len() as int] == name1[name2.len() as int]);
        assert(name1.contains('('));
    }
    assert forall|i: int| 0 <= i < name1.len() implies name1[i] == name2[i] by {
        assert(s1[i] == name1[i]);
        assert(s2[i] == name2[i]);
    }
    assert(name1 =~= name2);
    lemma_cancel(name1, "("@ + x, "("@ + y);
    lemma_cancel("("@, x, y);
    assert(x + Seq::<char>::empty() =~= x);
    assert(y + Seq::<char>::empty() =~= y);
    lemma_list_unique(tys1, tys2, Seq::empty(), Seq::empty());
}

} // verus!
