//! Event schemas: the name of an event, its parameters in the order of
//! their declaration, and what follows from them alone: the signature,
//! the selector, the number of topics and the types of topics and data.

use crate::error::Error;
use crate::hash::{hex_prefixed, keccak, keccak256, to_hex_prefixed};
use crate::types::{names_joined, ty_dynamic, ty_name, ty_resolved, ty_word, AbiType, Ty};
use vstd::prelude::*;
use vstd::string::*;
use vstd::utf8::encode_utf8;

verus! {

/// The most topics that the transport carries with one event.
pub const MAX_TOPICS: usize = 4;

/// The mathematical model of a parameter.
pub struct Param {
    pub name: Option<Seq<char>>,
    pub ty: Ty,
    pub indexed: bool,
}

/// The mathematical model of a schema.
pub struct Schema {
    pub name: Seq<char>,
    pub params: Seq<Param>,
    pub anonymous: bool,
}

/// A parameter of an event.
#[derive(Debug, Clone, PartialEq, Eq)]
pub struct EventParameter {
    pub name: Option<String>,
    pub ty: AbiType,
    /// Whether the parameter travels as a topic, not in the data.
    pub indexed: bool,
}

/// The description of an event. `new` builds it, and holds the signature
/// and the selector ready from then on.
#[derive(Debug, Clone, PartialEq, Eq)]
pub struct EventSchema {
    name: String,
    parameters: Vec<EventParameter>,
    anonymous: bool,
    signature: String,
    selector: [u8; 32],
}

/// A parameter as tools that know nothing of the codec see it.
#[derive(Debug, Clone, PartialEq, Eq)]
pub struct ParameterEntry {
    /// The parameter's name; empty where it has none.
    pub name: String,
    /// The canonical name of the parameter's type.
    pub ty: String,
    pub indexed: bool,
}

/// An event as tools that know nothing of the codec see it.
#[derive(Debug, Clone, PartialEq, Eq)]
pub struct EventDescriptor {
    pub name: String,
    pub anonymous: bool,
    pub inputs: Vec<ParameterEntry>,
}

impl View for EventParameter {
    type V = Param;

    open spec fn view(&self) -> Param {
        Param {
            name: match self.name {
                Some(name) => Some(name@),
                None => None,
            },
            ty: self.ty@,
            indexed: self.indexed,
        }
    }
}

/// The models of a list of parameters, one by one.
pub open spec fn params_of(ps: Seq<EventParameter>) -> Seq<Param> {
    Seq::new(ps.len(), |i: int| ps[i]@)
}

impl View for EventSchema {
    type V = Schema;

    closed spec fn view(&self) -> Schema {
        Schema {
            name: self.name@,
            params: params_of(self.parameters@),
            anonymous: self.anonymous,
        }
    }
}

/// Whether the entry describes the parameter.
pub open spec fn describes(entry: ParameterEntry, p: Param) -> bool {
    &&& entry.name@ == match p.name {
        Some(name) => name,
        None => Seq::empty(),
    }
    &&& entry.ty@ == ty_name(p.ty)
    &&& entry.indexed == p.indexed
}

/// The types of the parameters, in their order.
pub open spec fn param_tys(ps: Seq<Param>) -> Seq<Ty> {
    Seq::new(ps.len(), |i: int| ps[i].ty)
}

/// The signature of an event: its name, then between brackets the
/// canonical names of the types of its parameters, parted by commas, with
/// no space anywhere.
pub open spec fn signature_of(name: Seq<char>, tys: Seq<Ty>) -> Seq<char> {
    name + "("@ + names_joined(tys, tys.len()) + ")"@
}

/// The selector of an event with that signature: the whole digest of the
/// signature's bytes in UTF-8.
pub open spec fn selector_of(signature: Seq<char>) -> Seq<u8> {
    keccak256(encode_utf8(signature))
}

pub open spec fn schema_signature(s: Schema) -> Seq<char> {
    signature_of(s.name, param_tys(s.params))
}

pub open spec fn schema_selector(s: Schema) -> Seq<u8> {
    selector_of(schema_signature(s))
}

/// Whether a topic carries the parameter as a digest: so it is where the
/// parameter is indexed and its type dynamic.
pub open spec fn hashed(p: Param) -> bool {
    p.indexed && ty_dynamic(p.ty)
}

/// The number of indexed parameters among the first `k`.
pub open spec fn indexed_count(ps: Seq<Param>, k: nat) -> nat
    decreases k,
{
    if k == 0 || k > ps.len() {
        0
    } else {
        indexed_count(ps, (k - 1) as nat) + if ps[k - 1].indexed {
            1nat
        } else {
            0nat
        }
    }
}

/// The number of topics of an event: one for the selector unless the
/// event is anonymous, and one for each indexed parameter.
pub open spec fn topic_count(s: Schema) -> nat {
    indexed_count(s.params, s.params.len()) + if s.anonymous {
        0nat
    } else {
        1nat
    }
}

/// Whether a topic can carry the parameter if it is indexed: as a digest,
/// or as the one word of an elementary type.
pub open spec fn fits_topic(p: Param) -> bool {
    p.indexed ==> ty_dynamic(p.ty) || ty_word(p.ty)
}

/// A schema is well formed when every parameter has a resolved type, a
/// topic can carry each indexed parameter, and the topics are no more than
/// the transport carries.
pub open spec fn schema_wf(s: Schema) -> bool {
    &&& forall|i: int| 0 <= i < s.params.len() ==> ty_resolved(#[trigger] s.params[i].ty)
    &&& forall|i: int| 0 <= i < s.params.len() ==> fits_topic(#[trigger] s.params[i])
    &&& topic_count(s) <= MAX_TOPICS
}

/// What is wrong with a schema, if anything: a type that is not resolved,
/// else an indexed parameter that no topic can carry, else more topics
/// than the transport carries.
pub open spec fn schema_fault(s: Schema) -> Option<Error> {
    if exists|i: int| 0 <= i < s.params.len() && !ty_resolved(#[trigger] s.params[i].ty) {
        Some(Error::UnresolvedType)
    } else if exists|i: int| 0 <= i < s.params.len() && !fits_topic(#[trigger] s.params[i]) {
        Some(Error::TypeMismatch)
    } else if topic_count(s) > MAX_TOPICS {
        Some(Error::TopicOverrun)
    } else {
        None
    }
}

/// The type of the topic of an indexed parameter: 32 bytes where the
/// parameter's own type is dynamic, else that type.
pub open spec fn topic_ty(p: Param) -> Ty {
    if ty_dynamic(p.ty) {
        Ty::FixedBytes(32)
    } else {
        p.ty
    }
}

/// The type of the field that a decoded record has for the parameter: 32
/// bytes where a topic carries it as a digest, else the parameter's type.
pub open spec fn field_ty(p: Param) -> Ty {
    if hashed(p) {
        Ty::FixedBytes(32)
    } else {
        p.ty
    }
}

/// The topic types of the indexed parameters among the first `k`.
pub open spec fn topic_tys(ps: Seq<Param>, k: nat) -> Seq<Ty>
    decreases k,
{
    if k == 0 || k > ps.len() {
        Seq::empty()
    } else if ps[k - 1].indexed {
        topic_tys(ps, (k - 1) as nat).push(topic_ty(ps[k - 1]))
    } else {
        topic_tys(ps, (k - 1) as nat)
    }
}

/// The types of the parameters among the first `k` that are not indexed.
pub open spec fn data_tys(ps: Seq<Param>, k: nat) -> Seq<Ty>
    decreases k,
{
    if k == 0 || k > ps.len() {
        Seq::empty()
    } else if ps[k - 1].indexed {
        data_tys(ps, (k - 1) as nat)
    } else {
        data_tys(ps, (k - 1) as nat).push(ps[k - 1].ty)
    }
}

pub proof fn lemma_indexed_count_bound(ps: Seq<Param>, k: nat)
    requires
        k <= ps.len(),
    ensures
        indexed_count(ps, k) <= k,
        topic_tys(ps, k).len() == indexed_count(ps, k),
        data_tys(ps, k).len() == k - indexed_count(ps, k),
    decreases k,
{
    if k > 0 {
        lemma_indexed_count_bound(ps, (k - 1) as nat);
    }
}

pub proof fn lemma_indexed_count_grows(ps: Seq<Param>, a: nat, b: nat)
    requires
        a <= b <= ps.len(),
    ensures
        indexed_count(ps, a) <= indexed_count(ps, b),
    decreases b,
{
    if a < b {
        lemma_indexed_count_grows(ps, a, (b - 1) as nat);
    }
}

impl EventParameter {
    /// The type of the parameter's topic: 32 bytes where its own type is
    /// dynamic, else that type.
    pub fn topic_type(&self) -> (t: AbiType)
        ensures
            t@ == topic_ty(self@),
    {
        if self.ty.is_dynamic() {
            AbiType::FixedBytes(32)
        } else {
            self.ty.clone()
        }
    }

    /// Whether a topic carries the parameter as a digest.
    pub fn indexed_as_hash(&self) -> (r: bool)
        ensures
            r == hashed(self@),
    {
        self.indexed && self.ty.is_dynamic()
    }

    /// The type of the field that a decoded record has for the parameter.
    pub fn field_type(&self) -> (t: AbiType)
        ensures
            t@ == field_ty(self@),
    {
        if self.indexed_as_hash() {
            AbiType::FixedBytes(32)
        } else {
            self.ty.clone()
        }
    }
}

/// The signature of an event with that name and those parameters.
pub fn build_signature(name: &str, parameters: &Vec<EventParameter>) -> (signature: String)
    ensures
        signature@ == signature_of(name@, param_tys(params_of(parameters@))),
{
    let ghost tys = param_tys(params_of(parameters@));
    let mut signature = String::new();
    signature.append(name);
    signature.append("(");
    let mut i: usize = 0;
    while i < parameters.len()
        invariant
            i <= parameters@.len(),
            tys == param_tys(params_of(parameters@)),
            signature@ == name@ + "("@ + names_joined(tys, i as nat),
        decreases parameters@.len() - i,
    {
        if i > 0 {
            signature.append(",");
        }
        parameters[i].ty.write_name(&mut signature);
        i += 1;
        assert(signature@ =~= name@ + "("@ + names_joined(tys, i as nat));
    }
    signature.append(")");
    assert(signature@ =~= signature_of(name@, tys));
    signature
}

/// The selector of an event with that signature.
pub fn selector_for(signature: &str) -> (selector: [u8; 32])
    ensures
        selector@ == selector_of(signature@),
{
    keccak(signature.as_bytes())
}

impl EventSchema {
    /// Whether the signature and the selector that the schema holds are
    /// those of its name and parameters.
    pub closed spec fn cached(&self) -> bool {
        &&& self.signature@ == schema_signature(self@)
        &&& self.selector@ == schema_selector(self@)
    }

    /// The invariant of a schema, which `new` establishes.
    pub open spec fn wf(&self) -> bool {
        schema_wf(self@) && self.cached()
    }

    /// The schema of the event with that name and those parameters.
    ///
    /// It fails with `UnresolvedType` where a parameter's type is not
    /// resolved, else with `TypeMismatch` where an indexed parameter has a
    /// tuple type that is not dynamic, which no topic can carry, else with
    /// `TopicOverrun` where the event needs more than four topics. The
    /// bound on the topics is held here, once, and not left to the first
    /// encoding: a schema that exists has topics that the transport
    /// carries.
    pub fn new(name: String, parameters: Vec<EventParameter>, anonymous: bool) -> (r: Result<
        EventSchema,
        Error,
    >)
        ensures
            match r {
                Ok(schema) => schema.wf() && schema@ == (Schema {
                    name: name@,
                    params: params_of(parameters@),
                    anonymous,
                }),
                Err(e) => schema_fault(
                    Schema { name: name@, params: params_of(parameters@), anonymous },
                ) == Some(e),
            },
    {
        let ghost s = Schema { name: name@, params: params_of(parameters@), anonymous };
        let n: usize = parameters.len();
        let mut i: usize = 0;
        while i < n
            invariant
                i <= n,
                n == parameters@.len(),
                s.params == params_of(parameters@),
                forall|j: int| 0 <= j < i ==> ty_resolved(#[trigger] s.params[j].ty),
            decreases n - i,
        {
            if !parameters[i].ty.is_resolved() {
                assert(!ty_resolved(s.params[i as int].ty));
                return Err(Error::UnresolvedType);
            }
            i += 1;
        }
        let mut indexed: usize = 0;
        let mut i: usize = 0;
        while i < n
            invariant
                i <= n,
                n == parameters@.len(),
                s.params == params_of(parameters@),
                indexed == indexed_count(s.params, i as nat),
                indexed <= i,
                forall|j: int| 0 <= j < n ==> ty_resolved(#[trigger] s.params[j].ty),
                forall|j: int| 0 <= j < i ==> fits_topic(#[trigger] s.params[j]),
            decreases n - i,
        {
            let p = &parameters[i];
            if p.indexed {
                if !(p.ty.is_dynamic() || p.ty.is_word()) {
                    assert(!fits_topic(s.params[i as int]));
                    return Err(Error::TypeMismatch);
                }
                indexed += 1;
            }
            i += 1;
        }
        let lead: usize = if anonymous {
            0
        } else {
            1
        };
        if indexed > MAX_TOPICS - lead {
            return Err(Error::TopicOverrun);
        }
        let signature = build_signature(name.as_str(), &parameters);
        let selector = selector_for(signature.as_str());
        Ok(EventSchema { name, parameters, anonymous, signature, selector })
    }

    /// The name of the event.
    pub fn name(&self) -> (name: &str)
        ensures
            name@ == self@.name,
    {
        self.name.as_str()
    }

    /// The parameters in the order of their declaration.
    pub fn parameters(&self) -> (parameters: &Vec<EventParameter>)
        ensures
            params_of(parameters@) == self@.params,
    {
        &self.parameters
    }

    /// Whether the event is anonymous: its topics then hold no selector.
    pub fn anonymous(&self) -> (anonymous: bool)
        ensures
            anonymous == self@.anonymous,
    {
        self.anonymous
    }

    /// The canonical signature of the event.
    pub fn signature(&self) -> (signature: &str)
        requires
            self.wf(),
        ensures
            signature@ == schema_signature(self@),
    {
        self.signature.as_str()
    }

    /// The selector of the event, whether it is anonymous or not.
    pub fn selector(&self) -> (selector: [u8; 32])
        requires
            self.wf(),
        ensures
            selector@ == schema_selector(self@),
    {
        self.selector
    }

    /// The selector in hexadecimal behind `0x`.
    pub fn selector_hex(&self) -> (text: String)
        requires
            self.wf(),
        ensures
            text@ == hex_prefixed(schema_selector(self@)),
    {
        to_hex_prefixed(self.selector.as_slice())
    }

    /// A line that names the event by its signature and its selector.
    pub fn describe(&self) -> (line: String)
        requires
            self.wf(),
        ensures
            line@ == "Event with signature `"@ + schema_signature(self@) + "` and selector `"@
                + hex_prefixed(schema_selector(self@)) + "`."@,
    {
        let hex = self.selector_hex();
        let mut line = String::new();
        line.append("Event with signature `");
        line.append(self.signature.as_str());
        line.append("` and selector `");
        line.append(hex.as_str());
        line.append("`.");
        assert(line@ =~= "Event with signature `"@ + schema_signature(self@)
            + "` and selector `"@ + hex_prefixed(schema_selector(self@)) + "`."@);
        line
    }

    /// The event for tools that know nothing of the codec: its name, the
    /// anonymous flag, and for each parameter its name, the canonical name
    /// of its type and whether it is indexed.
    pub fn descriptor(&self) -> (d: EventDescriptor)
        ensures
            d.name@ == self@.name,
            d.anonymous == self@.anonymous,
            d.inputs@.len() == self@.params.len(),
            forall|i: int|
                0 <= i < d.inputs@.len() ==> describes(#[trigger] d.inputs@[i], self@.params[i]),
    {
        let mut inputs: Vec<ParameterEntry> = Vec::new();
        let mut i: usize = 0;
        while i < self.parameters.len()
            invariant
                i <= self.parameters@.len(),
                inputs@.len() == i,
                forall|j: int|
                    0 <= j < i ==> describes(#[trigger] inputs@[j], self.parameters@[j]@),
            decreases self.parameters@.len() - i,
        {
            let p = &self.parameters[i];
            let name = match &p.name {
                Some(name) => name.clone(),
                None => String::new(),
            };
            inputs.push(ParameterEntry { name, ty: p.ty.canonical_name(), indexed: p.indexed });
            i += 1;
        }
        EventDescriptor { name: self.name.clone(), anonymous: self.anonymous, inputs }
    }

    /// The number of topics of the event.
    pub fn topic_count(&self) -> (count: usize)
        requires
            self.wf(),
        ensures
            count == topic_count(self@),
            count <= MAX_TOPICS,
    {
        let ghost ps = self@.params;
        let mut count: usize = if self.anonymous {
            0
        } else {
            1
        };
        let lead: usize = count;
        let mut i: usize = 0;
        proof {
            lemma_indexed_count_bound(ps, ps.len());
        }
        while i < self.parameters.len()
            invariant
                i <= self.parameters@.len(),
                ps == params_of(self.parameters@),
                indexed_count(ps, ps.len()) + lead <= MAX_TOPICS,
                count == indexed_count(ps, i as nat) + lead,
            decreases self.parameters@.len() - i,
        {
            proof {
                lemma_indexed_count_grows(ps, (i + 1) as nat, ps.len());
            }
            if self.parameters[i].indexed {
                count += 1;
            }
            i += 1;
        }
        count
    }

    /// The types of the topics of the indexed parameters, in their order.
    pub fn topic_types(&self) -> (types: Vec<AbiType>)
        ensures
            crate::types::tys_of(types@) == topic_tys(self@.params, self@.params.len()),
    {
        let ghost ps = self@.params;
        let mut types: Vec<AbiType> = Vec::new();
        let mut i: usize = 0;
        assert(crate::types::tys_of(types@) =~= topic_tys(ps, 0));
        while i < self.parameters.len()
            invariant
                i <= self.parameters@.len(),
                ps == params_of(self.parameters@),
                crate::types::tys_of(types@) == topic_tys(ps, i as nat),
            decreases self.parameters@.len() - i,
        {
            if self.parameters[i].indexed {
                let t = self.parameters[i].topic_type();
                proof {
                    crate::types::lemma_tys_of_push(types@, t);
                }
                types.push(t);
            }
            i += 1;
        }
        types
    }

    /// The types of the parameters that are not indexed, in their order:
    /// the members of the data tuple.
    pub fn data_types(&self) -> (types: Vec<AbiType>)
        ensures
            crate::types::tys_of(types@) == data_tys(self@.params, self@.params.len()),
    {
        let ghost ps = self@.params;
        let mut types: Vec<AbiType> = Vec::new();
        let mut i: usize = 0;
        assert(crate::types::tys_of(types@) =~= data_tys(ps, 0));
        while i < self.parameters.len()
            invariant
                i <= self.parameters@.len(),
                ps == params_of(self.parameters@),
                crate::types::tys_of(types@) == data_tys(ps, i as nat),
            decreases self.parameters@.len() - i,
        {
            if !self.parameters[i].indexed {
                let t = self.parameters[i].ty.clone();
                proof {
                    crate::types::lemma_tys_of_push(types@, t);
                }
                types.push(t);
            }
            i += 1;
        }
        types
    }
}

} // verus!
