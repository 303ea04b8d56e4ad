//! Records: the values of an event's parameters in the order of their
//! declaration, taken apart into topics and data and put together again.

use crate::decode::{dec, dec_members, decode_members, has_member, heads_width_within};
use crate::encode::{enc_seq, encode_values};
use crate::error::Error;
use crate::schema::{
    data_tys, indexed_count, lemma_indexed_count_bound, lemma_indexed_count_grows, params_of,
    schema_wf, topic_count, EventSchema, Param, Schema,
};
use crate::topics::{
    dec_indexed, dec_topics, field_fits, indexed_topics, is_digest, leading_topics,
    lemma_dec_indexed_err, lemma_indexed_topics_len, lemma_words_of_push, put_topics,
    topic_value, topic_word, topics_of, words_of,
};
use crate::types::{member_ty, ty_resolved, AbiType, Ty};
use crate::value::{lemma_vals_of_push, vals_of, AbiValue, Val};
use vstd::prelude::*;

verus! {

/// The mathematical model of a log: the topics as byte strings, and the
/// data.
pub struct Log {
    pub topics: Seq<Seq<u8>>,
    pub data: Seq<u8>,
}

/// The values of an event's parameters, one field for each parameter, in
/// the order of their declaration.
#[derive(Debug, Clone, PartialEq, Eq)]
pub struct EventRecord {
    pub fields: Vec<AbiValue>,
}

/// An event as the transport carries it.
#[derive(Debug, Clone, PartialEq, Eq)]
pub struct LogData {
    pub topics: Vec<[u8; 32]>,
    pub data: Vec<u8>,
}

impl View for EventRecord {
    type V = Seq<Val>;

    open spec fn view(&self) -> Seq<Val> {
        vals_of(self.fields@)
    }
}

impl View for LogData {
    type V = Log;

    open spec fn view(&self) -> Log {
        Log { topics: words_of(self.topics@), data: self.data@ }
    }
}

/// Whether the record has a field for each parameter of the schema, with
/// a value that fits it.
pub open spec fn record_fits(s: Schema, r: Seq<Val>) -> bool {
    &&& r.len() == s.params.len()
    &&& forall|i: int| 0 <= i < r.len() ==> field_fits(s.params[i], #[trigger] r[i])
}

/// The values of the parameters among the first `k` that are not indexed,
/// in their order.
pub open spec fn data_values(ps: Seq<Param>, r: Seq<Val>, k: nat) -> Seq<Val>
    decreases k,
{
    if k == 0 || k > ps.len() {
        Seq::empty()
    } else if ps[k - 1].indexed {
        data_values(ps, r, (k - 1) as nat)
    } else {
        data_values(ps, r, (k - 1) as nat).push(r[k - 1])
    }
}

/// The data of an event with the record `r`: the encoding of the values
/// that are not indexed as the members of one tuple.
pub open spec fn data_of(s: Schema, r: Seq<Val>) -> Seq<u8> {
    enc_seq(data_values(s.params, r, s.params.len()))
}

/// The values of the parameters that are not indexed, read from the data
/// of an event.
pub open spec fn dec_data(s: Schema, data: Seq<u8>) -> Result<Seq<Val>, Error> {
    match dec(Ty::Tuple(data_tys(s.params, s.params.len())), data) {
        Err(e) => Err(e),
        Ok(d) => Ok(d.value->Tuple_0),
    }
}

/// The first `k` fields of a record, put together from the values of the
/// indexed parameters and of the others: each field takes the next value of
/// the one list or of the other.
pub open spec fn merged(ps: Seq<Param>, indexed: Seq<Val>, others: Seq<Val>, k: nat) -> Seq<Val>
    decreases k,
{
    if k == 0 || k > ps.len() {
        Seq::empty()
    } else {
        let before = indexed_count(ps, (k - 1) as nat);
        merged(ps, indexed, others, (k - 1) as nat).push(
            if ps[k - 1].indexed {
                indexed[before as int]
            } else {
                others[k - 1 - before]
            },
        )
    }
}

/// The log of an event with the record `r`, which must fit the schema.
pub open spec fn from_record_spec(s: Schema, r: Seq<Val>) -> Result<Log, Error> {
    if record_fits(s, r) {
        Ok(Log { topics: topics_of(s, r), data: data_of(s, r) })
    } else {
        Err(Error::TypeMismatch)
    }
}

/// The record of the event that a log carries: the topics are decoded
/// first, then the data.
pub open spec fn to_record_spec(s: Schema, log: Log) -> Result<Seq<Val>, Error> {
    match dec_topics(s, log.topics) {
        Err(e) => Err(e),
        Ok(indexed) => match dec_data(s, log.data) {
            Err(e) => Err(e),
            Ok(others) => Ok(merged(s.params, indexed, others, s.params.len())),
        },
    }
}

pub proof fn lemma_data_values_len(ps: Seq<Param>, r: Seq<Val>, k: nat)
    requires
        k <= ps.len(),
    ensures
        data_values(ps, r, k).len() == k - indexed_count(ps, k),
    decreases k,
{
    if k > 0 {
        lemma_data_values_len(ps, r, (k - 1) as nat);
    }
}

pub proof fn lemma_data_tys_resolved(ps: Seq<Param>, k: nat)
    requires
        k <= ps.len(),
        forall|i: int| 0 <= i < ps.len() ==> ty_resolved(#[trigger] ps[i].ty),
    ensures
        forall|j: int| 0 <= j < data_tys(ps, k).len() ==> ty_resolved(#[trigger] data_tys(ps, k)[j]),
    decreases k,
{
    if k > 0 {
        lemma_data_tys_resolved(ps, (k - 1) as nat);
        let before = data_tys(ps, (k - 1) as nat);
        assert forall|j: int| 0 <= j < data_tys(ps, k).len() implies ty_resolved(
            #[trigger] data_tys(ps, k)[j],
        ) by {
            if j < before.len() {
                assert(ty_resolved(before[j]));
            } else {
                assert(ty_resolved(ps[k - 1].ty));
            }
        }
    }
}

/// Between two places in the list stand no more indexed parameters than
/// parameters.
pub proof fn lemma_indexed_count_gap(ps: Seq<Param>, a: nat, b: nat)
    requires
        a <= b <= ps.len(),
    ensures
        indexed_count(ps, b) - indexed_count(ps, a) <= b - a,
    decreases b,
{
    if a < b {
        lemma_indexed_count_gap(ps, a, (b - 1) as nat);
    }
}

/// A walk that has come through holds a value for each member.
pub proof fn lemma_dec_members_len(t: Ty, n: nat, b: Seq<u8>, k: nat)
    requires
        k == 0 || has_member(t, k - 1),
        dec_members(t, n, b, k) is Ok,
    ensures
        dec_members(t, n, b, k)->Ok_0.values.len() == k,
    decreases k,
{
    if k > 0 {
        lemma_dec_members_len(t, n, b, (k - 1) as nat);
    }
}

pub proof fn lemma_dec_indexed_len(ps: Seq<Param>, words: Seq<Seq<u8>>, k: nat)
    requires
        k <= ps.len(),
        dec_indexed(ps, words, k) is Ok,
    ensures
        dec_indexed(ps, words, k)->Ok_0.len() == indexed_count(ps, k),
    decreases k,
{
    if k > 0 {
        lemma_dec_indexed_len(ps, words, (k - 1) as nat);
    }
}

/// Whether the value is a digest.
pub fn value_is_digest(v: &AbiValue) -> (r: bool)
    ensures
        r == is_digest(v@),
{
    match v {
        AbiValue::FixedBytes(b) => b.len() == 32,
        _ => false,
    }
}

impl EventRecord {
    /// Whether the record has a field for each parameter of the schema,
    /// with a value that fits it.
    pub fn fits(&self, schema: &EventSchema) -> (r: bool)
        requires
            schema.wf(),
        ensures
            r == record_fits(schema@, self@),
    {
        let parameters = schema.parameters();
        if self.fields.len() != parameters.len() {
            return false;
        }
        let ghost ps = schema@.params;
        let mut i: usize = 0;
        while i < parameters.len()
            invariant
                i <= parameters@.len(),
                ps == params_of(parameters@),
                ps == schema@.params,
                schema_wf(schema@),
                self.fields@.len() == parameters@.len(),
                forall|j: int| 0 <= j < i ==> field_fits(ps[j], #[trigger] self@[j]),
            decreases parameters@.len() - i,
        {
            let p = &parameters[i];
            assert(ty_resolved(ps[i as int].ty));
            let fits = self.fields[i].has_type(&p.ty) || (p.indexed_as_hash() && value_is_digest(
                &self.fields[i],
            ));
            if !fits {
                assert(!field_fits(ps[i as int], self@[i as int]));
                return false;
            }
            i += 1;
        }
        true
    }
}

impl EventSchema {
    /// The topics of an event with the record `record`: the selector,
    /// unless the event is anonymous, then the topic of each indexed
    /// parameter. It fails with `TypeMismatch` where the record does not
    /// fit the schema.
    pub fn encode_topics(&self, record: &EventRecord) -> (r: Result<Vec<[u8; 32]>, Error>)
        requires
            self.wf(),
        ensures
            match r {
                Ok(topics) => record_fits(self@, record@) && words_of(topics@) == topics_of(
                    self@,
                    record@,
                ) && topics@.len() == topic_count(self@),
                Err(e) => e == Error::TypeMismatch && !record_fits(self@, record@),
            },
    {
        if !record.fits(self) {
            return Err(Error::TypeMismatch);
        }
        let parameters = self.parameters();
        let ghost ps = self@.params;
        let mut topics: Vec<[u8; 32]> = Vec::new();
        if !self.anonymous() {
            topics.push(self.selector());
        }
        assert(words_of(topics@) =~= leading_topics(self@) + indexed_topics(ps, record@, 0));
        let mut i: usize = 0;
        while i < parameters.len()
            invariant
                i <= parameters@.len(),
                ps == params_of(parameters@),
                ps == self@.params,
                schema_wf(self@),
                record_fits(self@, record@),
                words_of(topics@) == leading_topics(self@) + indexed_topics(ps, record@, i as nat),
            decreases parameters@.len() - i,
        {
            let p = &parameters[i];
            if p.indexed {
                assert(ty_resolved(ps[i as int].ty));
                assert(crate::schema::fits_topic(ps[i as int]));
                assert(field_fits(ps[i as int], record@[i as int]));
                let w = topic_word(p, &record.fields[i]);
                proof {
                    lemma_words_of_push(topics@, w);
                }
                topics.push(w);
            }
            i += 1;
            assert(words_of(topics@) =~= leading_topics(self@) + indexed_topics(
                ps,
                record@,
                i as nat,
            ));
        }
        proof {
            lemma_indexed_topics_len(ps, record@, ps.len());
        }
        Ok(topics)
    }

    /// Writes the topics of an event with the record `record` into the
    /// first slots of `out`.
    ///
    /// It fails with `TopicOverrun` where `out` has fewer slots than the
    /// event has topics, else with `TypeMismatch` where the record does not
    /// fit the schema. Where it fails, `out` is left as it was.
    pub fn encode_topics_raw(&self, record: &EventRecord, out: &mut [[u8; 32]]) -> (r: Result<
        (),
        Error,
    >)
        requires
            self.wf(),
        ensures
            final(out)@.len() == old(out)@.len(),
            r is Err ==> final(out)@ == old(out)@,
            old(out)@.len() < topic_count(self@) ==> r == Err::<(), Error>(Error::TopicOverrun),
            old(out)@.len() >= topic_count(self@) && !record_fits(self@, record@) ==> r == Err::<
                (),
                Error,
            >(Error::TypeMismatch),
            old(out)@.len() >= topic_count(self@) && record_fits(self@, record@) ==> r is Ok,
            r is Ok ==> forall|i: int|
                0 <= i < final(out)@.len() ==> if i < topic_count(self@) {
                    (#[trigger] final(out)@[i])@ == topics_of(self@, record@)[i]
                } else {
                    final(out)@[i] == old(out)@[i]
                },
    {
        if out.len() < self.topic_count() {
            return Err(Error::TopicOverrun);
        }
        match self.encode_topics(record) {
            Err(e) => Err(e),
            Ok(topics) => {
                assert(forall|i: int|
                    0 <= i < topics@.len() ==> words_of(topics@)[i] == (#[trigger] topics@[i])@);
                put_topics(&topics, out)
            },
        }
    }

    /// The values of the indexed parameters, read from the topics of an
    /// event, in the order of the topics. The selector, where the event
    /// has one, is not looked at: who wants to know that the topics are
    /// those of this event compares it with `selector`.
    pub fn decode_topics(&self, topics: &[[u8; 32]]) -> (r: Result<Vec<AbiValue>, Error>)
        requires
            self.wf(),
        ensures
            match r {
                Ok(values) => dec_topics(self@, words_of(topics@)) == Ok::<Seq<Val>, Error>(
                    vals_of(values@),
                ),
                Err(e) => dec_topics(self@, words_of(topics@)) == Err::<Seq<Val>, Error>(e),
            },
    {
        if topics.len() != self.topic_count() {
            return Err(Error::TypeMismatch);
        }
        let parameters = self.parameters();
        let ghost ps = self@.params;
        let lead: usize = if self.anonymous() {
            0
        } else {
            1
        };
        let ghost words = words_of(topics@).skip(lead as int);
        let mut values: Vec<AbiValue> = Vec::new();
        let mut at: usize = lead;
        let mut i: usize = 0;
        assert(vals_of(values@) =~= Seq::<Val>::empty());
        proof {
            lemma_indexed_count_bound(ps, ps.len());
        }
        while i < parameters.len()
            invariant
                i <= parameters@.len(),
                ps == params_of(parameters@),
                ps == self@.params,
                schema_wf(self@),
                lead == leading_topics(self@).len(),
                topics@.len() == topic_count(self@),
                words == words_of(topics@).skip(lead as int),
                at == lead + indexed_count(ps, i as nat),
                dec_indexed(ps, words, i as nat) == Ok::<Seq<Val>, Error>(vals_of(values@)),
            decreases parameters@.len() - i,
        {
            let p = &parameters[i];
            proof {
                lemma_indexed_count_grows(ps, (i + 1) as nat, ps.len());
            }
            if p.indexed {
                assert(ty_resolved(ps[i as int].ty));
                assert(words[at - lead] == topics@[at as int]@);
                match topic_value(p, &topics[at]) {
                    Err(e) => {
                        proof {
                            lemma_dec_indexed_err(ps, words, (i + 1) as nat, ps.len());
                        }
                        return Err(e);
                    },
                    Ok(v) => {
                        proof {
                            lemma_vals_of_push(values@, v);
                        }
                        values.push(v);
                        at += 1;
                    },
                }
            }
            i += 1;
        }
        Ok(values)
    }

    /// The data of an event with the record `record`: the values that
    /// are not indexed, encoded as the members of one tuple. It fails with
    /// `TypeMismatch` where the record does not fit the schema.
    pub fn encode_data(&self, record: &EventRecord) -> (r: Result<Vec<u8>, Error>)
        requires
            self.wf(),
        ensures
            match r {
                Ok(data) => record_fits(self@, record@) && data@ == data_of(self@, record@),
                Err(e) => e == Error::TypeMismatch && !record_fits(self@, record@),
            },
    {
        if !record.fits(self) {
            return Err(Error::TypeMismatch);
        }
        let parameters = self.parameters();
        let ghost ps = self@.params;
        let mut values: Vec<AbiValue> = Vec::new();
        let mut i: usize = 0;
        assert(vals_of(values@) =~= data_values(ps, record@, 0));
        while i < parameters.len()
            invariant
                i <= parameters@.len(),
                ps == params_of(parameters@),
                record@.len() == ps.len(),
                vals_of(values@) == data_values(ps, record@, i as nat),
            decreases parameters@.len() - i,
        {
            if !parameters[i].indexed {
                let v = record.fields[i].clone();
                proof {
                    lemma_vals_of_push(values@, v);
                }
                values.push(v);
            }
            i += 1;
        }
        Ok(encode_values(&values))
    }

    /// The values of the parameters that are not indexed, read from the
    /// data of an event.
    ///
    /// It fails with `TypeMismatch` where the data is too short for the
    /// head of the tuple, or a word is not one of its type; with
    /// `DecodeBoundsError` where an offset or a length leads out of the
    /// data, or an offset in front of the end of the member before it.
    pub fn decode_data(&self, data: &[u8]) -> (r: Result<Vec<AbiValue>, Error>)
        requires
            self.wf(),
        ensures
            match r {
                Ok(values) => dec_data(self@, data@) == Ok::<Seq<Val>, Error>(vals_of(values@)),
                Err(e) => dec_data(self@, data@) == Err::<Seq<Val>, Error>(e),
            },
    {
        let types = self.data_types();
        let n: usize = types.len();
        let ghost tys = data_tys(self@.params, self@.params.len());
        match heads_width_within(&types, data.len()) {
            None => Err(Error::TypeMismatch),
            Some(head) => {
                let tuple = AbiType::Tuple(types);
                proof {
                    lemma_data_tys_resolved(self@.params, self@.params.len());
                    assert(tuple@ == Ty::Tuple(tys));
                    assert forall|i: int| 0 <= i < n implies ty_resolved(
                        #[trigger] member_ty(tuple@, i),
                    ) by {
                        assert(ty_resolved(tys[i]));
                    }
                }
                match decode_members(&tuple, n, head, data) {
                    Err(e) => Err(e),
                    Ok((values, _)) => Ok(values),
                }
            },
        }
    }

    /// The log of an event with the record `record`: its topics and its
    /// data. It fails with `TypeMismatch` where the record does not fit
    /// the schema.
    pub fn from_record(&self, record: &EventRecord) -> (r: Result<LogData, Error>)
        requires
            self.wf(),
        ensures
            match r {
                Ok(log) => from_record_spec(self@, record@) == Ok::<Log, Error>(log@),
                Err(e) => from_record_spec(self@, record@) == Err::<Log, Error>(e),
            },
    {
        match self.encode_topics(record) {
            Err(e) => Err(e),
            Ok(topics) => match self.encode_data(record) {
                Err(e) => Err(e),
                Ok(data) => Ok(LogData { topics, data }),
            },
        }
    }

    /// The record of the event that the topics and the data carry: each
    /// field takes the next value of the topics where its parameter is
    /// indexed, else the next value of the data.
    pub fn to_record(&self, topics: &[[u8; 32]], data: &[u8]) -> (r: Result<EventRecord, Error>)
        requires
            self.wf(),
        ensures
            match r {
                Ok(record) => to_record_spec(
                    self@,
                    Log { topics: words_of(topics@), data: data@ },
                ) == Ok::<Seq<Val>, Error>(record@),
                Err(e) => to_record_spec(self@, Log { topics: words_of(topics@), data: data@ })
                    == Err::<Seq<Val>, Error>(e),
            },
    {
        let indexed = match self.decode_topics(topics) {
            Err(e) => {
                return Err(e);
            },
            Ok(values) => values,
        };
        let others = match self.decode_data(data) {
            Err(e) => {
                return Err(e);
            },
            Ok(values) => values,
        };
        let parameters = self.parameters();
        let ghost ps = self@.params;
        let ghost tys = data_tys(ps, ps.len());
        proof {
            lemma_dec_indexed_len(
                ps,
                words_of(topics@).skip(leading_topics(self@).len() as int),
                ps.len(),
            );
            lemma_indexed_count_bound(ps, ps.len());
            lemma_dec_members_len(Ty::Tuple(tys), tys.len(), data@, tys.len());
        }
        let mut fields: Vec<AbiValue> = Vec::new();
        let mut ti: usize = 0;
        let mut di: usize = 0;
        let mut i: usize = 0;
        assert(vals_of(fields@) =~= Seq::<Val>::empty());
        while i < parameters.len()
            invariant
                i <= parameters@.len(),
                ps == params_of(parameters@),
                indexed@.len() == indexed_count(ps, ps.len()),
                others@.len() == ps.len() - indexed_count(ps, ps.len()),
                ti == indexed_count(ps, i as nat),
                di == i - ti,
                vals_of(fields@) == merged(ps, vals_of(indexed@), vals_of(others@), i as nat),
            decreases parameters@.len() - i,
        {
            proof {
                lemma_indexed_count_grows(ps, (i + 1) as nat, ps.len());
                lemma_indexed_count_gap(ps, (i + 1) as nat, ps.len());
                lemma_indexed_count_bound(ps, i as nat);
                assert(ps[i as int].indexed == parameters@[i as int].indexed);
            }
            if parameters[i].indexed {
                let v = indexed[ti].clone();
                proof {
                    lemma_vals_of_push(fields@, v);
                }
                fields.push(v);
                ti += 1;
            } else {
                let v = others[di].clone();
                proof {
                    lemma_vals_of_push(fields@, v);
                }
                fields.push(v);
                di += 1;
            }
            i += 1;
        }
        Ok(EventRecord { fields })
    }
}

} // verus!
