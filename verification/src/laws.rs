//! What holds of the codec as a whole: what a record is after it went
//! through a log, how the selector hangs on the signature, and what the
//! anonymous flag changes.

use crate::decode::{dec, dec_members};
use crate::encode::{enc_seq, heads_len, lemma_heads_len};
use crate::error::Error;
use crate::hash::keccak256;
use crate::inverse::{
    lemma_dec_enc_members, lemma_members_width, lemma_word_inverse, members_resolved,
};
use crate::record::{
    data_of, data_values, dec_data, from_record_spec, lemma_data_tys_resolved,
    lemma_data_values_len, merged, record_fits, to_record_spec, Log,
};
use crate::schema::{
    data_tys, fits_topic, hashed, indexed_count, lemma_indexed_count_bound,
    lemma_indexed_count_grows, schema_selector, schema_signature, schema_wf, topic_count, Param,
    Schema,
};
use crate::topics::{
    dec_indexed, dec_topic, dec_topics, field_fits, hashed_form, indexed_topics,
    leading_topics, lemma_indexed_topics_len, topic_of, topics_of,
};
use crate::types::{member_ty, ty_dynamic, ty_resolved, Ty};
use crate::value::{has_type, lemma_members_typed, Val};
use crate::word::word_limit;
use vstd::prelude::*;

verus! {

/// What a field holds after the record went through a log: the digest
/// that stood in the topic where the parameter is carried as a digest,
/// else the value itself.
pub open spec fn settled_field(p: Param, v: Val) -> Val {
    if hashed(p) {
        Val::FixedBytes(topic_of(p, v))
    } else {
        v
    }
}

/// The record after it went through a log, field by field.
pub open spec fn settled(s: Schema, r: Seq<Val>) -> Seq<Val> {
    Seq::new(r.len(), |i: int| settled_field(s.params[i], r[i]))
}

/// The settled values of the indexed parameters among the first `k`.
pub open spec fn settled_indexed(ps: Seq<Param>, r: Seq<Val>, k: nat) -> Seq<Val>
    decreases k,
{
    if k == 0 || k > ps.len() {
        Seq::empty()
    } else if ps[k - 1].indexed {
        settled_indexed(ps, r, (k - 1) as nat).push(settled_field(ps[k - 1], r[k - 1]))
    } else {
        settled_indexed(ps, r, (k - 1) as nat)
    }
}

/// The topic of the indexed parameter `j` stands among the topics of the
/// parameters behind those of the indexed parameters before it.
pub proof fn lemma_indexed_topic_at(ps: Seq<Param>, r: Seq<Val>, n: nat, j: nat)
    requires
        j < n <= ps.len(),
        ps[j as int].indexed,
    ensures
        indexed_count(ps, j) < indexed_topics(ps, r, n).len(),
        indexed_topics(ps, r, n)[indexed_count(ps, j) as int] == topic_of(
            ps[j as int],
            r[j as int],
        ),
    decreases n,
{
    lemma_indexed_topics_len(ps, r, n);
    lemma_indexed_topics_len(ps, r, (n - 1) as nat);
    lemma_indexed_count_grows(ps, j + 1, n);
    if j + 1 < n {
        lemma_indexed_topic_at(ps, r, (n - 1) as nat, j);
    }
}

pub proof fn lemma_settled_indexed_len(ps: Seq<Param>, r: Seq<Val>, k: nat)
    requires
        k <= ps.len(),
    ensures
        settled_indexed(ps, r, k).len() == indexed_count(ps, k),
    decreases k,
{
    if k > 0 {
        lemma_settled_indexed_len(ps, r, (k - 1) as nat);
    }
}

pub proof fn lemma_settled_indexed_at(ps: Seq<Param>, r: Seq<Val>, n: nat, j: nat)
    requires
        j < n <= ps.len(),
        ps[j as int].indexed,
    ensures
        indexed_count(ps, j) < settled_indexed(ps, r, n).len(),
        settled_indexed(ps, r, n)[indexed_count(ps, j) as int] == settled_field(
            ps[j as int],
            r[j as int],
        ),
    decreases n,
{
    lemma_settled_indexed_len(ps, r, n);
    lemma_settled_indexed_len(ps, r, (n - 1) as nat);
    lemma_indexed_count_grows(ps, j + 1, n);
    if j + 1 < n {
        lemma_settled_indexed_at(ps, r, (n - 1) as nat, j);
    }
}

pub proof fn lemma_data_value_at(ps: Seq<Param>, r: Seq<Val>, n: nat, j: nat)
    requires
        j < n <= ps.len(),
        !ps[j as int].indexed,
    ensures
        j - indexed_count(ps, j) < data_values(ps, r, n).len(),
        data_values(ps, r, n)[j - indexed_count(ps, j)] == r[j as int],
        data_tys(ps, n)[j - indexed_count(ps, j)] == ps[j as int].ty,
    decreases n,
{
    lemma_data_values_len(ps, r, n);
    lemma_data_values_len(ps, r, (n - 1) as nat);
    lemma_indexed_count_bound(ps, n);
    lemma_indexed_count_bound(ps, (n - 1) as nat);
    lemma_indexed_count_bound(ps, j);
    crate::record::lemma_indexed_count_gap(ps, j + 1, n);
    if j + 1 < n {
        lemma_data_value_at(ps, r, (n - 1) as nat, j);
    }
}

/// The topic of a value is read back as the settled value.
pub proof fn lemma_dec_topic(p: Param, v: Val)
    requires
        p.indexed,
        ty_resolved(p.ty),
        fits_topic(p),
        field_fits(p, v),
    ensures
        dec_topic(p, topic_of(p, v)) == Ok::<Val, Error>(settled_field(p, v)),
{
    if !ty_dynamic(p.ty) {
        lemma_word_inverse(v, p.ty);
    }
}

/// The topics of a record that fits the schema are read back as the
/// settled values of the indexed parameters.
pub proof fn lemma_dec_topics(s: Schema, r: Seq<Val>)
    requires
        schema_wf(s),
        record_fits(s, r),
    ensures
        dec_topics(s, topics_of(s, r)) == Ok::<Seq<Val>, Error>(
            settled_indexed(s.params, r, s.params.len()),
        ),
{
    let n = s.params.len();
    let words = indexed_topics(s.params, r, n);
    lemma_indexed_topics_len(s.params, r, n);
    assert(topics_of(s, r).skip(leading_topics(s).len() as int) =~= words);
    lemma_dec_indexed(s, r, n);
}

pub proof fn lemma_dec_indexed(s: Schema, r: Seq<Val>, k: nat)
    requires
        schema_wf(s),
        record_fits(s, r),
        k <= s.params.len(),
    ensures
        dec_indexed(s.params, indexed_topics(s.params, r, s.params.len()), k) == Ok::<
            Seq<Val>,
            Error,
        >(settled_indexed(s.params, r, k)),
    decreases k,
{
    if k > 0 {
        let p = s.params[k - 1];
        lemma_dec_indexed(s, r, (k - 1) as nat);
        if p.indexed {
            lemma_indexed_topic_at(s.params, r, s.params.len(), (k - 1) as nat);
            assert(field_fits(p, r[k - 1]));
            assert(ty_resolved(p.ty));
            assert(fits_topic(p));
            lemma_dec_topic(p, r[k - 1]);
        }
    }
}

/// The values that are not indexed have the types of the data tuple.
pub proof fn lemma_data_values_typed(s: Schema, r: Seq<Val>, k: nat)
    requires
        record_fits(s, r),
        k <= s.params.len(),
    ensures
        data_values(s.params, r, k).len() == data_tys(s.params, k).len(),
        forall|j: int|
            0 <= j < data_tys(s.params, k).len() ==> has_type(
                #[trigger] data_values(s.params, r, k)[j],
                data_tys(s.params, k)[j],
            ),
    decreases k,
{
    if k > 0 {
        lemma_data_values_typed(s, r, (k - 1) as nat);
        let p = s.params[k - 1];
        let before = data_values(s.params, r, (k - 1) as nat);
        if !p.indexed {
            assert(field_fits(p, r[k - 1]));
            assert forall|j: int| 0 <= j < data_tys(s.params, k).len() implies has_type(
                #[trigger] data_values(s.params, r, k)[j],
                data_tys(s.params, k)[j],
            ) by {
                if j < before.len() {
                    assert(has_type(before[j], data_tys(s.params, (k - 1) as nat)[j]));
                }
            }
        }
    }
}

/// The data of a record that fits the schema is read back as the values
/// that are not indexed.
pub proof fn lemma_dec_data(s: Schema, r: Seq<Val>)
    requires
        schema_wf(s),
        record_fits(s, r),
        data_of(s, r).len() < word_limit(),
    ensures
        dec_data(s, data_of(s, r)) == Ok::<Seq<Val>, Error>(
            data_values(s.params, r, s.params.len()),
        ),
{
    let n = s.params.len();
    let values = data_values(s.params, r, n);
    let tys = data_tys(s.params, n);
    let t = Ty::Tuple(tys);
    let m = values.len();
    lemma_data_values_typed(s, r, n);
    lemma_data_tys_resolved(s.params, n);
    assert(members_resolved(t, m)) by {
        assert forall|i: int| 0 <= i < m implies ty_resolved(#[trigger] member_ty(t, i)) by {
            assert(ty_resolved(tys[i]));
        }
    }
    assert(forall|i: int| 0 <= i < m ==> has_type(#[trigger] values[i], member_ty(t, i)));
    lemma_members_typed(values, t, m);
    lemma_members_width(values, t, m);
    lemma_heads_len(values, heads_len(values, m), m);
    lemma_dec_enc_members(values, t, Seq::empty(), m);
    assert(enc_seq(values) + Seq::<u8>::empty() =~= enc_seq(values));
    assert(values.subrange(0, m as int) =~= values);
}

pub proof fn lemma_merged_settled(s: Schema, r: Seq<Val>, k: nat)
    requires
        r.len() == s.params.len(),
        k <= s.params.len(),
    ensures
        merged(
            s.params,
            settled_indexed(s.params, r, s.params.len()),
            data_values(s.params, r, s.params.len()),
            k,
        ) == settled(s, r).subrange(0, k as int),
    decreases k,
{
    let n = s.params.len();
    let indexed = settled_indexed(s.params, r, n);
    let others = data_values(s.params, r, n);
    if k == 0 {
        assert(settled(s, r).subrange(0, 0) =~= Seq::<Val>::empty());
    } else {
        lemma_merged_settled(s, r, (k - 1) as nat);
        if s.params[k - 1].indexed {
            lemma_settled_indexed_at(s.params, r, n, (k - 1) as nat);
        } else {
            lemma_data_value_at(s.params, r, n, (k - 1) as nat);
        }
        assert(merged(s.params, indexed, others, k) =~= settled(s, r).subrange(0, k as int));
    }
}

/// A record that fits the schema comes back from its log settled: each
/// field that a topic carries as a digest holds that digest, and every
/// other field holds its value again. The data must be short enough for a
/// word to hold its length.
pub proof fn lemma_record_settles(s: Schema, r: Seq<Val>)
    requires
        schema_wf(s),
        record_fits(s, r),
        data_of(s, r).len() < word_limit(),
    ensures
        from_record_spec(s, r) is Ok,
        to_record_spec(s, from_record_spec(s, r)->Ok_0) == Ok::<Seq<Val>, Error>(settled(s, r)),
{
    lemma_dec_topics(s, r);
    lemma_dec_data(s, r);
    lemma_merged_settled(s, r, s.params.len());
    assert(settled(s, r).subrange(0, s.params.len() as int) =~= settled(s, r));
}

/// Round trip: where no indexed parameter has a dynamic type, a record
/// that fits the schema comes back from its log as it was.
pub proof fn lemma_round_trip(s: Schema, r: Seq<Val>)
    requires
        schema_wf(s),
        record_fits(s, r),
        forall|i: int| 0 <= i < s.params.len() ==> !hashed(#[trigger] s.params[i]),
        data_of(s, r).len() < word_limit(),
    ensures
        from_record_spec(s, r) is Ok,
        to_record_spec(s, from_record_spec(s, r)->Ok_0) == Ok::<Seq<Val>, Error>(r),
{
    lemma_record_settles(s, r);
    assert(settled(s, r) =~= r);
}

/// A record whose indexed dynamic fields hold digests already comes back
/// from its log as it was, too.
pub proof fn lemma_round_trip_digests(s: Schema, r: Seq<Val>)
    requires
        schema_wf(s),
        record_fits(s, r),
        forall|i: int| 0 <= i < s.params.len() && hashed(#[trigger] s.params[i]) ==> r[i] is FixedBytes,
        data_of(s, r).len() < word_limit(),
    ensures
        from_record_spec(s, r) is Ok,
        to_record_spec(s, from_record_spec(s, r)->Ok_0) == Ok::<Seq<Val>, Error>(r),
{
    lemma_record_settles(s, r);
    assert(settled(s, r) =~= r);
}

/// The hash is all that is left of an indexed dynamic value: where
/// parameter `i` is indexed and its type dynamic, and the record holds a
/// value of that type for it, the topics decode to the digest of the
/// value's hashed form in the place of that parameter. The digest is a
/// function of the value, so it is the same at every call.
pub proof fn lemma_lossy_hash(s: Schema, r: Seq<Val>, i: int)
    requires
        schema_wf(s),
        record_fits(s, r),
        0 <= i < s.params.len(),
        hashed(s.params[i]),
        has_type(r[i], s.params[i].ty),
    ensures
        dec_topics(s, topics_of(s, r)) is Ok,
        indexed_count(s.params, i as nat) < dec_topics(s, topics_of(s, r))->Ok_0.len(),
        dec_topics(s, topics_of(s, r))->Ok_0[indexed_count(s.params, i as nat) as int]
            == Val::FixedBytes(keccak256(hashed_form(r[i]))),
{
    lemma_dec_topics(s, r);
    lemma_settled_indexed_at(s.params, r, s.params.len(), i as nat);
}

/// The selector hangs on the signature alone: events with one signature
/// have one selector.
pub proof fn lemma_selector_of_signature(a: Schema, b: Schema)
    requires
        schema_signature(a) == schema_signature(b),
    ensures
        schema_selector(a) == schema_selector(b),
{
}

/// A schema has no fault exactly when it is well formed: so `new`, which
/// fails with the fault, accepts the well-formed schemas and no others.
pub proof fn lemma_accepted_schemas(s: Schema)
    ensures
        crate::schema::schema_fault(s) is None <==> schema_wf(s),
{
}

/// The signature tells the name and the types of an event: two schemas
/// with resolved parameter types, whose names hold no opening bracket,
/// have one signature only if they have one name and the same parameter
/// types in the same order. So another name, or another type for any
/// parameter, gives another signature.
pub proof fn lemma_signature_tells(a: Schema, b: Schema)
    requires
        schema_wf(a),
        schema_wf(b),
        !a.name.contains('('),
        !b.name.contains('('),
        schema_signature(a) == schema_signature(b),
    ensures
        a.name == b.name,
        crate::schema::param_tys(a.params) == crate::schema::param_tys(b.params),
{
    crate::unique::lemma_signature_unique(
        a.name,
        crate::schema::param_tys(a.params),
        b.name,
        crate::schema::param_tys(b.params),
    );
}

/// The number of topics is one for the selector, unless the event is
/// anonymous, and one for each indexed parameter; a well-formed schema has
/// no more than four.
pub proof fn lemma_topic_count(s: Schema, r: Seq<Val>)
    requires
        schema_wf(s),
    ensures
        topic_count(s) == indexed_count(s.params, s.params.len()) + if s.anonymous {
            0nat
        } else {
            1nat
        },
        topic_count(s) <= 4,
        topics_of(s, r).len() == topic_count(s),
{
    lemma_indexed_topics_len(s.params, r, s.params.len());
}

/// The anonymous flag: of two schemas that differ in it alone, the
/// anonymous one has one topic less, and its topics are those of the other
/// without the selector in front.
pub proof fn lemma_anonymous_effect(named: Schema, anonymous: Schema, r: Seq<Val>)
    requires
        !named.anonymous,
        anonymous.anonymous,
        named.name == anonymous.name,
        named.params == anonymous.params,
    ensures
        topic_count(anonymous) + 1 == topic_count(named),
        topics_of(named, r) == seq![schema_selector(named)] + topics_of(anonymous, r),
        topics_of(named, r)[0] == schema_selector(named),
        topics_of(named, r).skip(1) == topics_of(anonymous, r),
        data_of(named, r) == data_of(anonymous, r),
{
    assert(topics_of(named, r) =~= seq![schema_selector(named)] + topics_of(anonymous, r));
    assert(topics_of(named, r).skip(1) =~= topics_of(anonymous, r));
}

/// Whether each topic is a word of 32 bytes.
pub open spec fn all_words(topics: Seq<Seq<u8>>) -> bool {
    forall|i: int| 0 <= i < topics.len() ==> (#[trigger] topics[i]).len() == 32
}

/// The values decoded from the topics of the parameters fit them.
pub proof fn lemma_dec_indexed_fits(s: Schema, words: Seq<Seq<u8>>, k: nat)
    requires
        schema_wf(s),
        k <= s.params.len(),
        all_words(words),
        words.len() >= indexed_count(s.params, s.params.len()),
        dec_indexed(s.params, words, k) is Ok,
    ensures
        dec_indexed(s.params, words, k)->Ok_0.len() == indexed_count(s.params, k),
        forall|j: int|
            0 <= j < k && s.params[j].indexed ==> field_fits(
                s.params[j],
                #[trigger] dec_indexed(s.params, words, k)->Ok_0[indexed_count(
                    s.params,
                    j as nat,
                ) as int],
            ),
    decreases k,
{
    if k > 0 {
        let ps = s.params;
        let i = (k - 1) as nat;
        let p = ps[i as int];
        let before = dec_indexed(ps, words, i)->Ok_0;
        let after = dec_indexed(ps, words, k)->Ok_0;
        lemma_dec_indexed_fits(s, words, i);
        lemma_indexed_count_grows(ps, k, ps.len());
        if p.indexed {
            let w = words[indexed_count(ps, i) as int];
            assert(w.len() == 32);
            assert(ty_resolved(p.ty));
            assert(fits_topic(p));
            if !ty_dynamic(p.ty) {
                crate::inverse::lemma_word_typed(p.ty, w);
            }
        }
        assert forall|j: int| 0 <= j < k && ps[j].indexed implies field_fits(
            ps[j],
            #[trigger] after[indexed_count(ps, j as nat) as int],
        ) by {
            if j < i {
                lemma_indexed_count_grows(ps, (j + 1) as nat, i);
                assert(after[indexed_count(ps, j as nat) as int] == before[indexed_count(
                    ps,
                    j as nat,
                ) as int]);
            }
        }
    }
}

/// Field `i` of a record that was put together is the next value of the
/// indexed parameters or of the others.
pub proof fn lemma_merged_at(ps: Seq<Param>, indexed: Seq<Val>, others: Seq<Val>, k: nat, i: int)
    requires
        0 <= i < k <= ps.len(),
    ensures
        merged(ps, indexed, others, k).len() == k,
        merged(ps, indexed, others, k)[i] == if ps[i].indexed {
            indexed[indexed_count(ps, i as nat) as int]
        } else {
            others[i - indexed_count(ps, i as nat)]
        },
    decreases k,
{
    lemma_merged_len(ps, indexed, others, k);
    lemma_merged_len(ps, indexed, others, (k - 1) as nat);
    if i < k - 1 {
        lemma_merged_at(ps, indexed, others, (k - 1) as nat, i);
    }
}

pub proof fn lemma_merged_len(ps: Seq<Param>, indexed: Seq<Val>, others: Seq<Val>, k: nat)
    requires
        k <= ps.len(),
    ensures
        merged(ps, indexed, others, k).len() == k,
    decreases k,
{
    if k > 0 {
        lemma_merged_len(ps, indexed, others, (k - 1) as nat);
    }
}

/// A record that was decoded from a log fits the schema: each field holds
/// a value of its parameter's type, or a digest where a topic carries the
/// parameter as a digest. So it can be encoded again.
pub proof fn lemma_decoded_record_fits(s: Schema, log: Log)
    requires
        schema_wf(s),
        all_words(log.topics),
        to_record_spec(s, log) is Ok,
    ensures
        record_fits(s, to_record_spec(s, log)->Ok_0),
{
    let ps = s.params;
    let n = ps.len();
    let r = to_record_spec(s, log)->Ok_0;
    let indexed = dec_topics(s, log.topics)->Ok_0;
    let others = dec_data(s, log.data)->Ok_0;
    let words = log.topics.skip(leading_topics(s).len() as int);
    let tys = data_tys(ps, n);
    let t = Ty::Tuple(tys);
    assert(all_words(words));
    lemma_dec_indexed_fits(s, words, n);
    lemma_data_tys_resolved(ps, n);
    lemma_indexed_count_bound(ps, n);
    assert(members_resolved(t, tys.len())) by {
        assert forall|i: int| 0 <= i < tys.len() implies ty_resolved(#[trigger] member_ty(t, i)) by {
            assert(ty_resolved(tys[i]));
        }
    }
    assert(dec(t, log.data) is Ok);
    assert(dec_members(t, tys.len(), log.data, tys.len()) is Ok);
    assert(others == dec_members(t, tys.len(), log.data, tys.len())->Ok_0.values);
    crate::inverse::lemma_dec_members_typed(t, tys.len(), log.data, tys.len());
    lemma_members_typed(others, t, tys.len());
    lemma_merged_len(ps, indexed, others, n);
    lemma_data_values_len(ps, r, n);
    assert forall|i: int| 0 <= i < r.len() implies field_fits(ps[i], #[trigger] r[i]) by {
        lemma_merged_at(ps, indexed, others, n, i);
        if ps[i].indexed {
            lemma_indexed_count_grows(ps, (i + 1) as nat, n);
            assert(field_fits(ps[i], indexed[indexed_count(ps, i as nat) as int]));
        } else {
            lemma_data_value_at(ps, r, n, i as nat);
            lemma_indexed_count_bound(ps, i as nat);
            let at = i - indexed_count(ps, i as nat);
            assert(0 <= at < others.len());
            assert(has_type(
                others[i - indexed_count(ps, i as nat)],
                member_ty(t, i - indexed_count(ps, i as nat)),
            ));
        }
    }
}

/// Round trip of what the library holds: where no indexed parameter has a
/// dynamic type, the log that `from_record` gives for a record is decoded
/// by `to_record` to that record. A log in memory is always short enough.
pub proof fn lemma_round_trip_of_log(
    schema: crate::schema::EventSchema,
    record: crate::record::EventRecord,
    log: crate::record::LogData,
)
    requires
        schema.wf(),
        from_record_spec(schema@, record@) == Ok::<Log, Error>(log@),
        forall|i: int| 0 <= i < schema@.params.len() ==> !hashed(#[trigger] schema@.params[i]),
    ensures
        to_record_spec(schema@, log@) == Ok::<Seq<Val>, Error>(record@),
{
    assert(log.data@.len() == log.data.len());
    crate::word::lemma_u64_below_word_limit();
    lemma_round_trip(schema@, record@);
}

} // verus!
