//! Topics: the words that carry the selector and the indexed parameters
//! of an event.

use crate::decode::val_of_word;
use crate::encode::{enc, encode_into};
use crate::error::Error;
use crate::hash::{keccak, keccak256};
use crate::inverse::lemma_word_inverse;
use crate::schema::{
    fits_topic, hashed, indexed_count, schema_selector, topic_count, EventParameter, Param,
    Schema,
};
use crate::types::{ty_dynamic, ty_resolved};
use crate::value::{has_type, word_fits, word_fits_type, AbiValue, Val};
use crate::word::word_from_slice;
use vstd::prelude::*;
use vstd::utf8::encode_utf8;

verus! {

/// The models of a list of words, one by one.
pub open spec fn words_of(ws: Seq<[u8; 32]>) -> Seq<Seq<u8>> {
    Seq::new(ws.len(), |i: int| ws[i]@)
}

/// The bytes that are hashed for a dynamic value under an index: the
/// bytes of a byte string, those of a string in UTF-8, and the encoding of
/// an array or a tuple.
pub open spec fn hashed_form(v: Val) -> Seq<u8> {
    match v {
        Val::Bytes(b) => b,
        Val::Str(s) => encode_utf8(s),
        _ => enc(v),
    }
}

/// A digest: 32 bytes, held as a byte string of fixed length.
pub open spec fn is_digest(v: Val) -> bool {
    v matches Val::FixedBytes(b) && b.len() == 32
}

/// Whether a record can hold `v` for the parameter: a value of the
/// parameter's type, or the digest of one where a topic carries the
/// parameter as a digest.
pub open spec fn field_fits(p: Param, v: Val) -> bool {
    has_type(v, p.ty) || (hashed(p) && is_digest(v))
}

/// The topic of an indexed parameter with the value `v`: the one word of
/// the value's encoding, or, where the parameter's type is dynamic, the
/// digest of the value's hashed form; a digest stands for itself.
pub open spec fn topic_of(p: Param, v: Val) -> Seq<u8> {
    if ty_dynamic(p.ty) {
        match v {
            Val::FixedBytes(digest) => digest,
            _ => keccak256(hashed_form(v)),
        }
    } else {
        enc(v)
    }
}

/// The topics of the indexed parameters among the first `k`, in their
/// order.
pub open spec fn indexed_topics(ps: Seq<Param>, r: Seq<Val>, k: nat) -> Seq<Seq<u8>>
    decreases k,
{
    if k == 0 || k > ps.len() {
        Seq::empty()
    } else if ps[k - 1].indexed {
        indexed_topics(ps, r, (k - 1) as nat).push(topic_of(ps[k - 1], r[k - 1]))
    } else {
        indexed_topics(ps, r, (k - 1) as nat)
    }
}

/// The topics in front of those of the parameters: the selector, unless
/// the event is anonymous.
pub open spec fn leading_topics(s: Schema) -> Seq<Seq<u8>> {
    if s.anonymous {
        Seq::empty()
    } else {
        seq![schema_selector(s)]
    }
}

/// The topics of an event with the record `r`.
pub open spec fn topics_of(s: Schema, r: Seq<Val>) -> Seq<Seq<u8>> {
    leading_topics(s) + indexed_topics(s.params, r, s.params.len())
}

/// The value that the topic `w` holds for an indexed parameter: the
/// digest itself where the parameter's type is dynamic, else the value of
/// the parameter's type whose word `w` is.
pub open spec fn dec_topic(p: Param, w: Seq<u8>) -> Result<Val, Error> {
    if ty_dynamic(p.ty) {
        Ok(Val::FixedBytes(w))
    } else if word_fits(p.ty, w) {
        Ok(val_of_word(p.ty, w))
    } else {
        Err(Error::TypeMismatch)
    }
}

/// The values of the indexed parameters among the first `k`, read from
/// the topics `words` of the parameters.
pub open spec fn dec_indexed(ps: Seq<Param>, words: Seq<Seq<u8>>, k: nat) -> Result<
    Seq<Val>,
    Error,
>
    decreases k,
{
    if k == 0 || k > ps.len() {
        Ok(Seq::empty())
    } else {
        match dec_indexed(ps, words, (k - 1) as nat) {
            Err(e) => Err(e),
            Ok(values) => if ps[k - 1].indexed {
                match dec_topic(ps[k - 1], words[indexed_count(ps, (k - 1) as nat) as int]) {
                    Err(e) => Err(e),
                    Ok(v) => Ok(values.push(v)),
                }
            } else {
                Ok(values)
            },
        }
    }
}

/// The values of the indexed parameters, read from the topics of an
/// event. The selector, where there is one, is passed over and not
/// looked at. It fails with `TypeMismatch` where the topics are not as
/// many as the schema asks for, or one is not a word of its type.
pub open spec fn dec_topics(s: Schema, topics: Seq<Seq<u8>>) -> Result<Seq<Val>, Error> {
    if topics.len() != topic_count(s) {
        Err(Error::TypeMismatch)
    } else {
        dec_indexed(s.params, topics.skip(leading_topics(s).len() as int), s.params.len())
    }
}

pub proof fn lemma_indexed_topics_len(ps: Seq<Param>, r: Seq<Val>, k: nat)
    requires
        k <= ps.len(),
    ensures
        indexed_topics(ps, r, k).len() == indexed_count(ps, k),
    decreases k,
{
    if k > 0 {
        lemma_indexed_topics_len(ps, r, (k - 1) as nat);
    }
}

/// Decoding that has failed stays failed.
pub proof fn lemma_dec_indexed_err(ps: Seq<Param>, words: Seq<Seq<u8>>, i: nat, k: nat)
    requires
        i <= k <= ps.len(),
        dec_indexed(ps, words, i) is Err,
    ensures
        dec_indexed(ps, words, k) == dec_indexed(ps, words, i),
    decreases k,
{
    if i < k {
        lemma_dec_indexed_err(ps, words, i, (k - 1) as nat);
    }
}

pub proof fn lemma_words_of_push(ws: Seq<[u8; 32]>, w: [u8; 32])
    ensures
        words_of(ws.push(w)) == words_of(ws).push(w@),
{
    assert(words_of(ws.push(w)) =~= words_of(ws).push(w@));
}

/// The topic of an indexed parameter with the value `value`.
pub fn topic_word(param: &EventParameter, value: &AbiValue) -> (w: [u8; 32])
    requires
        param.indexed,
        ty_resolved(param@.ty),
        fits_topic(param@),
        field_fits(param@, value@),
    ensures
        w@ == topic_of(param@, value@),
{
    if param.ty.is_dynamic() {
        match value {
            AbiValue::FixedBytes(digest) => word_from_slice(digest.as_slice()),
            AbiValue::Bytes(b) => keccak(b.as_slice()),
            AbiValue::String(s) => keccak(s.as_str().as_bytes()),
            _ => {
                let mut form: Vec<u8> = Vec::new();
                encode_into(value, &mut form);
                assert(form@ =~= enc(value@));
                keccak(form.as_slice())
            },
        }
    } else {
        let mut word: Vec<u8> = Vec::new();
        encode_into(value, &mut word);
        proof {
            lemma_word_inverse(value@, param@.ty);
            assert(word@ =~= enc(value@));
        }
        word_from_slice(word.as_slice())
    }
}

/// The value that the topic `w` holds for an indexed parameter.
pub fn topic_value(param: &EventParameter, w: &[u8; 32]) -> (r: Result<AbiValue, Error>)
    requires
        ty_resolved(param@.ty),
    ensures
        match r {
            Ok(v) => dec_topic(param@, w@) == Ok::<Val, Error>(v@),
            Err(e) => dec_topic(param@, w@) == Err::<Val, Error>(e),
        },
{
    if param.ty.is_dynamic() {
        Ok(AbiValue::FixedBytes(vstd::slice::slice_to_vec(w.as_slice())))
    } else if word_fits_type(&param.ty, w.as_slice()) {
        match crate::decode::decode(&param.ty, w.as_slice()) {
            Ok((v, _)) => {
                assert(w@.subrange(0, 32) =~= w@);
                Ok(v)
            },
            Err(e) => {
                assert(w@.subrange(0, 32) =~= w@);
                Err(e)
            },
        }
    } else {
        Err(Error::TypeMismatch)
    }
}

/// Writes the topics into the first slots of `out`, if it has a slot for
/// each; else it fails with `TopicOverrun` and leaves `out` as it was.
pub fn put_topics(topics: &Vec<[u8; 32]>, out: &mut [[u8; 32]]) -> (r: Result<(), Error>)
    ensures
        final(out)@.len() == old(out)@.len(),
        old(out)@.len() < topics@.len() ==> r == Err::<(), Error>(Error::TopicOverrun)
            && final(out)@ == old(out)@,
        old(out)@.len() >= topics@.len() ==> r == Ok::<(), Error>(()),
        old(out)@.len() >= topics@.len() ==> forall|i: int|
            0 <= i < final(out)@.len() ==> #[trigger] final(out)@[i] == if i < topics@.len() {
                topics@[i]
            } else {
                old(out)@[i]
            },
{
    if out.len() < topics.len() {
        return Err(Error::TopicOverrun);
    }
    let n: usize = topics.len();
    let mut i: usize = 0;
    while i < n
        invariant
            i <= n,
            n == topics@.len(),
            n <= out@.len(),
            out@.len() == old(out)@.len(),
            forall|j: int| 0 <= j < i ==> out@[j] == topics@[j],
            forall|j: int| i <= j < out@.len() ==> out@[j] == old(out)@[j],
        decreases n - i,
    {
        out[i] = topics[i];
        i += 1;
    }
    Ok(())
}

} // verus!
