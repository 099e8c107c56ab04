//! The tamper-evident result digest and the storage path layout.
//!
//! The digest absorbs, in a fixed order: the job id, the completion
//! time as RFC 3339 text, then for each model id in lexicographic
//! order the id, its outputs in list order (prompt id and output
//! text), and its metric names in lexicographic order with each
//! aggregate score as eight big-endian bytes. The digest deliberately
//! covers nothing else: performance figures, error lists and the
//! summary can change without being detected.

use vstd::prelude::*;
use vstd::relations::sorted_by;
use vstd::seq_lib::lemma_sorted_unique;
use vstd::string::{StrSliceExecFns, StringExecFns};
use vstd::utf8::encode_utf8;
use crate::Score;
use crate::text::{lex_leq, lex_leq_rel, lemma_lex_total_ordering, str_lex_leq};
use crate::types::{EvaluationResults, MetricResult, ModelOutput, ModelResults};
use base64::Engine;

verus! {

/// The blake3 digest of a byte string.
pub uninterp spec fn blake3_of(input: Seq<u8>) -> Seq<u8>;

/// Relies on `blake3::hash`: a 32-byte digest that depends on the
/// input bytes alone.
#[verifier::external_body]
fn blake3_hash(input: &Vec<u8>) -> (r: Vec<u8>)
    ensures
        r@ == blake3_of(input@),
        r@.len() == 32,
{
    blake3::hash(input.as_slice()).as_bytes().to_vec()
}

/// The standard base64 text of a byte string.
pub uninterp spec fn base64_of(input: Seq<u8>) -> Seq<char>;

/// Relies on base64's standard engine: the RFC 4648 standard-alphabet
/// text of the bytes, which depends on the bytes alone.
#[verifier::external_body]
fn base64_encode(input: &Vec<u8>) -> (r: String)
    ensures
        r@ == base64_of(input@),
{
    base64::engine::general_purpose::STANDARD.encode(input.as_slice())
}

/// The RFC 3339 text of a Unix-millisecond timestamp.
pub uninterp spec fn rfc3339_of(millis: i64) -> Seq<char>;

/// Relies on chrono's UTC calendar arithmetic and RFC 3339 formatting:
/// the text depends on the millisecond timestamp alone (empty for a
/// timestamp outside chrono's representable range).
#[verifier::external_body]
pub fn rfc3339_of_millis(millis: i64) -> (r: String)
    ensures
        r@ == rfc3339_of(millis),
{
    match chrono::TimeZone::timestamp_millis_opt(&chrono::Utc, millis) {
        chrono::LocalResult::Single(t) => t.to_rfc3339(),
        _ => String::new(),
    }
}

/// The eight big-endian bytes of a score.
pub open spec fn be_bytes(x: u64) -> Seq<u8> {
    seq![
        (x >> 56) as u8,
        (x >> 48) as u8,
        (x >> 40) as u8,
        (x >> 32) as u8,
        (x >> 24) as u8,
        (x >> 16) as u8,
        (x >> 8) as u8,
        x as u8,
    ]
}

/// The metric names of one model's result list, in list order.
pub open spec fn metric_names_of(ms: Seq<MetricResult>) -> Seq<Seq<char>> {
    ms.map_values(|m: MetricResult| m.metric_name@)
}

/// The model ids of a result list, in list order.
pub open spec fn model_ids_of(mrs: Seq<ModelResults>) -> Seq<Seq<char>> {
    mrs.map_values(|m: ModelResults| m.model_id@)
}

/// The first metric entry with the given name, if any.
pub open spec fn find_metric(ms: Seq<MetricResult>, name: Seq<char>) -> Option<MetricResult>
    decreases ms.len(),
{
    if ms.len() == 0 {
        None
    } else if ms[0].metric_name@ == name {
        Some(ms[0])
    } else {
        find_metric(ms.drop_first(), name)
    }
}

/// The first model entry with the given id, if any.
pub open spec fn find_model(mrs: Seq<ModelResults>, id: Seq<char>) -> Option<ModelResults>
    decreases mrs.len(),
{
    if mrs.len() == 0 {
        None
    } else if mrs[0].model_id@ == id {
        Some(mrs[0])
    } else {
        find_model(mrs.drop_first(), id)
    }
}

/// No two models share an id.
pub open spec fn unique_model_ids(mrs: Seq<ModelResults>) -> bool {
    forall|i: int, j: int|
        0 <= i < j < mrs.len() ==> mrs[i].model_id@ != mrs[j].model_id@
}

/// No two metric entries share a name.
pub open spec fn unique_metric_names(ms: Seq<MetricResult>) -> bool {
    forall|i: int, j: int|
        0 <= i < j < ms.len() ==> ms[i].metric_name@ != ms[j].metric_name@
}

/// The association-list shape the digest assumes of a result set:
/// model ids unique, and each model's metric names unique.
pub open spec fn results_keyed(r: EvaluationResults) -> bool {
    &&& unique_model_ids(r.model_results@)
    &&& forall|i: int|
        0 <= i < r.model_results@.len()
            ==> unique_metric_names(#[trigger] r.model_results@[i].metrics@)
}

/// The bytes the digest absorbs for the named metrics of one model,
/// walking `names` in order: each name, then its aggregate score.
pub open spec fn metrics_bytes(names: Seq<Seq<char>>, ms: Seq<MetricResult>) -> Seq<u8>
    decreases names.len(),
{
    if names.len() == 0 {
        Seq::empty()
    } else {
        metrics_bytes(names.drop_last(), ms) + encode_utf8(names.last()) + be_bytes(
            match find_metric(ms, names.last()) {
                Some(m) => m.score,
                None => 0u64,
            },
        )
    }
}

/// The bytes the digest absorbs for one model's outputs, in list
/// order: each prompt id, then the output text.
pub open spec fn outputs_bytes(outs: Seq<ModelOutput>) -> Seq<u8>
    decreases outs.len(),
{
    if outs.len() == 0 {
        Seq::empty()
    } else {
        outputs_bytes(outs.drop_last()) + encode_utf8(outs.last().prompt_id@) + encode_utf8(
            outs.last().output@,
        )
    }
}

/// The bytes the digest absorbs for one model: its id, its outputs,
/// and its metrics sorted by name.
pub open spec fn model_bytes(m: ModelResults) -> Seq<u8> {
    encode_utf8(m.model_id@) + outputs_bytes(m.outputs@) + metrics_bytes(
        metric_names_of(m.metrics@).sort_by(lex_leq_rel()),
        m.metrics@,
    )
}

/// The bytes the digest absorbs for all models, walking the given id
/// order.
pub open spec fn models_bytes(ids: Seq<Seq<char>>, mrs: Seq<ModelResults>) -> Seq<u8>
    decreases ids.len(),
{
    if ids.len() == 0 {
        Seq::empty()
    } else {
        models_bytes(ids.drop_last(), mrs) + match find_model(mrs, ids.last()) {
            Some(m) => model_bytes(m),
            None => Seq::empty(),
        }
    }
}

/// Everything the verification digest covers, as one byte string: job
/// id, completion time, then each model in lexicographic id order.
pub open spec fn digest_input(r: EvaluationResults) -> Seq<u8> {
    encode_utf8(r.job_id@) + encode_utf8(rfc3339_of(r.completed_at_ms)) + models_bytes(
        model_ids_of(r.model_results@).sort_by(lex_leq_rel()),
        r.model_results@,
    )
}

/// The verification hash of a result set: the base64 text of the
/// blake3 digest of everything the digest covers.
pub open spec fn hash_of(r: EvaluationResults) -> Seq<char> {
    base64_of(blake3_of(digest_input(r)))
}

/// The key strings an index order selects, in order.
pub open spec fn keys_at(kv: Seq<Seq<char>>, idx: Seq<usize>) -> Seq<Seq<char>> {
    idx.map_values(|i: usize| kv[i as int])
}

/// An index order on `keys` that walks them in lexicographic order:
/// the keys it selects are exactly `keys` sorted.
fn sorted_order(keys: &Vec<String>) -> (idx: Vec<usize>)
    ensures
        idx@.len() == keys@.len(),
        forall|k: int| 0 <= k < idx@.len() ==> idx@[k] < keys@.len(),
        keys_at(keys.deep_view(), idx@) == keys.deep_view().sort_by(lex_leq_rel()),
{
    let ghost kv = keys.deep_view();
    let ghost rel = lex_leq_rel();
    let n = keys.len();
    let mut remaining: Vec<usize> = Vec::new();
    let mut i: usize = 0;
    while i < n
        invariant
            i <= n,
            remaining@.len() == i,
            forall|k: int| 0 <= k < i ==> remaining@[k] == k,
        decreases n - i,
    {
        remaining.push(i);
        i = i + 1;
    }
    proof {
        assert(keys_at(kv, remaining@) =~= kv) by {
            assert(kv.len() == n);
        }
        assert(keys_at(kv, Seq::empty()) =~= Seq::<Seq<char>>::empty());
        assert(keys_at(kv, Seq::empty()).to_multiset().add(keys_at(kv, remaining@).to_multiset())
            =~= kv.to_multiset()) by {
            broadcast use vstd::seq_lib::group_to_multiset_ensures;
        }
    }
    let mut out: Vec<usize> = Vec::new();
    while remaining.len() > 0
        invariant
            kv == keys.deep_view(),
            kv.len() == n,
            n == keys@.len(),
            rel == lex_leq_rel(),
            forall|k: int| 0 <= k < out@.len() ==> out@[k] < n,
            forall|k: int| 0 <= k < remaining@.len() ==> remaining@[k] < n,
            out@.len() + remaining@.len() == n,
            sorted_by(keys_at(kv, out@), rel),
            forall|a: int, b: int|
                0 <= a < out@.len() && 0 <= b < remaining@.len()
                    ==> lex_leq(kv[out@[a] as int], kv[remaining@[b] as int]),
            keys_at(kv, out@).to_multiset().add(keys_at(kv, remaining@).to_multiset())
                == kv.to_multiset(),
        decreases remaining@.len(),
    {
        let mut best: usize = 0;
        let mut j: usize = 1;
        proof {
            crate::text::lemma_lex_refl(kv[remaining@[0] as int]);
        }
        while j < remaining.len()
            invariant
                kv == keys.deep_view(),
                n == keys@.len(),
                remaining@.len() > 0,
                forall|k: int| 0 <= k < remaining@.len() ==> remaining@[k] < n,
                best < remaining@.len(),
                1 <= j <= remaining@.len(),
                forall|k: int|
                    0 <= k < j ==> lex_leq(kv[remaining@[best as int] as int],
                        kv[remaining@[k] as int]),
            decreases remaining@.len() - j,
        {
            let cand = remaining[j];
            let cur = remaining[best];
            if str_lex_leq(keys[cand].as_str(), keys[cur].as_str()) {
                proof {
                    assert(keys@[cand as int]@ == kv[cand as int]);
                    assert(keys@[cur as int]@ == kv[cur as int]);
                    assert forall|k: int| 0 <= k < j + 1 implies lex_leq(
                        kv[remaining@[j as int] as int],
                        kv[remaining@[k] as int],
                    ) by {
                        if k < j {
                            crate::text::lemma_lex_trans(
                                kv[remaining@[j as int] as int],
                                kv[remaining@[best as int] as int],
                                kv[remaining@[k] as int],
                            );
                        } else {
                            crate::text::lemma_lex_refl(kv[remaining@[j as int] as int]);
                        }
                    }
                }
                best = j;
            } else {
                proof {
                    assert(keys@[cand as int]@ == kv[cand as int]);
                    assert(keys@[cur as int]@ == kv[cur as int]);
                    crate::text::lemma_lex_connected(
                        kv[remaining@[best as int] as int],
                        kv[remaining@[j as int] as int],
                    );
                }
            }
            j = j + 1;
        }
        let ghost old_out = out@;
        let ghost old_rem = remaining@;
        let chosen = remaining.remove(best);
        out.push(chosen);
        proof {
            broadcast use vstd::seq_lib::group_to_multiset_ensures;
            let key_min = kv[chosen as int];
            assert(keys_at(kv, out@) =~= keys_at(kv, old_out).push(key_min));
            assert(keys_at(kv, remaining@) =~= keys_at(kv, old_rem).remove(best as int));
            assert(keys_at(kv, old_rem)[best as int] == key_min);
            // the selected key closes off the sorted prefix
            assert forall|a: int, b: int|
                0 <= a < b < keys_at(kv, out@).len() implies rel(
                keys_at(kv, out@)[a],
                keys_at(kv, out@)[b],
            ) by {
                if b == keys_at(kv, out@).len() - 1 {
                    assert(lex_leq(kv[old_out[a] as int], key_min));
                }
            }
            assert(sorted_by(keys_at(kv, out@), rel));
            // the selected key was minimal among what remains
            assert forall|a: int, b: int|
                0 <= a < out@.len() && 0 <= b < remaining@.len() implies lex_leq(
                kv[out@[a] as int],
                kv[remaining@[b] as int],
            ) by {
                let e = remaining@[b];
                assert(e == old_rem[if b < best as int { b } else { b + 1 }]);
                if a < out@.len() - 1 {
                    assert(lex_leq(kv[old_out[a] as int], kv[e as int]));
                } else {
                    assert(lex_leq(key_min, kv[e as int]));
                }
            }
            // multiset bookkeeping: moving one element keeps the union
            assert(keys_at(kv, old_out).push(key_min).to_multiset()
                =~= keys_at(kv, old_out).to_multiset().insert(key_min));
            assert(keys_at(kv, old_rem).remove(best as int).to_multiset()
                =~= keys_at(kv, old_rem).to_multiset().remove(key_min));
            assert(keys_at(kv, old_rem).to_multiset().count(key_min) > 0);
            assert(keys_at(kv, out@).to_multiset().add(keys_at(kv, remaining@).to_multiset())
                =~= kv.to_multiset());
        }
    }
    proof {
        broadcast use vstd::seq_lib::group_to_multiset_ensures;
        assert(keys_at(kv, remaining@) =~= Seq::<Seq<char>>::empty());
        assert(keys_at(kv, out@).to_multiset() =~= kv.to_multiset());
        lemma_lex_total_ordering();
        kv.lemma_sort_by_ensures(rel);
        lemma_sorted_unique(keys_at(kv, out@), kv.sort_by(rel), rel);
    }
    out
}

/// Whether two model entries agree on everything the digest reads of a
/// model: its id, the prompt ids and texts of its outputs in order,
/// and the name and aggregate score of each metric entry in order.
/// Performance figures, error lists, output metadata, metric details
/// and per-prompt scores are free to differ.
pub open spec fn model_digest_eq(a: ModelResults, b: ModelResults) -> bool {
    &&& a.model_id@ == b.model_id@
    &&& a.outputs@.len() == b.outputs@.len()
    &&& forall|i: int|
        0 <= i < a.outputs@.len() ==> #[trigger] a.outputs@[i].prompt_id@
            == b.outputs@[i].prompt_id@ && a.outputs@[i].output@ == b.outputs@[i].output@
    &&& a.metrics@.len() == b.metrics@.len()
    &&& forall|i: int|
        0 <= i < a.metrics@.len() ==> #[trigger] a.metrics@[i].metric_name@
            == b.metrics@[i].metric_name@ && a.metrics@[i].score == b.metrics@[i].score
}

proof fn lemma_outputs_bytes_eq(oa: Seq<ModelOutput>, ob: Seq<ModelOutput>)
    requires
        oa.len() == ob.len(),
        forall|i: int|
            0 <= i < oa.len() ==> #[trigger] oa[i].prompt_id@ == ob[i].prompt_id@
                && oa[i].output@ == ob[i].output@,
    ensures
        outputs_bytes(oa) == outputs_bytes(ob),
    decreases oa.len(),
{
    if oa.len() > 0 {
        lemma_outputs_bytes_eq(oa.drop_last(), ob.drop_last());
    }
}

proof fn lemma_find_metric_eq(ma: Seq<MetricResult>, mb: Seq<MetricResult>, name: Seq<char>)
    requires
        ma.len() == mb.len(),
        forall|i: int|
            0 <= i < ma.len() ==> #[trigger] ma[i].metric_name@ == mb[i].metric_name@
                && ma[i].score == mb[i].score,
    ensures
        find_metric(ma, name) is Some <==> find_metric(mb, name) is Some,
        find_metric(ma, name) matches Some(x) ==> find_metric(mb, name) matches Some(y)
            && x.score == y.score,
    decreases ma.len(),
{
    if ma.len() > 0 && ma[0].metric_name@ != name {
        assert forall|i: int|
            0 <= i < ma.drop_first().len() implies #[trigger] ma.drop_first()[i].metric_name@
                == mb.drop_first()[i].metric_name@
                && ma.drop_first()[i].score == mb.drop_first()[i].score by {
            assert(ma.drop_first()[i] == ma[i + 1]);
            assert(mb.drop_first()[i] == mb[i + 1]);
        }
        lemma_find_metric_eq(ma.drop_first(), mb.drop_first(), name);
    }
}

proof fn lemma_metrics_bytes_eq(
    names: Seq<Seq<char>>,
    ma: Seq<MetricResult>,
    mb: Seq<MetricResult>,
)
    requires
        ma.len() == mb.len(),
        forall|i: int|
            0 <= i < ma.len() ==> #[trigger] ma[i].metric_name@ == mb[i].metric_name@
                && ma[i].score == mb[i].score,
    ensures
        metrics_bytes(names, ma) == metrics_bytes(names, mb),
    decreases names.len(),
{
    if names.len() > 0 {
        lemma_metrics_bytes_eq(names.drop_last(), ma, mb);
        lemma_find_metric_eq(ma, mb, names.last());
    }
}

proof fn lemma_model_bytes_eq(a: ModelResults, b: ModelResults)
    requires
        model_digest_eq(a, b),
    ensures
        model_bytes(a) == model_bytes(b),
{
    lemma_outputs_bytes_eq(a.outputs@, b.outputs@);
    assert(metric_names_of(a.metrics@) =~= metric_names_of(b.metrics@));
    lemma_metrics_bytes_eq(
        metric_names_of(a.metrics@).sort_by(lex_leq_rel()),
        a.metrics@,
        b.metrics@,
    );
}

proof fn lemma_find_model_eq(am: Seq<ModelResults>, bm: Seq<ModelResults>, id: Seq<char>)
    requires
        am.len() == bm.len(),
        forall|i: int| 0 <= i < am.len() ==> model_digest_eq(#[trigger] am[i], bm[i]),
    ensures
        find_model(am, id) is Some <==> find_model(bm, id) is Some,
        find_model(am, id) matches Some(x) ==> find_model(bm, id) matches Some(y)
            && model_digest_eq(x, y),
    decreases am.len(),
{
    if am.len() > 0 && am[0].model_id@ != id {
        assert forall|i: int|
            0 <= i < am.drop_first().len() implies model_digest_eq(
            #[trigger] am.drop_first()[i],
            bm.drop_first()[i],
        ) by {
            assert(am.drop_first()[i] == am[i + 1]);
            assert(bm.drop_first()[i] == bm[i + 1]);
        }
        lemma_find_model_eq(am.drop_first(), bm.drop_first(), id);
    }
}

proof fn lemma_models_bytes_eq(
    ids: Seq<Seq<char>>,
    am: Seq<ModelResults>,
    bm: Seq<ModelResults>,
)
    requires
        am.len() == bm.len(),
        forall|i: int| 0 <= i < am.len() ==> model_digest_eq(#[trigger] am[i], bm[i]),
    ensures
        models_bytes(ids, am) == models_bytes(ids, bm),
    decreases ids.len(),
{
    if ids.len() > 0 {
        lemma_models_bytes_eq(ids.drop_last(), am, bm);
        lemma_find_model_eq(am, bm, ids.last());
        match find_model(am, ids.last()) {
            Some(x) => {
                let y = find_model(bm, ids.last()).unwrap();
                lemma_model_bytes_eq(x, y);
            },
            None => {},
        }
    }
}

/// The digest covers only the job id, the completion time, and each
/// model's id, output texts and aggregate metric scores: two result
/// sets that agree on those have the same verification hash, whatever
/// their performance figures, error lists, summaries, cross-model
/// averages or stored hashes say. In particular, a result set whose
/// `verification_hash` is set to `hash_of` of itself verifies, and
/// mutating only the uncovered fields cannot be detected.
pub proof fn lemma_digest_covers_only(a: EvaluationResults, b: EvaluationResults)
    requires
        a.job_id@ == b.job_id@,
        a.completed_at_ms == b.completed_at_ms,
        a.model_results@.len() == b.model_results@.len(),
        forall|i: int|
            0 <= i < a.model_results@.len() ==> model_digest_eq(
                #[trigger] a.model_results@[i],
                b.model_results@[i],
            ),
    ensures
        hash_of(a) == hash_of(b),
{
    assert(model_ids_of(a.model_results@) =~= model_ids_of(b.model_results@));
    lemma_models_bytes_eq(
        model_ids_of(a.model_results@).sort_by(lex_leq_rel()),
        a.model_results@,
        b.model_results@,
    );
}

/// Stamping a result set with its own hash makes it verify: the
/// digest never reads the stored `verification_hash`, so writing
/// `hash_of` of the unstamped record into that field yields a record
/// whose stored hash equals its recomputed one.
pub proof fn lemma_stamp_then_verify(a: EvaluationResults, b: EvaluationResults)
    requires
        b.job_id == a.job_id,
        b.completed_at_ms == a.completed_at_ms,
        b.model_results == a.model_results,
        b.verification_hash@ == hash_of(a),
    ensures
        b.verification_hash@ == hash_of(b),
{
    assert(digest_input(b) == digest_input(a));
}

proof fn lemma_map_multiset<A, B>(s1: Seq<A>, s2: Seq<A>, f: spec_fn(A) -> B)
    requires
        s1.to_multiset() == s2.to_multiset(),
    ensures
        s1.map_values(f).to_multiset() == s2.map_values(f).to_multiset(),
    decreases s1.len(),
{
    broadcast use vstd::seq_lib::group_to_multiset_ensures;

    if s1.len() == 0 {
        assert(s2.to_multiset().len() == 0);
        assert(s1.map_values(f) =~= Seq::<B>::empty());
        assert(s2.map_values(f) =~= Seq::<B>::empty());
    } else {
        let x = s1.last();
        let s1p = s1.drop_last();
        assert(s1 =~= s1p.push(x));
        assert(s1.contains(x));
        assert(s2.to_multiset().count(x) > 0);
        assert(s2.contains(x));
        let j = choose|j: int| 0 <= j < s2.len() && s2[j] == x;
        let s2p = s2.remove(j);
        assert(s1p.to_multiset() =~= s1.to_multiset().remove(x)) by {
            assert(s1p.push(x).to_multiset() =~= s1p.to_multiset().insert(x));
        }
        assert(s2p.to_multiset() =~= s2.to_multiset().remove(x));
        lemma_map_multiset(s1p, s2p, f);
        assert(s1.map_values(f) =~= s1p.map_values(f).push(f(x)));
        assert(s2p.map_values(f) =~= s2.map_values(f).remove(j));
        assert(s2.map_values(f)[j] == f(x));
        assert(s2.map_values(f).remove(j).to_multiset()
            =~= s2.map_values(f).to_multiset().remove(f(x)));
        assert(s2.map_values(f).contains(f(x)));
        assert(s2.map_values(f).to_multiset().count(f(x)) > 0);
        assert(s1.map_values(f).to_multiset()
            =~= s1p.map_values(f).to_multiset().insert(f(x)));
        assert(s1.map_values(f).to_multiset() =~= s2.map_values(f).to_multiset());
    }
}

proof fn lemma_find_model_some(mrs: Seq<ModelResults>, id: Seq<char>)
    requires
        find_model(mrs, id) is Some,
    ensures
        mrs.contains(find_model(mrs, id).unwrap()),
        find_model(mrs, id).unwrap().model_id@ == id,
    decreases mrs.len(),
{
    if mrs.len() > 0 && mrs[0].model_id@ != id {
        lemma_find_model_some(mrs.drop_first(), id);
        let m = find_model(mrs, id).unwrap();
        let w = choose|w: int|
            0 <= w < mrs.drop_first().len() && mrs.drop_first()[w] == m;
        assert(mrs[w + 1] == m);
    }
}

proof fn lemma_find_model_none(mrs: Seq<ModelResults>, id: Seq<char>)
    requires
        find_model(mrs, id) is None,
    ensures
        forall|i: int| 0 <= i < mrs.len() ==> mrs[i].model_id@ != id,
    decreases mrs.len(),
{
    if mrs.len() > 0 {
        lemma_find_model_none(mrs.drop_first(), id);
        assert forall|i: int| 0 <= i < mrs.len() implies mrs[i].model_id@ != id by {
            if i > 0 {
                assert(mrs.drop_first()[i - 1] == mrs[i]);
            }
        }
    }
}

proof fn lemma_unique_ids_perm(am: Seq<ModelResults>, bm: Seq<ModelResults>)
    requires
        unique_model_ids(am),
        am.to_multiset() == bm.to_multiset(),
    ensures
        unique_model_ids(bm),
{
    broadcast use vstd::seq_lib::group_to_multiset_ensures;

    assert(am.no_duplicates()) by {
        assert forall|i: int, j: int|
            0 <= i < am.len() && 0 <= j < am.len() && i != j implies am[i] != am[j] by {
            if i < j {
                assert(am[i].model_id@ != am[j].model_id@);
            } else {
                assert(am[j].model_id@ != am[i].model_id@);
            }
        }
    }
    am.lemma_multiset_has_no_duplicates();
    bm.lemma_multiset_has_no_duplicates_conv();
    assert forall|i: int, j: int|
        0 <= i < j < bm.len() implies bm[i].model_id@ != bm[j].model_id@ by {
        if bm[i].model_id@ == bm[j].model_id@ {
            assert(bm[i] != bm[j]);
            assert(bm.contains(bm[i]) && bm.contains(bm[j]));
            assert(am.to_multiset().count(bm[i]) > 0);
            assert(am.to_multiset().count(bm[j]) > 0);
            assert(am.contains(bm[i]) && am.contains(bm[j]));
            let p = choose|p: int| 0 <= p < am.len() && am[p] == bm[i];
            let q = choose|q: int| 0 <= q < am.len() && am[q] == bm[j];
            assert(p != q);
            if p < q {
                assert(am[p].model_id@ != am[q].model_id@);
            } else {
                assert(am[q].model_id@ != am[p].model_id@);
            }
        }
    }
}

proof fn lemma_find_model_perm(am: Seq<ModelResults>, bm: Seq<ModelResults>, id: Seq<char>)
    requires
        unique_model_ids(am),
        unique_model_ids(bm),
        am.to_multiset() == bm.to_multiset(),
    ensures
        find_model(am, id) == find_model(bm, id),
{
    broadcast use vstd::seq_lib::group_to_multiset_ensures;

    match find_model(am, id) {
        Some(m) => {
            lemma_find_model_some(am, id);
            assert(am.to_multiset().count(m) > 0);
            assert(bm.contains(m));
            let i = choose|i: int| 0 <= i < bm.len() && bm[i] == m;
            lemma_find_model_at(bm, i);
        },
        None => {
            lemma_find_model_none(am, id);
            if find_model(bm, id) is Some {
                lemma_find_model_some(bm, id);
                let y = find_model(bm, id).unwrap();
                assert(bm.to_multiset().count(y) > 0);
                assert(am.contains(y));
            }
        },
    }
}

proof fn lemma_models_bytes_perm(
    ids: Seq<Seq<char>>,
    am: Seq<ModelResults>,
    bm: Seq<ModelResults>,
)
    requires
        unique_model_ids(am),
        unique_model_ids(bm),
        am.to_multiset() == bm.to_multiset(),
    ensures
        models_bytes(ids, am) == models_bytes(ids, bm),
    decreases ids.len(),
{
    if ids.len() > 0 {
        lemma_models_bytes_perm(ids.drop_last(), am, bm);
        lemma_find_model_perm(am, bm, ids.last());
    }
}

/// Reordering the model entries of a result set does not change its
/// verification hash: the digest walks model ids in sorted order, so
/// any permutation of the (uniquely keyed) model list yields the same
/// digest. Order within a model's output list, by contrast, is part of
/// what the digest absorbs.
pub proof fn lemma_digest_permutation(a: EvaluationResults, b: EvaluationResults)
    requires
        a.job_id@ == b.job_id@,
        a.completed_at_ms == b.completed_at_ms,
        unique_model_ids(a.model_results@),
        a.model_results@.to_multiset() == b.model_results@.to_multiset(),
    ensures
        hash_of(a) == hash_of(b),
{
    let rel = lex_leq_rel();
    let am = a.model_results@;
    let bm = b.model_results@;
    lemma_unique_ids_perm(am, bm);
    lemma_map_multiset(am, bm, |m: ModelResults| m.model_id@);
    lemma_lex_total_ordering();
    model_ids_of(am).lemma_sort_by_ensures(rel);
    model_ids_of(bm).lemma_sort_by_ensures(rel);
    assert(model_ids_of(am).sort_by(rel).to_multiset()
        == model_ids_of(bm).sort_by(rel).to_multiset());
    lemma_sorted_unique(model_ids_of(am).sort_by(rel), model_ids_of(bm).sort_by(rel), rel);
    lemma_models_bytes_perm(model_ids_of(am).sort_by(rel), am, bm);
}

/// Appends the UTF-8 bytes of a string to the digest buffer.
fn push_str_bytes(buf: &mut Vec<u8>, s: &str)
    ensures
        final(buf)@ == old(buf)@ + encode_utf8(s@),
{
    let mut b = s.as_bytes_vec();
    buf.append(&mut b);
}

/// Appends the eight big-endian bytes of a score to the digest buffer.
fn push_be(buf: &mut Vec<u8>, x: u64)
    ensures
        final(buf)@ == old(buf)@ + be_bytes(x),
{
    buf.push((x >> 56) as u8);
    buf.push((x >> 48) as u8);
    buf.push((x >> 40) as u8);
    buf.push((x >> 32) as u8);
    buf.push((x >> 24) as u8);
    buf.push((x >> 16) as u8);
    buf.push((x >> 8) as u8);
    buf.push(x as u8);
    proof {
        assert(buf@ =~= old(buf)@ + be_bytes(x));
    }
}

proof fn lemma_find_model_at(mrs: Seq<ModelResults>, i: int)
    requires
        unique_model_ids(mrs),
        0 <= i < mrs.len(),
    ensures
        find_model(mrs, mrs[i].model_id@) == Some(mrs[i]),
    decreases i,
{
    if i > 0 {
        let rest = mrs.drop_first();
        assert(unique_model_ids(rest)) by {
            assert forall|a: int, b: int|
                0 <= a < b < rest.len() implies rest[a].model_id@ != rest[b].model_id@ by {
                assert(rest[a] == mrs[a + 1]);
                assert(rest[b] == mrs[b + 1]);
            }
        }
        assert(rest[i - 1] == mrs[i]);
        lemma_find_model_at(rest, i - 1);
    }
}

proof fn lemma_find_metric_at(ms: Seq<MetricResult>, i: int)
    requires
        unique_metric_names(ms),
        0 <= i < ms.len(),
    ensures
        find_metric(ms, ms[i].metric_name@) == Some(ms[i]),
    decreases i,
{
    if i > 0 {
        let rest = ms.drop_first();
        assert(unique_metric_names(rest)) by {
            assert forall|a: int, b: int|
                0 <= a < b < rest.len() implies rest[a].metric_name@ != rest[b].metric_name@ by {
                assert(rest[a] == ms[a + 1]);
                assert(rest[b] == ms[b + 1]);
            }
        }
        assert(rest[i - 1] == ms[i]);
        lemma_find_metric_at(rest, i - 1);
    }
}

/// Computes and checks the verification digest of a result set.
pub struct ResultVerifier;

impl ResultVerifier {
    /// The verification hash of the result set: the digest recomputed
    /// from its fields, ignoring the stored `verification_hash`.
    pub fn calculate_hash(results: &EvaluationResults) -> (r: String)
        requires
            results_keyed(*results),
        ensures
            r@ == hash_of(*results),
    {
        let ghost rel = lex_leq_rel();
        let mut buf: Vec<u8> = Vec::new();
        push_str_bytes(&mut buf, results.job_id.as_str());
        let ts = rfc3339_of_millis(results.completed_at_ms);
        push_str_bytes(&mut buf, ts.as_str());
        proof {
            assert(buf@ =~= encode_utf8(results.job_id@)
                + encode_utf8(rfc3339_of(results.completed_at_ms)));
        }
        let ghost header = buf@;

        let mrs = &results.model_results;
        let mut ids: Vec<String> = Vec::new();
        let mut i: usize = 0;
        while i < mrs.len()
            invariant
                i <= mrs@.len(),
                mrs@ == results.model_results@,
                ids@.len() == i,
                forall|k: int| 0 <= k < i ==> ids@[k]@ == mrs@[k].model_id@,
            decreases mrs@.len() - i,
        {
            ids.push(mrs[i].model_id.clone());
            i = i + 1;
        }
        proof {
            assert(ids.deep_view() =~= model_ids_of(mrs@));
        }
        let order = sorted_order(&ids);
        let ghost skeys = model_ids_of(mrs@).sort_by(rel);
        proof {
            assert(keys_at(ids.deep_view(), order@) == skeys);
        }

        let mut k: usize = 0;
        while k < order.len()
            invariant
                results_keyed(*results),
                mrs@ == results.model_results@,
                rel == lex_leq_rel(),
                skeys == model_ids_of(mrs@).sort_by(rel),
                order@.len() == skeys.len(),
                forall|t: int| 0 <= t < order@.len() ==> order@[t] < mrs@.len(),
                forall|t: int|
                    0 <= t < order@.len() ==> mrs@[order@[t] as int].model_id@ == skeys[t],
                k <= order@.len(),
                buf@ == header + models_bytes(skeys.take(k as int), mrs@),
            decreases order@.len() - k,
        {
            proof {
                assert(skeys.take(k + 1).drop_last() =~= skeys.take(k as int));
                assert(skeys.take(k + 1).last() == skeys[k as int]);
            }
            let mi = order[k];
            let m = &results.model_results[mi];
            proof {
                lemma_find_model_at(mrs@, mi as int);
                assert(find_model(mrs@, skeys[k as int]) == Some(mrs@[mi as int]));
            }
            let ghost mstart = buf@;
            push_str_bytes(&mut buf, m.model_id.as_str());

            let ghost obase = buf@;
            let mut oi: usize = 0;
            while oi < m.outputs.len()
                invariant
                    oi <= m.outputs@.len(),
                    buf@ == obase + outputs_bytes(m.outputs@.take(oi as int)),
                decreases m.outputs@.len() - oi,
            {
                proof {
                    assert(m.outputs@.take(oi + 1).drop_last() =~= m.outputs@.take(oi as int));
                    assert(m.outputs@.take(oi + 1).last() == m.outputs@[oi as int]);
                }
                let out = &m.outputs[oi];
                push_str_bytes(&mut buf, out.prompt_id.as_str());
                push_str_bytes(&mut buf, out.output.as_str());
                proof {
                    assert(buf@ =~= obase + outputs_bytes(m.outputs@.take(oi + 1)));
                }
                oi = oi + 1;
            }
            proof {
                assert(m.outputs@.take(m.outputs@.len() as int) =~= m.outputs@);
            }

            let mut names: Vec<String> = Vec::new();
            let mut t: usize = 0;
            while t < m.metrics.len()
                invariant
                    t <= m.metrics@.len(),
                    names@.len() == t,
                    forall|w: int| 0 <= w < t ==> names@[w]@ == m.metrics@[w].metric_name@,
                decreases m.metrics@.len() - t,
            {
                names.push(m.metrics[t].metric_name.clone());
                t = t + 1;
            }
            proof {
                assert(names.deep_view() =~= metric_names_of(m.metrics@));
            }
            let morder = sorted_order(&names);
            let ghost snames = metric_names_of(m.metrics@).sort_by(rel);
            proof {
                assert(keys_at(names.deep_view(), morder@) == snames);
                assert(unique_metric_names(m.metrics@)) by {
                    assert(mrs@[mi as int].metrics@ == m.metrics@);
                }
            }

            let ghost mbase = buf@;
            let mut ni: usize = 0;
            while ni < morder.len()
                invariant
                    unique_metric_names(m.metrics@),
                    rel == lex_leq_rel(),
                    snames == metric_names_of(m.metrics@).sort_by(rel),
                    morder@.len() == snames.len(),
                    forall|w: int| 0 <= w < morder@.len() ==> morder@[w] < m.metrics@.len(),
                    forall|w: int|
                        0 <= w < morder@.len()
                            ==> m.metrics@[morder@[w] as int].metric_name@ == snames[w],
                    ni <= morder@.len(),
                    buf@ == mbase + metrics_bytes(snames.take(ni as int), m.metrics@),
                decreases morder@.len() - ni,
            {
                proof {
                    assert(snames.take(ni + 1).drop_last() =~= snames.take(ni as int));
                    assert(snames.take(ni + 1).last() == snames[ni as int]);
                }
                let mj = morder[ni];
                let mr = &m.metrics[mj];
                proof {
                    lemma_find_metric_at(m.metrics@, mj as int);
                    assert(find_metric(m.metrics@, snames[ni as int])
                        == Some(m.metrics@[mj as int]));
                }
                push_str_bytes(&mut buf, mr.metric_name.as_str());
                push_be(&mut buf, mr.score);
                proof {
                    assert(buf@ =~= mbase + metrics_bytes(snames.take(ni + 1), m.metrics@));
                }
                ni = ni + 1;
            }
            proof {
                assert(snames.take(snames.len() as int) =~= snames);
                assert(buf@ =~= mstart + model_bytes(mrs@[mi as int]));
                assert(buf@ =~= header + models_bytes(skeys.take(k + 1), mrs@));
            }
            k = k + 1;
        }
        proof {
            assert(skeys.take(skeys.len() as int) =~= skeys);
            assert(buf@ =~= digest_input(*results));
        }
        let h = blake3_hash(&buf);
        base64_encode(&h)
    }

    /// Whether the stored verification hash matches the digest
    /// recomputed from the result set's own fields.
    pub fn verify_results(results: &EvaluationResults) -> (r: bool)
        requires
            results_keyed(*results),
        ensures
            r == (results.verification_hash@ == hash_of(*results)),
    {
        let calculated = Self::calculate_hash(results);
        crate::text::str_eq(calculated.as_str(), results.verification_hash.as_str())
    }
}

/// One record of the append-only audit trail.
#[derive(Clone, Debug, PartialEq)]
pub struct LogEntry {
    pub timestamp_ms: i64,
    pub job_id: String,
    pub event: LogEvent,
}

/// The tagged payload of one audit-trail record.
#[derive(Clone, Debug, PartialEq)]
pub enum LogEvent {
    JobStarted { models: Vec<String>, prompts: usize, metrics: Vec<String> },
    ModelStarted { model_id: String, provider: String },
    ModelCompleted {
        model_id: String,
        success: bool,
        outputs: usize,
        errors: usize,
        duration_ms: u64,
    },
    MetricCalculated { metric_name: String, model_id: String, score: Score },
    JobCompleted { duration_ms: u64, total_outputs: usize, total_errors: usize },
    Error { message: String, context: Vec<(String, crate::types::MetaValue)> },
}

/// Where persisted artifacts live: jobs, results and logs under one
/// base directory. This type only lays out the paths; reading and
/// writing them is its callers' concern.
#[derive(Clone, Debug)]
pub struct FileSystemStorage {
    pub base_path: String,
}

impl FileSystemStorage {
    /// Storage rooted at the given base directory.
    pub fn new(base_path: String) -> (r: Self)
        ensures
            r.base_path == base_path,
    {
        FileSystemStorage { base_path }
    }

    /// The path of a job document.
    pub fn job_path(&self, job_id: &str) -> (r: String)
        ensures
            r@ == self.base_path@ + "/jobs/"@ + job_id@ + ".json"@,
    {
        let mut p = self.base_path.clone();
        p.append("/jobs/");
        p.append(job_id);
        p.append(".json");
        proof {
            assert(p@ =~= self.base_path@ + "/jobs/"@ + job_id@ + ".json"@);
        }
        p
    }

    /// The path of a result-set document.
    pub fn results_path(&self, job_id: &str) -> (r: String)
        ensures
            r@ == self.base_path@ + "/results/"@ + job_id@ + ".json"@,
    {
        let mut p = self.base_path.clone();
        p.append("/results/");
        p.append(job_id);
        p.append(".json");
        proof {
            assert(p@ =~= self.base_path@ + "/results/"@ + job_id@ + ".json"@);
        }
        p
    }

    /// The path of a job's event log.
    pub fn log_path(&self, job_id: &str) -> (r: String)
        ensures
            r@ == self.base_path@ + "/logs/"@ + job_id@ + ".log"@,
    {
        let mut p = self.base_path.clone();
        p.append("/logs/");
        p.append(job_id);
        p.append(".log");
        proof {
            assert(p@ =~= self.base_path@ + "/logs/"@ + job_id@ + ".log"@);
        }
        p
    }
}

/// One line of the job listing: identity, status and counts.
#[derive(Clone, Debug)]
pub struct JobSummary {
    pub id: String,
    pub name: String,
    pub status: String,
    pub created_at_ms: i64,
    pub completed_at_ms: Option<i64>,
    pub model_count: usize,
    pub prompt_count: usize,
    pub metric_count: usize,
}

/// Newest first: the listing order of job summaries.
pub open spec fn newer_first(a: JobSummary, b: JobSummary) -> bool {
    a.created_at_ms >= b.created_at_ms
}

/// The creation times of a summary list.
pub open spec fn created_times(s: Seq<JobSummary>) -> Seq<i64> {
    s.map_values(|x: JobSummary| x.created_at_ms)
}

/// Sorts a job listing by creation time, newest first; the result
/// holds exactly the given summaries.
pub fn sort_summaries(input: Vec<JobSummary>) -> (out: Vec<JobSummary>)
    ensures
        out@.len() == input@.len(),
        forall|i: int, j: int|
            0 <= i < j < out@.len() ==> newer_first(out@[i], out@[j]),
        out@.to_multiset() == input@.to_multiset(),
{
    let mut items = input;
    let total = items.len();
    let mut out: Vec<JobSummary> = Vec::new();
    proof {
        broadcast use vstd::seq_lib::group_to_multiset_ensures;
        assert(out@.to_multiset().add(items@.to_multiset()) =~= items@.to_multiset());
    }
    let ghost orig = items@.to_multiset();
    while items.len() > 0
        invariant
            out@.len() + items@.len() == total,
            forall|i: int, j: int| 0 <= i < j < out@.len() ==> newer_first(out@[i], out@[j]),
            forall|a: int, b: int|
                0 <= a < out@.len() && 0 <= b < items@.len() ==> newer_first(
                    out@[a],
                    items@[b],
                ),
            out@.to_multiset().add(items@.to_multiset()) == orig,
        decreases items@.len(),
    {
        let mut best: usize = 0;
        let mut j: usize = 1;
        while j < items.len()
            invariant
                items@.len() > 0,
                best < items@.len(),
                1 <= j <= items@.len(),
                forall|k: int| 0 <= k < j ==> newer_first(items@[best as int], items@[k]),
            decreases items@.len() - j,
        {
            if items[j].created_at_ms > items[best].created_at_ms {
                best = j;
            }
            j = j + 1;
        }
        let ghost old_out = out@;
        let ghost old_items = items@;
        let x = items.remove(best);
        out.push(x);
        proof {
            broadcast use vstd::seq_lib::group_to_multiset_ensures;
            assert forall|a: int, b: int|
                0 <= a < b < out@.len() implies newer_first(out@[a], out@[b]) by {
                if b == out@.len() - 1 {
                    assert(newer_first(old_out[a], x));
                }
            }
            assert forall|a: int, b: int|
                0 <= a < out@.len() && 0 <= b < items@.len() implies newer_first(
                out@[a],
                items@[b],
            ) by {
                let e = items@[b];
                assert(e == old_items[if b < best as int { b } else { b + 1 }]);
                if a < out@.len() - 1 {
                    assert(newer_first(old_out[a], e));
                } else {
                    assert(newer_first(x, e));
                }
            }
            assert(out@.to_multiset() =~= old_out.to_multiset().insert(x));
            assert(items@.to_multiset() =~= old_items.to_multiset().remove(x));
            assert(old_items.to_multiset().count(x) > 0);
            assert(out@.to_multiset().add(items@.to_multiset()) =~= orig);
        }
    }
    proof {
        broadcast use vstd::seq_lib::group_to_multiset_ensures;
        assert(items@.to_multiset().len() == 0);
        assert(out@.to_multiset().add(items@.to_multiset()) =~= out@.to_multiset());
    }
    out
}

/// Renders one job's audit-trail records as appendable log lines and
/// replays them.
#[derive(Clone, Debug)]
pub struct EvalLogger {
    pub job_id: String,
    pub log_path: String,
}

impl EvalLogger {
    /// A logger for the given job, writing under the given storage
    /// layout.
    pub fn new(job_id: String, storage: &FileSystemStorage) -> (r: Self)
        ensures
            r.job_id == job_id,
            r.log_path@ == storage.base_path@ + "/logs/"@ + job_id@ + ".log"@,
    {
        let log_path = storage.log_path(job_id.as_str());
        EvalLogger { job_id, log_path }
    }
}

} // verus!
