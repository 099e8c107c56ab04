//! The orchestration core: cross-model aggregation, the leaderboard,
//! and the job scheduler's decision logic.

use vstd::prelude::*;
use vstd::relations::sorted_by;
use crate::{Score, SCORE_SCALE, mean_spec, mean_score};
use crate::metrics::MetricRegistry;
use crate::storage::find_metric;
use crate::text::{lex_leq, str_eq, str_lex_leq};
use crate::storage::{LogEntry, LogEvent};
use crate::types::now_millis;
use crate::types::{
    EvaluationError, EvaluationJob, EvaluationResults, ErrorType, JobStatus, MetricConfig,
    MetricResult, ModelConfig, ModelOutput, ModelRanking, ModelResults, PerformanceMetrics,
    Prompt, ResultSummary,
};

verus! {

/// A model's composite score: the mean of its own metric aggregates,
/// zero when it has none.
pub open spec fn composite_spec(m: ModelResults) -> Score {
    mean_spec(m.metrics@.map_values(|x: MetricResult| x.score))
}

/// `acc` extended with the entries of `xs` it does not yet contain, in
/// first-appearance order.
pub open spec fn dedup_push(acc: Seq<Seq<char>>, xs: Seq<Seq<char>>) -> Seq<Seq<char>>
    decreases xs.len(),
{
    if xs.len() == 0 {
        acc
    } else {
        dedup_push(
            if acc.contains(xs[0]) {
                acc
            } else {
                acc.push(xs[0])
            },
            xs.drop_first(),
        )
    }
}

/// `acc` extended with every metric name any model reports, walking
/// models in order and each model's metrics in order, first appearance
/// kept.
pub open spec fn collect_names(mrs: Seq<ModelResults>, acc: Seq<Seq<char>>) -> Seq<Seq<char>>
    decreases mrs.len(),
{
    if mrs.len() == 0 {
        acc
    } else {
        collect_names(
            mrs.drop_first(),
            dedup_push(acc, crate::storage::metric_names_of(mrs[0].metrics@)),
        )
    }
}

/// Every metric name any model reports, in first-appearance order.
pub open spec fn all_metric_names(mrs: Seq<ModelResults>) -> Seq<Seq<char>> {
    collect_names(mrs, Seq::empty())
}

/// The aggregate scores the models report for one metric name, in
/// model order; models without the metric contribute nothing.
pub open spec fn scores_for(mrs: Seq<ModelResults>, name: Seq<char>) -> Seq<Score>
    decreases mrs.len(),
{
    if mrs.len() == 0 {
        Seq::empty()
    } else {
        let rest = scores_for(mrs.drop_last(), name);
        match find_metric(mrs.last().metrics@, name) {
            Some(m) => rest.push(m.score),
            None => rest,
        }
    }
}

/// The cross-model average-score table: one entry per reported metric
/// name in first-appearance order, each the mean of the aggregate
/// scores of exactly the models that report that metric.
pub open spec fn agg_pairs_of(names: Seq<Seq<char>>, mrs: Seq<ModelResults>)
    -> Seq<(Seq<char>, Score)>
    decreases names.len(),
{
    if names.len() == 0 {
        Seq::empty()
    } else {
        let rest = agg_pairs_of(names.drop_last(), mrs);
        let sc = scores_for(mrs, names.last());
        if sc.len() > 0 {
            rest.push((names.last(), mean_spec(sc)))
        } else {
            rest
        }
    }
}

/// The cross-model average scores of a result list.
pub open spec fn aggregate_scores_spec(mrs: Seq<ModelResults>) -> Seq<(Seq<char>, Score)> {
    agg_pairs_of(all_metric_names(mrs), mrs)
}

/// Whether a name list contains the given name.
fn contains_name(names: &Vec<String>, n: &str) -> (r: bool)
    ensures
        r == names.deep_view().contains(n@),
{
    let mut j: usize = 0;
    while j < names.len()
        invariant
            j <= names@.len(),
            forall|k: int| 0 <= k < j ==> names.deep_view()[k] != n@,
        decreases names@.len() - j,
    {
        if str_eq(names[j].as_str(), n) {
            proof {
                assert(names.deep_view()[j as int] == n@);
            }
            return true;
        }
        j = j + 1;
    }
    proof {
        if names.deep_view().contains(n@) {
            let w = choose|w: int|
                0 <= w < names.deep_view().len() && names.deep_view()[w] == n@;
            assert(names.deep_view()[w] != n@);
        }
    }
    false
}

/// Index of the first metric entry with the given name.
fn find_metric_idx(ms: &Vec<MetricResult>, name: &str) -> (r: Option<usize>)
    ensures
        match r {
            Some(j) => {
                &&& j < ms@.len()
                &&& ms@[j as int].metric_name@ == name@
                &&& find_metric(ms@, name@) == Some(ms@[j as int])
            },
            None => find_metric(ms@, name@) is None,
        },
{
    let mut j: usize = 0;
    while j < ms.len()
        invariant
            j <= ms@.len(),
            forall|k: int| 0 <= k < j ==> ms@[k].metric_name@ != name@,
        decreases ms@.len() - j,
    {
        if str_eq(ms[j].metric_name.as_str(), name) {
            proof {
                lemma_find_metric_skip(ms@, name@, j as int);
                assert(ms@.skip(j as int)[0] == ms@[j as int]);
            }
            return Some(j);
        }
        j = j + 1;
    }
    proof {
        lemma_find_metric_skip(ms@, name@, ms@.len() as int);
        assert(ms@.skip(ms@.len() as int).len() == 0);
    }
    None
}

proof fn lemma_find_metric_skip(ms: Seq<MetricResult>, name: Seq<char>, j: int)
    requires
        0 <= j <= ms.len(),
        forall|k: int| 0 <= k < j ==> ms[k].metric_name@ != name,
    ensures
        find_metric(ms, name) == find_metric(ms.skip(j), name),
    decreases j,
{
    if j > 0 {
        lemma_find_metric_skip(ms, name, j - 1);
        let s = ms.skip(j - 1);
        assert(s[0] == ms[j - 1]);
        assert(s.drop_first() =~= ms.skip(j));
    } else {
        assert(ms.skip(0) =~= ms);
    }
}

/// The names every model reports, collected in first-appearance order.
fn collect_metric_names(model_results: &Vec<ModelResults>) -> (names: Vec<String>)
    ensures
        names.deep_view() == all_metric_names(model_results@),
{
    let ghost mrs = model_results@;
    let mut names: Vec<String> = Vec::new();
    proof {
        assert(mrs.skip(0) =~= mrs);
        assert(names.deep_view() =~= Seq::<Seq<char>>::empty());
    }
    let mut i: usize = 0;
    while i < model_results.len()
        invariant
            i <= mrs.len(),
            model_results@ == mrs,
            collect_names(mrs.skip(i as int), names.deep_view()) == all_metric_names(mrs),
        decreases mrs.len() - i,
    {
        let ghost mnames = crate::storage::metric_names_of(mrs[i as int].metrics@);
        let m = &model_results[i];
        proof {
            assert(mrs.skip(i as int)[0] == mrs[i as int]);
            assert(mrs.skip(i as int).drop_first() =~= mrs.skip(i + 1));
            assert(mnames.skip(0) =~= mnames);
        }
        let mut j: usize = 0;
        while j < m.metrics.len()
            invariant
                j <= m.metrics@.len(),
                model_results@ == mrs,
                i < mrs.len(),
                m == mrs[i as int],
                mnames == crate::storage::metric_names_of(mrs[i as int].metrics@),
                mnames.len() == m.metrics@.len(),
                forall|k: int| 0 <= k < mnames.len() ==> mnames[k] == m.metrics@[k].metric_name@,
                collect_names(
                    mrs.skip(i + 1),
                    dedup_push(names.deep_view(), mnames.skip(j as int)),
                ) == all_metric_names(mrs),
            decreases m.metrics@.len() - j,
        {
            proof {
                assert(mnames.skip(j as int)[0] == mnames[j as int]);
                assert(mnames.skip(j as int).drop_first() =~= mnames.skip(j + 1));
            }
            let ghost acc0 = names.deep_view();
            if !contains_name(&names, m.metrics[j].metric_name.as_str()) {
                names.push(m.metrics[j].metric_name.clone());
                proof {
                    assert(names.deep_view() =~= acc0.push(mnames[j as int]));
                }
            }
            j = j + 1;
        }
        proof {
            assert(mnames.skip(mnames.len() as int).len() == 0);
        }
        i = i + 1;
    }
    proof {
        assert(mrs.skip(mrs.len() as int).len() == 0);
    }
    names
}

/// Cross-model average score per metric: the arithmetic mean of the
/// metric's aggregate score across exactly the models that report it.
pub fn calculate_aggregate_scores(model_results: &Vec<ModelResults>) -> (r: Vec<(String, Score)>)
    ensures
        crate::metrics::score_pair_views(r@) == aggregate_scores_spec(model_results@),
        model_results@.len() == 0 ==> r@.len() == 0,
{
    let ghost mrs = model_results@;
    let names = collect_metric_names(model_results);
    let ghost nv = names.deep_view();
    let mut r: Vec<(String, Score)> = Vec::new();
    let mut c: usize = 0;
    while c < names.len()
        invariant
            c <= nv.len(),
            names.deep_view() == nv,
            names@.len() == nv.len(),
            model_results@ == mrs,
            crate::metrics::score_pair_views(r@) == agg_pairs_of(nv.take(c as int), mrs),
        decreases nv.len() - c,
    {
        proof {
            assert(nv.take(c + 1).drop_last() =~= nv.take(c as int));
            assert(nv.take(c + 1).last() == nv[c as int]);
        }
        let name = &names[c];
        let mut scores: Vec<Score> = Vec::new();
        let mut i: usize = 0;
        while i < model_results.len()
            invariant
                i <= mrs.len(),
                model_results@ == mrs,
                c < nv.len(),
                name == names@[c as int],
                names@[c as int]@ == nv[c as int],
                scores@ == scores_for(mrs.take(i as int), nv[c as int]),
            decreases mrs.len() - i,
        {
            proof {
                assert(mrs.take(i + 1).drop_last() =~= mrs.take(i as int));
                assert(mrs.take(i + 1).last() == mrs[i as int]);
            }
            match find_metric_idx(&model_results[i].metrics, name.as_str()) {
                Some(j) => {
                    scores.push(model_results[i].metrics[j].score);
                },
                None => {},
            }
            i = i + 1;
        }
        proof {
            assert(mrs.take(mrs.len() as int) =~= mrs);
        }
        if scores.len() > 0 {
            let avg = mean_score(&scores);
            r.push((name.clone(), avg));
            proof {
                assert(crate::metrics::score_pair_views(r@)
                    =~= agg_pairs_of(nv.take(c + 1), mrs));
            }
        }
        c = c + 1;
    }
    proof {
        assert(nv.take(nv.len() as int) =~= nv);
    }
    r
}

/// The leaderboard order on (model id, composite score) pairs: higher
/// score first, ties broken by model id so the ranking is
/// deterministic.
pub open spec fn rank_leq(a: (Seq<char>, Score), b: (Seq<char>, Score)) -> bool {
    ||| a.1 > b.1
    ||| (a.1 == b.1 && lex_leq(a.0, b.0))
}

/// `rank_leq` as a relation value.
pub open spec fn rank_rel() -> spec_fn((Seq<char>, Score), (Seq<char>, Score)) -> bool {
    |a: (Seq<char>, Score), b: (Seq<char>, Score)| rank_leq(a, b)
}

/// The (model id, composite score) view of one leaderboard entry.
pub open spec fn ranking_pair(x: ModelRanking) -> (Seq<char>, Score) {
    (x.model_id@, x.overall_score)
}

/// The (model id, composite score) views of a leaderboard.
pub open spec fn ranking_pairs(s: Seq<ModelRanking>) -> Seq<(Seq<char>, Score)> {
    s.map_values(|x: ModelRanking| ranking_pair(x))
}

/// The (model id, composite score) views of a result list.
pub open spec fn model_pairs(mrs: Seq<ModelResults>) -> Seq<(Seq<char>, Score)> {
    mrs.map_values(|m: ModelResults| (m.model_id@, composite_spec(m)))
}

proof fn lemma_rank_refl(a: (Seq<char>, Score))
    ensures
        rank_leq(a, a),
{
    crate::text::lemma_lex_refl(a.0);
}

proof fn lemma_rank_trans(a: (Seq<char>, Score), b: (Seq<char>, Score), c: (Seq<char>, Score))
    requires
        rank_leq(a, b),
        rank_leq(b, c),
    ensures
        rank_leq(a, c),
{
    if a.1 == b.1 && b.1 == c.1 {
        crate::text::lemma_lex_trans(a.0, b.0, c.0);
    }
}

proof fn lemma_rank_connected(a: (Seq<char>, Score), b: (Seq<char>, Score))
    ensures
        rank_leq(a, b) || rank_leq(b, a),
{
    if a.1 == b.1 {
        crate::text::lemma_lex_connected(a.0, b.0);
    }
}

/// Whether `a` comes no later than `b` on the leaderboard.
fn rank_leq_exec(a: &ModelRanking, b: &ModelRanking) -> (r: bool)
    ensures
        r == rank_leq(ranking_pair(*a), ranking_pair(*b)),
{
    if a.overall_score > b.overall_score {
        true
    } else if a.overall_score == b.overall_score {
        str_lex_leq(a.model_id.as_str(), b.model_id.as_str())
    } else {
        false
    }
}

/// One model's composite score: the mean of its metric aggregates.
fn composite_score(m: &ModelResults) -> (r: Score)
    ensures
        r == composite_spec(*m),
{
    let mut scores: Vec<Score> = Vec::new();
    let mut j: usize = 0;
    while j < m.metrics.len()
        invariant
            j <= m.metrics@.len(),
            scores@ == m.metrics@.take(j as int).map_values(|x: MetricResult| x.score),
        decreases m.metrics@.len() - j,
    {
        scores.push(m.metrics[j].score);
        proof {
            assert(scores@ =~= m.metrics@.take(j + 1).map_values(|x: MetricResult| x.score));
        }
        j = j + 1;
    }
    proof {
        assert(m.metrics@.take(m.metrics@.len() as int) =~= m.metrics@);
    }
    mean_score(&scores)
}

/// The leaderboard of a result list: every model once, sorted by
/// composite score descending with ties broken by model id, ranks
/// assigned 1..N in that order.
fn rank_models(model_results: &Vec<ModelResults>) -> (rk: Vec<ModelRanking>)
    ensures
        rk@.len() == model_results@.len(),
        forall|i: int| 0 <= i < rk@.len() ==> #[trigger] rk@[i].rank == i + 1,
        forall|i: int| 0 <= i < rk@.len() ==> #[trigger] rk@[i].strengths@.len() == 0,
        forall|i: int| 0 <= i < rk@.len() ==> #[trigger] rk@[i].weaknesses@.len() == 0,
        sorted_by(ranking_pairs(rk@), rank_rel()),
        ranking_pairs(rk@).to_multiset() == model_pairs(model_results@).to_multiset(),
{
    let ghost mrs = model_results@;
    let ghost rel = rank_rel();
    let mut items: Vec<ModelRanking> = Vec::new();
    proof {
        assert(ranking_pairs(items@) =~= model_pairs(mrs.take(0)));
    }
    let mut i: usize = 0;
    while i < model_results.len()
        invariant
            i <= mrs.len(),
            model_results@ == mrs,
            items@.len() == i,
            ranking_pairs(items@) == model_pairs(mrs.take(i as int)),
            forall|k: int| 0 <= k < items@.len() ==> #[trigger] items@[k].strengths@.len() == 0,
            forall|k: int| 0 <= k < items@.len() ==> #[trigger] items@[k].weaknesses@.len() == 0,
        decreases mrs.len() - i,
    {
        proof {
            assert(mrs.take(i + 1).drop_last() =~= mrs.take(i as int));
            assert(mrs.take(i + 1).last() == mrs[i as int]);
        }
        let m = &model_results[i];
        let overall = composite_score(m);
        items.push(ModelRanking {
            model_id: m.model_id.clone(),
            overall_score: overall,
            rank: 0,
            strengths: Vec::new(),
            weaknesses: Vec::new(),
        });
        proof {
            let ghost np = mrs.take(i + 1);
            assert(items@.last().strengths@.len() == 0);
            assert(items@.last().weaknesses@.len() == 0);
            assert forall|k: int|
                0 <= k < items@.len() implies #[trigger] items@[k].strengths@.len() == 0
                    && items@[k].weaknesses@.len() == 0 by {
                if k < items@.len() - 1 {
                    assert(items@[k] == items@.drop_last()[k]);
                }
            }
            assert(items@.last().model_id@ == mrs[i as int].model_id@);
            assert(items@.last().overall_score == composite_spec(mrs[i as int]));
            assert forall|k: int| 0 <= k < i + 1 implies ranking_pairs(items@)[k]
                == model_pairs(np)[k] by {
                assert(np[k] == mrs[k]);
                if k < i {
                    assert(ranking_pairs(items@)[k] == ranking_pair(items@[k]));
                    assert(ranking_pairs(items@.drop_last())[k] == ranking_pair(items@[k]));
                    assert(model_pairs(mrs.take(i as int))[k] == model_pairs(np)[k]);
                } else {
                    assert(ranking_pair(items@[k]) == (mrs[k].model_id@, composite_spec(mrs[k])));
                }
            }
            assert(ranking_pairs(items@) =~= model_pairs(np));
        }
        i = i + 1;
    }
    proof {
        assert(mrs.take(mrs.len() as int) =~= mrs);
    }
    let total = items.len();
    let mut out: Vec<ModelRanking> = Vec::new();
    proof {
        broadcast use vstd::seq_lib::group_to_multiset_ensures;
        assert(ranking_pairs(out@) =~= Seq::<(Seq<char>, Score)>::empty());
        assert(ranking_pairs(out@).to_multiset().add(ranking_pairs(items@).to_multiset())
            =~= model_pairs(mrs).to_multiset());
    }
    while items.len() > 0
        invariant
            rel == rank_rel(),
            out@.len() + items@.len() == total,
            total == mrs.len(),
            forall|k: int| 0 <= k < out@.len() ==> #[trigger] out@[k].rank == k + 1,
            forall|k: int| 0 <= k < out@.len() ==> #[trigger] out@[k].strengths@.len() == 0,
            forall|k: int| 0 <= k < out@.len() ==> #[trigger] out@[k].weaknesses@.len() == 0,
            forall|k: int| 0 <= k < items@.len() ==> #[trigger] items@[k].strengths@.len() == 0,
            forall|k: int| 0 <= k < items@.len() ==> #[trigger] items@[k].weaknesses@.len() == 0,
            sorted_by(ranking_pairs(out@), rel),
            forall|a: int, b: int|
                0 <= a < out@.len() && 0 <= b < items@.len() ==> rank_leq(
                    ranking_pair(out@[a]),
                    ranking_pair(items@[b]),
                ),
            ranking_pairs(out@).to_multiset().add(ranking_pairs(items@).to_multiset())
                == model_pairs(mrs).to_multiset(),
        decreases items@.len(),
    {
        let mut best: usize = 0;
        let mut j: usize = 1;
        proof {
            lemma_rank_refl(ranking_pair(items@[0]));
        }
        while j < items.len()
            invariant
                items@.len() > 0,
                best < items@.len(),
                1 <= j <= items@.len(),
                forall|k: int|
                    0 <= k < j ==> rank_leq(
                        ranking_pair(items@[best as int]),
                        ranking_pair(items@[k]),
                    ),
            decreases items@.len() - j,
        {
            if rank_leq_exec(&items[j], &items[best]) {
                proof {
                    assert forall|k: int| 0 <= k < j + 1 implies rank_leq(
                        ranking_pair(items@[j as int]),
                        ranking_pair(items@[k]),
                    ) by {
                        if k < j {
                            lemma_rank_trans(
                                ranking_pair(items@[j as int]),
                                ranking_pair(items@[best as int]),
                                ranking_pair(items@[k]),
                            );
                        } else {
                            lemma_rank_refl(ranking_pair(items@[j as int]));
                        }
                    }
                }
                best = j;
            } else {
                proof {
                    lemma_rank_connected(
                        ranking_pair(items@[best as int]),
                        ranking_pair(items@[j as int]),
                    );
                }
            }
            j = j + 1;
        }
        let ghost old_out = out@;
        let ghost old_items = items@;
        let mut x = items.remove(best);
        x.rank = out.len() + 1;
        out.push(x);
        proof {
            broadcast use vstd::seq_lib::group_to_multiset_ensures;
            let key_min = ranking_pair(old_items[best as int]);
            assert(ranking_pair(x) == key_min);
            assert forall|k: int| 0 <= k < out@.len() implies #[trigger] out@[k].rank == k + 1 by {
                if k < out@.len() - 1 {
                    assert(out@[k] == old_out[k]);
                    assert(old_out[k].rank == k + 1);
                } else {
                    assert(out@[k] == x);
                    assert(x.rank == old_out.len() + 1);
                }
            }
            assert forall|k: int|
                0 <= k < out@.len() implies #[trigger] out@[k].strengths@.len() == 0 by {
                if k < out@.len() - 1 {
                    assert(out@[k] == old_out[k]);
                    assert(old_out[k].strengths@.len() == 0);
                } else {
                    assert(old_items[best as int].strengths@.len() == 0);
                    assert(out@[k] == x);
                }
            }
            assert forall|k: int|
                0 <= k < out@.len() implies #[trigger] out@[k].weaknesses@.len() == 0 by {
                if k < out@.len() - 1 {
                    assert(out@[k] == old_out[k]);
                    assert(old_out[k].weaknesses@.len() == 0);
                } else {
                    assert(old_items[best as int].weaknesses@.len() == 0);
                    assert(out@[k] == x);
                }
            }
            assert forall|k: int|
                0 <= k < items@.len() implies #[trigger] items@[k].strengths@.len() == 0 by {
                assert(items@[k] == old_items[if k < best as int { k } else { k + 1 }]);
                assert(old_items[if k < best as int { k } else { k + 1 }].strengths@.len() == 0);
            }
            assert forall|k: int|
                0 <= k < items@.len() implies #[trigger] items@[k].weaknesses@.len() == 0 by {
                assert(items@[k] == old_items[if k < best as int { k } else { k + 1 }]);
                assert(old_items[if k < best as int { k } else { k + 1 }].weaknesses@.len() == 0);
            }
            assert(ranking_pairs(out@) =~= ranking_pairs(old_out).push(key_min));
            assert(ranking_pairs(items@) =~= ranking_pairs(old_items).remove(best as int));
            assert(ranking_pairs(old_items)[best as int] == key_min);
            assert forall|a: int, b: int|
                0 <= a < b < ranking_pairs(out@).len() implies rel(
                ranking_pairs(out@)[a],
                ranking_pairs(out@)[b],
            ) by {
                if b == ranking_pairs(out@).len() - 1 {
                    assert(rank_leq(ranking_pair(old_out[a]), key_min));
                }
            }
            assert(sorted_by(ranking_pairs(out@), rel));
            assert forall|a: int, b: int|
                0 <= a < out@.len() && 0 <= b < items@.len() implies rank_leq(
                ranking_pair(out@[a]),
                ranking_pair(items@[b]),
            ) by {
                let e = items@[b];
                assert(e == old_items[if b < best as int { b } else { b + 1 }]);
                if a < out@.len() - 1 {
                    assert(rank_leq(ranking_pair(old_out[a]), ranking_pair(e)));
                } else {
                    assert(rank_leq(key_min, ranking_pair(e)));
                }
            }
            assert(ranking_pairs(old_out).push(key_min).to_multiset()
                =~= ranking_pairs(old_out).to_multiset().insert(key_min));
            assert(ranking_pairs(old_items).remove(best as int).to_multiset()
                =~= ranking_pairs(old_items).to_multiset().remove(key_min));
            assert(ranking_pairs(old_items).to_multiset().count(key_min) > 0);
            assert(ranking_pairs(out@).to_multiset().add(ranking_pairs(items@).to_multiset())
                =~= model_pairs(mrs).to_multiset());
        }
    }
    proof {
        broadcast use vstd::seq_lib::group_to_multiset_ensures;
        assert(ranking_pairs(items@) =~= Seq::<(Seq<char>, Score)>::empty());
        assert(ranking_pairs(out@).to_multiset() =~= model_pairs(mrs).to_multiset());
        assert(out@.len() == ranking_pairs(out@).to_multiset().len());
        assert(mrs.len() == model_pairs(mrs).len());
        assert(model_pairs(mrs).to_multiset().len() == model_pairs(mrs).len());
    }
    out
}

/// How many prompts a model attempted: its successes plus failures.
pub open spec fn attempted(m: ModelResults) -> int {
    m.outputs@.len() + m.errors@.len() as int
}

/// The largest prompt count any model attempted.
pub open spec fn max_attempted(mrs: Seq<ModelResults>) -> int
    decreases mrs.len(),
{
    if mrs.len() == 0 {
        0
    } else {
        let rest = max_attempted(mrs.drop_last());
        if attempted(mrs.last()) > rest {
            attempted(mrs.last())
        } else {
            rest
        }
    }
}

/// Total successful completions over all models.
pub open spec fn sum_outputs(mrs: Seq<ModelResults>) -> int
    decreases mrs.len(),
{
    if mrs.len() == 0 {
        0
    } else {
        sum_outputs(mrs.drop_last()) + mrs.last().outputs@.len()
    }
}

/// Total failed completions over all models.
pub open spec fn sum_errors(mrs: Seq<ModelResults>) -> int
    decreases mrs.len(),
{
    if mrs.len() == 0 {
        0
    } else {
        sum_errors(mrs.drop_last()) + mrs.last().errors@.len()
    }
}

/// A count clipped to what `usize` can hold.
pub open spec fn cap_usize(x: int) -> int {
    if x > usize::MAX {
        usize::MAX as int
    } else {
        x
    }
}

/// The derived cross-model summary: prompt and completion counts, the
/// best and worst performers, the average-score table, and the ranked
/// leaderboard with ranks 1..N by composite score descending.
pub fn create_summary(
    model_results: &Vec<ModelResults>,
    aggregate_scores: &Vec<(String, Score)>,
) -> (r: ResultSummary)
    ensures
        r.total_prompts == cap_usize(max_attempted(model_results@)),
        r.successful_completions == cap_usize(sum_outputs(model_results@)),
        r.failed_completions == cap_usize(sum_errors(model_results@)),
        crate::metrics::score_pair_views(r.average_scores@)
            == crate::metrics::score_pair_views(aggregate_scores@),
        r.ranking@.len() == model_results@.len(),
        forall|i: int| 0 <= i < r.ranking@.len() ==> #[trigger] r.ranking@[i].rank == i + 1,
        sorted_by(ranking_pairs(r.ranking@), rank_rel()),
        ranking_pairs(r.ranking@).to_multiset() == model_pairs(model_results@).to_multiset(),
        forall|i: int|
            0 <= i < r.ranking@.len() ==> r.ranking@[0].overall_score
                >= #[trigger] r.ranking@[i].overall_score,
        match r.best_performing_model {
            Some(b) => r.ranking@.len() > 0 && b@ == r.ranking@[0].model_id@,
            None => r.ranking@.len() == 0,
        },
        match r.worst_performing_model {
            Some(w) => r.ranking@.len() > 0 && w@ == r.ranking@[r.ranking@.len() - 1].model_id@,
            None => r.ranking@.len() == 0,
        },
{
    let ghost mrs = model_results@;
    let mut max_att: u128 = 0;
    let mut total_ok: u128 = 0;
    let mut total_err: u128 = 0;
    let mut i: usize = 0;
    while i < model_results.len()
        invariant
            i <= mrs.len(),
            model_results@ == mrs,
            max_att == max_attempted(mrs.take(i as int)),
            total_ok == sum_outputs(mrs.take(i as int)),
            total_err == sum_errors(mrs.take(i as int)),
            total_ok <= i * (usize::MAX as int),
            total_err <= i * (usize::MAX as int),
            max_att <= 2 * (usize::MAX as int),
        decreases mrs.len() - i,
    {
        proof {
            assert(mrs.take(i + 1).drop_last() =~= mrs.take(i as int));
            assert(mrs.take(i + 1).last() == mrs[i as int]);
            assert(i * (usize::MAX as int) + usize::MAX == (i + 1) * (usize::MAX as int))
                by (nonlinear_arith);
            assert((i as int + 1) * (usize::MAX as int) < (u128::MAX as int))
                by (nonlinear_arith)
                requires i <= usize::MAX;
        }
        let m = &model_results[i];
        let att: u128 = m.outputs.len() as u128 + m.errors.len() as u128;
        if att > max_att {
            max_att = att;
        }
        total_ok = total_ok + m.outputs.len() as u128;
        total_err = total_err + m.errors.len() as u128;
        i = i + 1;
    }
    proof {
        assert(mrs.take(mrs.len() as int) =~= mrs);
    }
    let total_prompts: usize = if max_att > usize::MAX as u128 {
        usize::MAX
    } else {
        max_att as usize
    };
    let successful_completions: usize = if total_ok > usize::MAX as u128 {
        usize::MAX
    } else {
        total_ok as usize
    };
    let failed_completions: usize = if total_err > usize::MAX as u128 {
        usize::MAX
    } else {
        total_err as usize
    };

    let mut average_scores: Vec<(String, Score)> = Vec::new();
    let mut a: usize = 0;
    while a < aggregate_scores.len()
        invariant
            a <= aggregate_scores@.len(),
            average_scores@.len() == a,
            forall|k: int|
                0 <= k < a ==> #[trigger] average_scores@[k].0@ == aggregate_scores@[k].0@
                    && average_scores@[k].1 == aggregate_scores@[k].1,
        decreases aggregate_scores@.len() - a,
    {
        average_scores.push((aggregate_scores[a].0.clone(), aggregate_scores[a].1));
        a = a + 1;
    }
    proof {
        assert(crate::metrics::score_pair_views(average_scores@)
            =~= crate::metrics::score_pair_views(aggregate_scores@));
    }

    let ranking = rank_models(model_results);
    let best_performing_model = if ranking.len() > 0 {
        Some(ranking[0].model_id.clone())
    } else {
        None
    };
    let worst_performing_model = if ranking.len() > 0 {
        Some(ranking[ranking.len() - 1].model_id.clone())
    } else {
        None
    };
    proof {
        assert forall|i: int|
            0 <= i < ranking@.len() implies ranking@[0].overall_score
                >= #[trigger] ranking@[i].overall_score by {
            if i > 0 {
                assert(rank_rel()(ranking_pairs(ranking@)[0], ranking_pairs(ranking@)[i]));
            }
        }
    }
    ResultSummary {
        total_prompts,
        successful_completions,
        failed_completions,
        best_performing_model,
        worst_performing_model,
        average_scores,
        ranking,
    }
}

/// Where one model's evaluation task stands.
#[derive(Clone, Copy, Debug, PartialEq, Eq, Structural)]
pub enum TaskPhase {
    Waiting,
    Running,
    Finished,
}

/// The running state of one model's evaluation task: which prompt
/// comes next, what has been produced so far, and the final record
/// once the task finishes.
#[derive(Clone, Debug)]
pub struct ModelTask {
    pub phase: TaskPhase,
    pub next_prompt: usize,
    pub outputs: Vec<ModelOutput>,
    pub errors: Vec<EvaluationError>,
    pub total_latency_ms: u64,
    pub total_tokens: u64,
    pub total_cost_micro_usd: u64,
    pub started_at_ms: i64,
    pub result: Option<ModelResults>,
}

/// How many tasks are in the `Running` phase.
pub open spec fn count_running(tasks: Seq<ModelTask>) -> int
    decreases tasks.len(),
{
    if tasks.len() == 0 {
        0
    } else {
        count_running(tasks.drop_last()) + if tasks.last().phase is Running {
            1int
        } else {
            0int
        }
    }
}

/// The model ids of a configuration list.
pub open spec fn cfg_ids(ms: Seq<ModelConfig>) -> Seq<Seq<char>> {
    ms.map_values(|m: ModelConfig| m.id@)
}

/// The metric names of a configuration list.
pub open spec fn cfg_metric_names(ms: Seq<MetricConfig>) -> Seq<Seq<char>> {
    ms.map_values(|m: MetricConfig| m.name@)
}

/// No two model configurations share an id.
pub open spec fn unique_cfg_ids(ms: Seq<ModelConfig>) -> bool {
    forall|i: int, j: int| 0 <= i < j < ms.len() ==> ms[i].id@ != ms[j].id@
}

/// No two metric configurations share a name.
pub open spec fn unique_cfg_metric_names(ms: Seq<MetricConfig>) -> bool {
    forall|i: int, j: int| 0 <= i < j < ms.len() ==> ms[i].name@ != ms[j].name@
}

/// One task's accounting invariant: while a task waits or runs, every
/// prompt processed so far is recorded exactly once, as a success or
/// as a failure, so the records never exceed the job's prompt count;
/// once finished, the accounting lives in its result record.
pub open spec fn task_wf(t: ModelTask, n_prompts: int) -> bool {
    &&& (t.phase is Waiting || t.phase is Running
        ==> t.outputs@.len() + t.errors@.len() == t.next_prompt && t.result is None)
    &&& t.next_prompt <= n_prompts
    &&& (t.phase is Waiting ==> t.next_prompt == 0)
    &&& (t.result is Some ==> t.phase is Finished)
}

/// Drives one evaluation job: admits up to `parallel_requests` model
/// tasks at a time, records each prompt's success or failure, computes
/// each finished model's metrics and performance figures, and
/// assembles the final verified result set. The outside work — the
/// provider calls themselves — happens between its steps; the
/// scheduler only decides and records.
pub struct Scheduler {
    pub job: EvaluationJob,
    pub parallel_requests: usize,
    pub registry: MetricRegistry,
    pub tasks: Vec<ModelTask>,
    pub active: usize,
    pub next_waiting: usize,
    pub events: Vec<LogEntry>,
    pub run_started_ms: i64,
}

impl Scheduler {
    /// The scheduler's invariant. While the job is pending or running
    /// there is one task per model, tasks are admitted in model order,
    /// no more than `parallel_requests` run at once, and every task's
    /// prompt accounting is exact. A job carries results exactly when
    /// it is `Completed`.
    pub open spec fn wf(self) -> bool {
        &&& self.parallel_requests >= 1
        &&& unique_cfg_ids(self.job.models@)
        &&& unique_cfg_metric_names(self.job.metrics@)
        &&& (self.job.results is Some <==> self.job.status is Completed)
        &&& (self.job.status is Pending || self.job.status is Running ==> {
            &&& self.tasks@.len() == self.job.models@.len()
            &&& self.active == count_running(self.tasks@)
            &&& self.active <= self.parallel_requests
            &&& self.next_waiting <= self.tasks@.len()
            &&& forall|i: int|
                0 <= i < self.next_waiting ==> !((#[trigger] self.tasks@[i].phase) is Waiting)
            &&& forall|i: int|
                self.next_waiting <= i < self.tasks@.len()
                    ==> (#[trigger] self.tasks@[i].phase) is Waiting
            &&& forall|i: int|
                0 <= i < self.tasks@.len() ==> task_wf(
                    #[trigger] self.tasks@[i],
                    self.job.prompts@.len() as int,
                )
            &&& forall|i: int|
                0 <= i < self.tasks@.len() ==> ((#[trigger] self.tasks@[i].result) matches Some(mr)
                    ==> mr.model_id@ == self.job.models@[i].id@
                        && mr.outputs@.len() + mr.errors@.len() == self.job.prompts@.len()
                        && crate::storage::unique_metric_names(mr.metrics@))
        })
        &&& (self.job.status is Pending ==> self.active == 0 && self.next_waiting == 0
            && self.events@.len() == 0 && forall|i: int|
                0 <= i < self.tasks@.len() ==> (#[trigger] self.tasks@[i]).total_latency_ms == 0
                    && self.tasks@[i].total_tokens == 0
                    && self.tasks@[i].total_cost_micro_usd == 0)
    }

    /// A scheduler for a freshly created pending job.
    pub fn new(job: EvaluationJob, parallel_requests: usize, registry: MetricRegistry) -> (r: Self)
        requires
            job.status is Pending,
            job.results is None,
            parallel_requests >= 1,
            unique_cfg_ids(job.models@),
            unique_cfg_metric_names(job.metrics@),
        ensures
            r.wf(),
            r.job == job,
            r.parallel_requests == parallel_requests,
            r.registry == registry,
            r.events@.len() == 0,
            forall|i: int|
                0 <= i < r.tasks@.len() ==> (#[trigger] r.tasks@[i].phase) is Waiting,
            forall|i: int|
                0 <= i < r.tasks@.len() ==> (#[trigger] r.tasks@[i]).total_latency_ms == 0
                    && r.tasks@[i].total_tokens == 0 && r.tasks@[i].total_cost_micro_usd == 0,
    {
        let n = job.models.len();
        let mut tasks: Vec<ModelTask> = Vec::new();
        let mut i: usize = 0;
        while i < n
            invariant
                i <= n,
                tasks@.len() == i,
                forall|k: int| 0 <= k < i ==> ((#[trigger] tasks@[k]).phase is Waiting),
                forall|k: int| 0 <= k < i ==> (#[trigger] tasks@[k]).next_prompt == 0,
                forall|k: int| 0 <= k < i ==> (#[trigger] tasks@[k]).outputs@.len() == 0,
                forall|k: int| 0 <= k < i ==> (#[trigger] tasks@[k]).errors@.len() == 0,
                forall|k: int| 0 <= k < i ==> (#[trigger] tasks@[k]).result is None,
                forall|k: int|
                    0 <= k < i ==> (#[trigger] tasks@[k]).total_latency_ms == 0
                        && tasks@[k].total_tokens == 0 && tasks@[k].total_cost_micro_usd == 0,
            decreases n - i,
        {
            tasks.push(ModelTask {
                phase: TaskPhase::Waiting,
                next_prompt: 0,
                outputs: Vec::new(),
                errors: Vec::new(),
                total_latency_ms: 0,
                total_tokens: 0,
                total_cost_micro_usd: 0,
                started_at_ms: 0,
                result: None,
            });
            i = i + 1;
        }
        proof {
            lemma_count_running_all_waiting(tasks@);
        }
        Scheduler {
            job,
            parallel_requests,
            registry,
            tasks,
            active: 0,
            next_waiting: 0,
            events: Vec::new(),
            run_started_ms: 0,
        }
    }
}

/// Saturating add on 64-bit counters.
pub open spec fn sat_add(a: u64, b: u64) -> u64 {
    if a + b > u64::MAX {
        u64::MAX
    } else {
        (a + b) as u64
    }
}

fn sat_add_u64(a: u64, b: u64) -> (r: u64)
    ensures
        r == sat_add(a, b),
{
    if a > u64::MAX - b {
        u64::MAX
    } else {
        a + b
    }
}

/// Whether an event announces the start of the given model.
pub open spec fn is_model_started(e: LogEvent, m: ModelConfig) -> bool {
    e matches LogEvent::ModelStarted { model_id, provider } && model_id@ == m.id@
        && provider@ == m.provider@
}

/// Whether an event announces the start of the given job.
pub open spec fn is_job_started(e: LogEvent, job: EvaluationJob) -> bool {
    e matches LogEvent::JobStarted { models, prompts, metrics }
        && models.deep_view() == cfg_ids(job.models@) && prompts == job.prompts@.len()
        && metrics.deep_view() == cfg_metric_names(job.metrics@)
}

/// The first validation failure, if any.
pub open spec fn first_failure(vs: Seq<Result<(), String>>) -> Option<String>
    decreases vs.len(),
{
    if vs.len() == 0 {
        None
    } else if vs[0] is Err {
        Some(vs[0]->Err_0)
    } else {
        first_failure(vs.drop_first())
    }
}

proof fn lemma_count_running_update(tasks: Seq<ModelTask>, i: int, t: ModelTask)
    requires
        0 <= i < tasks.len(),
    ensures
        count_running(tasks.update(i, t)) == count_running(tasks) - (
        if tasks[i].phase is Running {
            1int
        } else {
            0int
        }) + (
        if t.phase is Running {
            1int
        } else {
            0int
        }),
    decreases tasks.len(),
{
    let upd = tasks.update(i, t);
    if i == tasks.len() - 1 {
        assert(upd.drop_last() =~= tasks.drop_last());
        assert(upd.last() == t);
    } else {
        assert(upd.drop_last() =~= tasks.drop_last().update(i, t));
        assert(upd.last() == tasks.last());
        lemma_count_running_update(tasks.drop_last(), i, t);
    }
}

impl Scheduler {
    /// Admits the next waiting model task, if the concurrency cap
    /// allows one more: marks it running and logs `ModelStarted`.
    /// Returns whether a task was admitted.
    pub fn admit_next(&mut self) -> (r: bool)
        requires
            old(self).wf(),
            old(self).job.status is Running,
        ensures
            final(self).wf(),
            final(self).job == old(self).job,
            final(self).parallel_requests == old(self).parallel_requests,
            final(self).registry == old(self).registry,
            r == (old(self).active < old(self).parallel_requests && old(self).next_waiting
                < old(self).tasks@.len()),
            !r ==> *final(self) == *old(self),
            r ==> {
                &&& final(self).next_waiting == old(self).next_waiting + 1
                &&& final(self).active == old(self).active + 1
                &&& final(self).tasks@.len() == old(self).tasks@.len()
                &&& forall|k: int|
                    0 <= k < old(self).tasks@.len() && k != old(self).next_waiting
                        ==> final(self).tasks@[k] == old(self).tasks@[k]
                &&& final(self).tasks@[old(self).next_waiting as int].phase is Running
                &&& final(self).tasks@[old(self).next_waiting as int].next_prompt == 0
                &&& final(self).tasks@[old(self).next_waiting as int].outputs
                    == old(self).tasks@[old(self).next_waiting as int].outputs
                &&& final(self).tasks@[old(self).next_waiting as int].errors
                    == old(self).tasks@[old(self).next_waiting as int].errors
                &&& final(self).tasks@[old(self).next_waiting as int].total_latency_ms
                    == old(self).tasks@[old(self).next_waiting as int].total_latency_ms
                &&& final(self).tasks@[old(self).next_waiting as int].total_tokens
                    == old(self).tasks@[old(self).next_waiting as int].total_tokens
                &&& final(self).tasks@[old(self).next_waiting as int].total_cost_micro_usd
                    == old(self).tasks@[old(self).next_waiting as int].total_cost_micro_usd
                &&& final(self).events@.len() == old(self).events@.len() + 1
                &&& final(self).events@.take(old(self).events@.len() as int) == old(self).events@
                &&& is_model_started(
                    final(self).events@.last().event,
                    old(self).job.models@[old(self).next_waiting as int],
                )
                &&& final(self).events@.last().job_id@ == old(self).job.id@
            },
    {
        if self.active < self.parallel_requests && self.next_waiting < self.tasks.len() {
            let w = self.next_waiting;
            let ghost tasks0 = self.tasks@;
            let mut t = self.tasks.remove(w);
            t.phase = TaskPhase::Running;
            t.started_at_ms = now_millis();
            let ghost t2 = t;
            self.tasks.insert(w, t);
            proof {
                assert(self.tasks@ =~= tasks0.update(w as int, t2));
                lemma_count_running_update(tasks0, w as int, t2);
            }
            let event = LogEvent::ModelStarted {
                model_id: self.job.models[w].id.clone(),
                provider: self.job.models[w].provider.clone(),
            };
            self.events.push(LogEntry {
                timestamp_ms: now_millis(),
                job_id: self.job.id.clone(),
                event,
            });
            self.active = self.active + 1;
            self.next_waiting = w + 1;
            proof {
                assert(self.events@.take(self.events@.len() - 1) =~= old(self).events@);
            }
            true
        } else {
            false
        }
    }

    /// Starts the job: if any model failed validation, the job stays
    /// `Pending` and the first failure is returned as a configuration
    /// error; otherwise the job transitions to `Running`, `JobStarted`
    /// is logged, and up to `parallel_requests` model tasks are
    /// admitted.
    pub fn start(&mut self, validations: &Vec<Result<(), String>>) -> (r: Result<(), EvaluationError>)
        requires
            old(self).wf(),
            old(self).job.status is Pending,
            validations@.len() == old(self).job.models@.len(),
        ensures
            final(self).wf(),
            r is Ok <==> first_failure(validations@) is None,
            r matches Err(e) ==> {
                &&& *final(self) == *old(self)
                &&& final(self).job.status is Pending
                &&& e.error_type == ErrorType::ConfigurationError
                &&& first_failure(validations@) matches Some(m) && e.message@ == m@
            },
            r is Ok ==> {
                &&& final(self).job.status is Running
                &&& final(self).job.results is None
                &&& final(self).job.id == old(self).job.id
                &&& final(self).job.prompts == old(self).job.prompts
                &&& final(self).job.models == old(self).job.models
                &&& final(self).job.metrics == old(self).job.metrics
                &&& final(self).registry == old(self).registry
                &&& final(self).events@.len() == 1 + final(self).next_waiting
                &&& is_job_started(final(self).events@[0].event, old(self).job)
                &&& forall|k: int|
                    1 <= k < final(self).events@.len() ==> is_model_started(
                        (#[trigger] final(self).events@[k]).event,
                        old(self).job.models@[k - 1],
                    )
                &&& forall|k: int|
                    0 <= k < final(self).events@.len()
                        ==> (#[trigger] final(self).events@[k]).job_id@ == old(self).job.id@
                &&& final(self).active == final(self).next_waiting
                &&& (final(self).next_waiting == old(self).tasks@.len()
                    || final(self).next_waiting == old(self).parallel_requests)
                &&& forall|k: int|
                    0 <= k < final(self).tasks@.len()
                        ==> (#[trigger] final(self).tasks@[k]).next_prompt == 0
                            && final(self).tasks@[k].result is None
                &&& forall|k: int|
                    0 <= k < final(self).tasks@.len()
                        ==> (#[trigger] final(self).tasks@[k]).total_latency_ms == 0
                            && final(self).tasks@[k].total_tokens == 0
                            && final(self).tasks@[k].total_cost_micro_usd == 0
            },
    {
        proof {
            assert(validations@.skip(0) =~= validations@);
        }
        let mut failure: Option<EvaluationError> = None;
        let mut v: usize = 0;
        while v < validations.len()
            invariant
                v <= validations@.len(),
                failure is None ==> forall|k: int| 0 <= k < v ==> (#[trigger] validations@[k]) is Ok,
                failure is None ==> first_failure(validations@)
                    == first_failure(validations@.skip(v as int)),
                failure matches Some(e) ==> {
                    &&& first_failure(validations@) matches Some(m) && e.message@ == m@
                    &&& e.error_type == ErrorType::ConfigurationError
                },
            decreases validations@.len() - v,
        {
            proof {
                assert(validations@.skip(v as int)[0] == validations@[v as int]);
                assert(validations@.skip(v as int).drop_first() =~= validations@.skip(v + 1));
            }
            if failure.is_none() {
                match &validations[v] {
                    Ok(_) => {},
                    Err(m) => {
                        failure = Some(EvaluationError {
                            error_type: ErrorType::ConfigurationError,
                            message: m.clone(),
                            prompt_id: None,
                            timestamp_ms: now_millis(),
                            context: Vec::new(),
                        });
                    },
                }
            }
            v = v + 1;
        }
        proof {
            assert(validations@.skip(validations@.len() as int).len() == 0);
        }
        match failure {
            Some(e) => {
                return Err(e);
            },
            None => {},
        }

        self.run_started_ms = now_millis();
        let mut model_names: Vec<String> = Vec::new();
        let mut i: usize = 0;
        while i < self.job.models.len()
            invariant
                i <= self.job.models@.len(),
                model_names@.len() == i,
                forall|k: int| 0 <= k < i ==> model_names@[k]@ == self.job.models@[k].id@,
            decreases self.job.models@.len() - i,
        {
            model_names.push(self.job.models[i].id.clone());
            i = i + 1;
        }
        let mut metric_names: Vec<String> = Vec::new();
        let mut i: usize = 0;
        while i < self.job.metrics.len()
            invariant
                i <= self.job.metrics@.len(),
                metric_names@.len() == i,
                forall|k: int| 0 <= k < i ==> metric_names@[k]@ == self.job.metrics@[k].name@,
            decreases self.job.metrics@.len() - i,
        {
            metric_names.push(self.job.metrics[i].name.clone());
            i = i + 1;
        }
        proof {
            assert(model_names.deep_view() =~= cfg_ids(self.job.models@));
            assert(metric_names.deep_view() =~= cfg_metric_names(self.job.metrics@));
        }
        let event = LogEvent::JobStarted {
            models: model_names,
            prompts: self.job.prompts.len(),
            metrics: metric_names,
        };
        self.events.push(LogEntry {
            timestamp_ms: now_millis(),
            job_id: self.job.id.clone(),
            event,
        });
        self.job.status = JobStatus::Running;

        while self.active < self.parallel_requests && self.next_waiting < self.tasks.len()
            invariant
                self.wf(),
                self.job.status is Running,
                self.job.results is None,
                self.job.id == old(self).job.id,
                self.job.prompts == old(self).job.prompts,
                self.job.models == old(self).job.models,
                self.job.metrics == old(self).job.metrics,
                self.registry == old(self).registry,
                self.parallel_requests == old(self).parallel_requests,
                self.tasks@.len() == old(self).tasks@.len(),
                self.active == self.next_waiting,
                self.events@.len() == 1 + self.next_waiting,
                is_job_started(self.events@[0].event, old(self).job),
                forall|k: int|
                    1 <= k < self.events@.len() ==> is_model_started(
                        (#[trigger] self.events@[k]).event,
                        old(self).job.models@[k - 1],
                    ),
                forall|k: int|
                    0 <= k < self.events@.len()
                        ==> (#[trigger] self.events@[k]).job_id@ == old(self).job.id@,
                forall|k: int|
                    0 <= k < self.tasks@.len() ==> (#[trigger] self.tasks@[k]).next_prompt == 0
                        && self.tasks@[k].result is None,
                forall|k: int|
                    0 <= k < self.tasks@.len()
                        ==> (#[trigger] self.tasks@[k]).total_latency_ms == 0
                            && self.tasks@[k].total_tokens == 0
                            && self.tasks@[k].total_cost_micro_usd == 0,
            decreases self.tasks@.len() - self.next_waiting,
        {
            let ghost evs = self.events@;
            let admitted = self.admit_next();
            proof {
                assert(admitted);
                assert(self.events@.take(evs.len() as int) == evs);
                assert forall|k: int|
                    1 <= k < self.events@.len() implies is_model_started(
                    (#[trigger] self.events@[k]).event,
                    old(self).job.models@[k - 1],
                ) by {
                    if k < evs.len() {
                        assert(self.events@.take(evs.len() as int)[k] == self.events@[k]);
                        assert(self.events@[k] == evs[k]);
                    }
                }
                assert forall|k: int|
                    0 <= k < self.events@.len() implies (#[trigger] self.events@[k]).job_id@
                        == old(self).job.id@ by {
                    if k < evs.len() {
                        assert(self.events@.take(evs.len() as int)[k] == self.events@[k]);
                        assert(self.events@[k] == evs[k]);
                    }
                }
            }
        }
        Ok(())
    }

    /// Records the outcome of one provider call for a running model
    /// task: a success appends the output and accumulates its latency,
    /// token and cost figures (saturating); a failure appends an
    /// `UnknownError` record naming the prompt. Either way the task
    /// moves to its next prompt, so a failure never aborts the
    /// remaining prompts.
    pub fn record_generation(&mut self, model_idx: usize, outcome: Result<ModelOutput, String>)
        requires
            old(self).wf(),
            old(self).job.status is Running,
            model_idx < old(self).tasks@.len(),
            old(self).tasks@[model_idx as int].phase is Running,
            old(self).tasks@[model_idx as int].next_prompt < old(self).job.prompts@.len(),
        ensures
            final(self).wf(),
            final(self).job == old(self).job,
            final(self).parallel_requests == old(self).parallel_requests,
            final(self).registry == old(self).registry,
            final(self).events == old(self).events,
            final(self).active == old(self).active,
            final(self).next_waiting == old(self).next_waiting,
            final(self).tasks@.len() == old(self).tasks@.len(),
            forall|k: int|
                0 <= k < old(self).tasks@.len() && k != model_idx
                    ==> final(self).tasks@[k] == old(self).tasks@[k],
            ({
                let t0 = old(self).tasks@[model_idx as int];
                let t1 = final(self).tasks@[model_idx as int];
                &&& t1.phase is Running
                &&& t1.next_prompt == t0.next_prompt + 1
                &&& t1.started_at_ms == t0.started_at_ms
                &&& match outcome {
                    Ok(o) => {
                        &&& t1.outputs@ == t0.outputs@.push(o)
                        &&& t1.errors == t0.errors
                        &&& t1.total_latency_ms == sat_add(t0.total_latency_ms, o.metadata.latency_ms)
                        &&& t1.total_tokens == sat_add(
                            t0.total_tokens,
                            match o.metadata.token_count {
                                Some(c) => c as u64,
                                None => 0u64,
                            },
                        )
                        &&& t1.total_cost_micro_usd == sat_add(
                            t0.total_cost_micro_usd,
                            match o.metadata.cost_micro_usd {
                                Some(c) => c,
                                None => 0u64,
                            },
                        )
                    },
                    Err(m) => {
                        &&& t1.outputs == t0.outputs
                        &&& t1.errors@.len() == t0.errors@.len() + 1
                        &&& t1.errors@.take(t0.errors@.len() as int) == t0.errors@
                        &&& ({
                            let e = t1.errors@.last();
                            &&& e.error_type == ErrorType::UnknownError
                            &&& (e.prompt_id matches Some(p)
                                && p@ == old(self).job.prompts@[t0.next_prompt as int].id@)
                            &&& e.message@ == "Failed to generate output for prompt '"@
                                + old(self).job.prompts@[t0.next_prompt as int].id@ + "': "@ + m@
                            &&& e.context@.len() == 0
                        })
                        &&& t1.total_latency_ms == t0.total_latency_ms
                        &&& t1.total_tokens == t0.total_tokens
                        &&& t1.total_cost_micro_usd == t0.total_cost_micro_usd
                    },
                }
            }),
    {
        let ghost tasks0 = self.tasks@;
        let n_prompts = self.job.prompts.len();
        let mut t = self.tasks.remove(model_idx);
        proof {
            assert(t.next_prompt < n_prompts);
        }
        match outcome {
            Ok(o) => {
                t.total_latency_ms = sat_add_u64(t.total_latency_ms, o.metadata.latency_ms);
                let tokens: u64 = match o.metadata.token_count {
                    Some(c) => c as u64,
                    None => 0,
                };
                t.total_tokens = sat_add_u64(t.total_tokens, tokens);
                let cost: u64 = match o.metadata.cost_micro_usd {
                    Some(c) => c,
                    None => 0,
                };
                t.total_cost_micro_usd = sat_add_u64(t.total_cost_micro_usd, cost);
                t.outputs.push(o);
            },
            Err(m) => {
                let pid = &self.job.prompts[t.next_prompt].id;
                let mut message = String::new();
                message.append("Failed to generate output for prompt '");
                message.append(pid.as_str());
                message.append("': ");
                message.append(m.as_str());
                proof {
                    assert(message@ =~= "Failed to generate output for prompt '"@ + pid@
                        + "': "@ + m@);
                }
                t.errors.push(EvaluationError {
                    error_type: ErrorType::UnknownError,
                    message,
                    prompt_id: Some(pid.clone()),
                    timestamp_ms: now_millis(),
                    context: Vec::new(),
                });
            },
        }
        t.next_prompt = t.next_prompt + 1;
        let ghost t2 = t;
        self.tasks.insert(model_idx, t);
        proof {
            assert(self.tasks@ =~= tasks0.update(model_idx as int, t2));
            lemma_count_running_update(tasks0, model_idx as int, t2);
            assert(t2.errors@.take(tasks0[model_idx as int].errors@.len() as int)
                =~= tasks0[model_idx as int].errors@);
        }
    }
}

/// The success rate of a model in micro-units: successes per prompt
/// attempted, zero when the job has no prompts.
pub open spec fn success_rate_spec(n_ok: int, n_prompts: int) -> int {
    if n_prompts == 0 {
        0
    } else {
        n_ok * SCORE_SCALE / n_prompts
    }
}

/// The throughput of a model in micro-units per second: successes per
/// wall-clock second over the task's duration, zero for a zero
/// duration, saturating at `u64::MAX`.
pub open spec fn throughput_spec(n_ok: int, duration_ms: u64) -> int {
    if duration_ms == 0 {
        0
    } else {
        let v = n_ok * SCORE_SCALE * 1000 / duration_ms as int;
        if v > u64::MAX {
            u64::MAX as int
        } else {
            v
        }
    }
}

/// The average latency of a model in whole milliseconds, rounded down,
/// zero when it produced no outputs.
pub open spec fn avg_latency_spec(total_latency_ms: u64, n_ok: int) -> int {
    if n_ok == 0 {
        0
    } else {
        total_latency_ms as int / n_ok
    }
}

/// Whether an event announces the completion of a model with the given
/// tallies.
pub open spec fn is_model_completed(
    e: LogEvent,
    m: ModelConfig,
    n_ok: int,
    n_err: int,
    d: u64,
) -> bool {
    e matches LogEvent::ModelCompleted { model_id, success, outputs, errors, duration_ms }
        && model_id@ == m.id@ && success == (n_err == 0) && outputs == n_ok && errors == n_err
        && duration_ms == d
}

proof fn lemma_supported_names_unique(reg: Seq<Seq<char>>, configs: Seq<MetricConfig>)
    requires
        unique_cfg_metric_names(configs),
    ensures
        forall|i: int, j: int|
            0 <= i < j < crate::metrics::supported_names(reg, configs).len()
                ==> crate::metrics::supported_names(reg, configs)[i]
                    != crate::metrics::supported_names(reg, configs)[j],
        forall|x: int|
            0 <= x < crate::metrics::supported_names(reg, configs).len()
                ==> cfg_metric_names(configs).contains(
                    #[trigger] crate::metrics::supported_names(reg, configs)[x],
                ),
    decreases configs.len(),
{
    if configs.len() > 0 {
        let pre = configs.drop_last();
        assert(unique_cfg_metric_names(pre)) by {
            assert forall|i: int, j: int|
                0 <= i < j < pre.len() implies pre[i].name@ != pre[j].name@ by {
                assert(pre[i] == configs[i]);
                assert(pre[j] == configs[j]);
            }
        }
        lemma_supported_names_unique(reg, pre);
        let rest = crate::metrics::supported_names(reg, pre);
        let whole = crate::metrics::supported_names(reg, configs);
        assert forall|x: int|
            0 <= x < whole.len() implies cfg_metric_names(configs).contains(
            #[trigger] whole[x],
        ) by {
            if x < rest.len() {
                assert(cfg_metric_names(pre).contains(rest[x]));
                let w = choose|w: int|
                    0 <= w < cfg_metric_names(pre).len() && cfg_metric_names(pre)[w] == rest[x];
                assert(cfg_metric_names(configs)[w] == rest[x]);
            } else {
                assert(whole[x] == configs.last().name@);
                assert(cfg_metric_names(configs)[configs.len() - 1] == configs.last().name@);
            }
        }
        assert forall|i: int, j: int|
            0 <= i < j < whole.len() implies whole[i] != whole[j] by {
            if j < rest.len() {
            } else if j == rest.len() && whole.len() > rest.len() {
                // the appended name is the last config's, which no
                // earlier config shares
                assert(whole[j] == configs.last().name@);
                assert(cfg_metric_names(pre).contains(rest[i]));
                let w = choose|w: int|
                    0 <= w < cfg_metric_names(pre).len() && cfg_metric_names(pre)[w] == rest[i];
                assert(configs[w].name@ == rest[i]);
                assert(configs[w].name@ != configs[configs.len() - 1].name@);
            }
        }
    }
}

impl Scheduler {
    /// Finishes a running model task that has worked through every
    /// prompt: computes its metrics and performance figures, logs one
    /// `MetricCalculated` per computed metric and a `ModelCompleted`,
    /// stores the model's result record, and frees its concurrency
    /// slot.
    pub fn finish_model(&mut self, model_idx: usize)
        requires
            old(self).wf(),
            old(self).job.status is Running,
            model_idx < old(self).tasks@.len(),
            old(self).tasks@[model_idx as int].phase is Running,
            old(self).tasks@[model_idx as int].next_prompt == old(self).job.prompts@.len(),
        ensures
            final(self).wf(),
            final(self).job == old(self).job,
            final(self).parallel_requests == old(self).parallel_requests,
            final(self).registry == old(self).registry,
            final(self).active == old(self).active - 1,
            final(self).next_waiting == old(self).next_waiting,
            final(self).tasks@.len() == old(self).tasks@.len(),
            forall|k: int|
                0 <= k < old(self).tasks@.len() && k != model_idx
                    ==> final(self).tasks@[k] == old(self).tasks@[k],
            final(self).tasks@[model_idx as int].phase is Finished,
            ({
                let t0 = old(self).tasks@[model_idx as int];
                let cfg = old(self).job.models@[model_idx as int];
                let reg = old(self).registry.metrics.deep_view();
                let sup = crate::metrics::supported_names(reg, old(self).job.metrics@);
                &&& final(self).tasks@[model_idx as int].result matches Some(mr)
                &&& ({
                    let mr = final(self).tasks@[model_idx as int].result->Some_0;
                    let n_ok = t0.outputs@.len() as int;
                    let n_err = t0.errors@.len() as int;
                    let d = final(self).events@.last().event->ModelCompleted_duration_ms;
                    &&& mr.model_id@ == cfg.id@
                    &&& mr.outputs == t0.outputs
                    &&& mr.errors == t0.errors
                    &&& mr.metrics@.len() == sup.len()
                    &&& forall|i: int|
                        0 <= i < mr.metrics@.len() ==> crate::metrics::entry_matches(
                            #[trigger] mr.metrics@[i],
                            sup[i],
                            t0.outputs@,
                            old(self).job.prompts@,
                        )
                    &&& mr.performance.total_latency_ms == t0.total_latency_ms
                    &&& mr.performance.average_latency_ms == avg_latency_spec(
                        t0.total_latency_ms,
                        n_ok,
                    )
                    &&& mr.performance.total_tokens == t0.total_tokens
                    &&& mr.performance.total_cost_micro_usd == t0.total_cost_micro_usd
                    &&& mr.performance.success_rate_micro == success_rate_spec(
                        n_ok,
                        old(self).job.prompts@.len() as int,
                    )
                    &&& mr.performance.throughput_micro_per_s == throughput_spec(n_ok, d)
                    &&& final(self).events@.len() == old(self).events@.len() + mr.metrics@.len()
                        + 1
                    &&& final(self).events@.take(old(self).events@.len() as int)
                        == old(self).events@
                    &&& forall|i: int|
                        0 <= i < mr.metrics@.len() ==> is_metric_calculated(
                            (#[trigger] final(self).events@[old(self).events@.len() + i]).event,
                            mr.metrics@[i],
                            cfg,
                        )
                    &&& is_model_completed(final(self).events@.last().event, cfg, n_ok, n_err, d)
                    &&& forall|k: int|
                        old(self).events@.len() <= k < final(self).events@.len()
                            ==> (#[trigger] final(self).events@[k]).job_id@
                                == old(self).job.id@
                })
            }),
    {
        let ghost tasks0 = self.tasks@;
        let ghost evs0 = self.events@;
        let n_prompts = self.job.prompts.len();
        let t = self.tasks.remove(model_idx);
        let ModelTask {
            phase: _,
            next_prompt,
            outputs,
            errors,
            total_latency_ms,
            total_tokens,
            total_cost_micro_usd,
            started_at_ms,
            result: _,
        } = t;

        let metrics = self.registry.calculate_all(&outputs, &self.job.prompts, &self.job.metrics);
        proof {
            lemma_supported_names_unique(
                self.registry.metrics.deep_view(),
                self.job.metrics@,
            );
            assert(crate::storage::unique_metric_names(metrics@)) by {
                let reg = self.registry.metrics.deep_view();
                let sup = crate::metrics::supported_names(reg, self.job.metrics@);
                assert forall|i: int, j: int|
                    0 <= i < j < metrics@.len() implies metrics@[i].metric_name@
                        != metrics@[j].metric_name@ by {
                    assert(metrics@[i].metric_name@ == sup[i]);
                    assert(metrics@[j].metric_name@ == sup[j]);
                }
            }
        }

        let n_ok = outputs.len();
        let n_err = errors.len();

        let average_latency_ms: u64 = if n_ok == 0 {
            0
        } else {
            total_latency_ms / (n_ok as u64)
        };
        let success_rate_micro: u64 = if n_prompts == 0 {
            0
        } else {
            let wide: u128 = n_ok as u128 * SCORE_SCALE as u128 / n_prompts as u128;
            proof {
                crate::metrics::lemma_frac_le(n_ok as int, n_prompts as int, SCORE_SCALE as int);
            }
            wide as u64
        };
        let now = now_millis();
        let elapsed: i128 = now as i128 - started_at_ms as i128;
        let duration_ms: u64 = if elapsed < 0 {
            0
        } else if elapsed > u64::MAX as i128 {
            u64::MAX
        } else {
            elapsed as u64
        };
        let throughput_micro_per_s: u64 = if duration_ms == 0 {
            0
        } else {
            let wide: u128 = n_ok as u128 * SCORE_SCALE as u128 * 1000u128 / duration_ms as u128;
            if wide > u64::MAX as u128 {
                u64::MAX
            } else {
                wide as u64
            }
        };

        let performance = PerformanceMetrics {
            total_latency_ms,
            average_latency_ms,
            total_tokens,
            total_cost_micro_usd,
            success_rate_micro,
            throughput_micro_per_s,
        };

        // log one event per computed metric
        let mut mi: usize = 0;
        while mi < metrics.len()
            invariant
                mi <= metrics@.len(),
                model_idx < self.job.models@.len(),
                self.tasks@ == tasks0.remove(model_idx as int),
                self.job == old(self).job,
                self.parallel_requests == old(self).parallel_requests,
                self.registry == old(self).registry,
                self.active == old(self).active,
                self.next_waiting == old(self).next_waiting,
                self.run_started_ms == old(self).run_started_ms,
                self.events@.len() == evs0.len() + mi,
                self.events@.take(evs0.len() as int) == evs0,
                forall|i: int|
                    0 <= i < mi ==> is_metric_calculated(
                        (#[trigger] self.events@[evs0.len() + i]).event,
                        metrics@[i],
                        self.job.models@[model_idx as int],
                    ),
                forall|k: int|
                    evs0.len() <= k < self.events@.len()
                        ==> (#[trigger] self.events@[k]).job_id@ == self.job.id@,
            decreases metrics@.len() - mi,
        {
            let ghost evs_pre = self.events@;
            let event = LogEvent::MetricCalculated {
                metric_name: metrics[mi].metric_name.clone(),
                model_id: self.job.models[model_idx].id.clone(),
                score: metrics[mi].score,
            };
            self.events.push(LogEntry {
                timestamp_ms: now_millis(),
                job_id: self.job.id.clone(),
                event,
            });
            proof {
                assert(self.events@.take(evs_pre.len() as int) =~= evs_pre);
                assert(self.events@.take(evs0.len() as int)
                    =~= evs_pre.take(evs0.len() as int));
                assert forall|i: int|
                    0 <= i < mi + 1 implies is_metric_calculated(
                    (#[trigger] self.events@[evs0.len() + i]).event,
                    metrics@[i],
                    self.job.models@[model_idx as int],
                ) by {
                    if i < mi {
                        assert(self.events@[evs0.len() + i] == evs_pre[evs0.len() + i]);
                    }
                }
            }
            mi = mi + 1;
        }

        let event = LogEvent::ModelCompleted {
            model_id: self.job.models[model_idx].id.clone(),
            success: n_err == 0,
            outputs: n_ok,
            errors: n_err,
            duration_ms,
        };
        let ghost evs_pre = self.events@;
        self.events.push(LogEntry {
            timestamp_ms: now_millis(),
            job_id: self.job.id.clone(),
            event,
        });
        proof {
            assert(self.events@.take(evs_pre.len() as int) =~= evs_pre);
            assert(self.events@.take(evs0.len() as int) =~= evs_pre.take(evs0.len() as int));
        }

        let mr = ModelResults {
            model_id: self.job.models[model_idx].id.clone(),
            outputs,
            metrics,
            performance,
            errors,
        };
        let finished = ModelTask {
            phase: TaskPhase::Finished,
            next_prompt,
            outputs: Vec::new(),
            errors: Vec::new(),
            total_latency_ms,
            total_tokens,
            total_cost_micro_usd,
            started_at_ms,
            result: Some(mr),
        };
        let ghost t2 = finished;
        proof {
            assert(self.tasks@.len() == tasks0.len() - 1);
            lemma_count_running_pos(tasks0, model_idx as int);
        }
        self.tasks.insert(model_idx, finished);
        self.active = self.active - 1;
        proof {
            assert(self.tasks@ =~= tasks0.update(model_idx as int, t2));
            lemma_count_running_update(tasks0, model_idx as int, t2);
        }
    }
}

/// The result records of the finished tasks, in task order; tasks
/// that were abandoned contribute nothing.
pub open spec fn results_of(tasks: Seq<ModelTask>) -> Seq<ModelResults>
    decreases tasks.len(),
{
    if tasks.len() == 0 {
        Seq::empty()
    } else {
        let rest = results_of(tasks.drop_last());
        match tasks.last().result {
            Some(mr) => rest.push(mr),
            None => rest,
        }
    }
}

proof fn lemma_results_of_props(tasks: Seq<ModelTask>, models: Seq<ModelConfig>, n_prompts: int)
    requires
        tasks.len() <= models.len(),
        unique_cfg_ids(models),
        forall|i: int|
            0 <= i < tasks.len() ==> ((#[trigger] tasks[i].result) matches Some(mr)
                ==> mr.model_id@ == models[i].id@
                    && mr.outputs@.len() + mr.errors@.len() == n_prompts
                    && crate::storage::unique_metric_names(mr.metrics@)),
    ensures
        crate::storage::unique_model_ids(results_of(tasks)),
        forall|x: int|
            0 <= x < results_of(tasks).len() ==> cfg_ids(models).take(tasks.len() as int).contains(
                (#[trigger] results_of(tasks)[x]).model_id@,
            ),
        forall|x: int|
            0 <= x < results_of(tasks).len() ==> (#[trigger] results_of(tasks)[x]).outputs@.len()
                + results_of(tasks)[x].errors@.len() == n_prompts,
        forall|x: int|
            0 <= x < results_of(tasks).len() ==> crate::storage::unique_metric_names(
                (#[trigger] results_of(tasks)[x]).metrics@,
            ),
    decreases tasks.len(),
{
    if tasks.len() > 0 {
        let pre = tasks.drop_last();
        assert forall|i: int|
            0 <= i < pre.len() implies ((#[trigger] pre[i].result) matches Some(mr)
                ==> mr.model_id@ == models[i].id@
                    && mr.outputs@.len() + mr.errors@.len() == n_prompts
                    && crate::storage::unique_metric_names(mr.metrics@)) by {
            assert(pre[i] == tasks[i]);
        }
        lemma_results_of_props(pre, models, n_prompts);
        let rest = results_of(pre);
        let whole = results_of(tasks);
        assert forall|x: int|
            0 <= x < whole.len() implies cfg_ids(models).take(tasks.len() as int).contains(
            (#[trigger] whole[x]).model_id@,
        ) by {
            if x < rest.len() {
                assert(cfg_ids(models).take(pre.len() as int).contains(rest[x].model_id@));
                let w = choose|w: int|
                    0 <= w < pre.len() && cfg_ids(models).take(pre.len() as int)[w]
                        == rest[x].model_id@;
                assert(cfg_ids(models).take(tasks.len() as int)[w] == rest[x].model_id@);
            } else {
                assert(whole[x] == tasks.last().result->Some_0);
                assert(whole[x].model_id@ == models[tasks.len() - 1].id@);
                assert(cfg_ids(models).take(tasks.len() as int)[tasks.len() - 1]
                    == models[tasks.len() - 1].id@);
            }
        }
        assert forall|i: int, j: int|
            0 <= i < j < whole.len() implies whole[i].model_id@ != whole[j].model_id@ by {
            if j == whole.len() - 1 && whole.len() > rest.len() {
                assert(whole[j].model_id@ == models[tasks.len() - 1].id@);
                assert(cfg_ids(models).take(pre.len() as int).contains(rest[i].model_id@));
                let w = choose|w: int|
                    0 <= w < pre.len() && cfg_ids(models).take(pre.len() as int)[w]
                        == rest[i].model_id@;
                assert(models[w].id@ == rest[i].model_id@);
                assert(models[w].id@ != models[tasks.len() - 1].id@);
            }
        }
    }
}

/// Whether an event reports the completion of the whole job with the
/// given tallies.
pub open spec fn is_job_completed(e: LogEvent, n_out: int, n_err: int) -> bool {
    e matches LogEvent::JobCompleted { duration_ms, total_outputs, total_errors }
        && total_outputs == n_out && total_errors == n_err
}

/// Whether an event records an infrastructure-level failure with the
/// given message.
pub open spec fn is_error_event(e: LogEvent, message: Seq<char>) -> bool {
    e matches LogEvent::Error { message: m, context } && m@ == message && context@.len() == 0
}

impl Scheduler {
    /// Marks a running model task as finished without a result, as
    /// after a task-level fatal error: the model is simply absent from
    /// the final result mapping, and its concurrency slot is freed.
    pub fn abandon_model(&mut self, model_idx: usize)
        requires
            old(self).wf(),
            old(self).job.status is Running,
            model_idx < old(self).tasks@.len(),
            old(self).tasks@[model_idx as int].phase is Running,
        ensures
            final(self).wf(),
            final(self).job == old(self).job,
            final(self).parallel_requests == old(self).parallel_requests,
            final(self).registry == old(self).registry,
            final(self).events == old(self).events,
            final(self).active == old(self).active - 1,
            final(self).next_waiting == old(self).next_waiting,
            final(self).tasks@.len() == old(self).tasks@.len(),
            forall|k: int|
                0 <= k < old(self).tasks@.len() && k != model_idx
                    ==> final(self).tasks@[k] == old(self).tasks@[k],
            final(self).tasks@[model_idx as int].phase is Finished,
            final(self).tasks@[model_idx as int].result is None,
    {
        let ghost tasks0 = self.tasks@;
        let mut t = self.tasks.remove(model_idx);
        t.phase = TaskPhase::Finished;
        t.result = None;
        let ghost t2 = t;
        proof {
            lemma_count_running_pos(tasks0, model_idx as int);
        }
        self.tasks.insert(model_idx, t);
        self.active = self.active - 1;
        proof {
            assert(self.tasks@ =~= tasks0.update(model_idx as int, t2));
            lemma_count_running_update(tasks0, model_idx as int, t2);
        }
    }

    /// Whether every model task has finished.
    pub fn all_finished(&self) -> (r: bool)
        ensures
            r == (forall|i: int|
                0 <= i < self.tasks@.len() ==> (#[trigger] self.tasks@[i].phase) is Finished),
    {
        let mut i: usize = 0;
        while i < self.tasks.len()
            invariant
                i <= self.tasks@.len(),
                forall|k: int| 0 <= k < i ==> (#[trigger] self.tasks@[k].phase) is Finished,
            decreases self.tasks@.len() - i,
        {
            if !(self.tasks[i].phase == TaskPhase::Finished) {
                return false;
            }
            i = i + 1;
        }
        true
    }

    /// Fails the job on an infrastructure-level error: the status
    /// moves to `Failed`, an `Error` event is logged, and no results
    /// are attached.
    pub fn fail(&mut self, message: String)
        requires
            old(self).wf(),
            old(self).job.status is Running,
        ensures
            final(self).wf(),
            final(self).job.status is Failed,
            final(self).job.results is None,
            final(self).job.id == old(self).job.id,
            final(self).job.name == old(self).job.name,
            final(self).job.prompts == old(self).job.prompts,
            final(self).job.models == old(self).job.models,
            final(self).job.metrics == old(self).job.metrics,
            final(self).events@.len() == old(self).events@.len() + 1,
            final(self).events@.take(old(self).events@.len() as int) == old(self).events@,
            is_error_event(final(self).events@.last().event, message@),
            final(self).events@.last().job_id@ == old(self).job.id@,
    {
        let event = LogEvent::Error {
            message,
            context: Vec::new(),
        };
        self.events.push(LogEntry {
            timestamp_ms: now_millis(),
            job_id: self.job.id.clone(),
            event,
        });
        self.job.status = JobStatus::Failed;
        proof {
            assert(self.events@.take(self.events@.len() - 1) =~= old(self).events@);
        }
    }

    /// Completes the job once every model task has finished: collects
    /// the per-model records, computes cross-model averages and the
    /// summary, stamps the verification hash, attaches the results,
    /// logs `JobCompleted`, and moves the job to `Completed`.
    pub fn finalize(&mut self)
        requires
            old(self).wf(),
            old(self).job.status is Running,
            forall|i: int|
                0 <= i < old(self).tasks@.len()
                    ==> (#[trigger] old(self).tasks@[i].phase) is Finished,
        ensures
            final(self).wf(),
            final(self).job.status is Completed,
            final(self).job.id == old(self).job.id,
            final(self).job.name == old(self).job.name,
            final(self).job.prompts == old(self).job.prompts,
            final(self).job.models == old(self).job.models,
            final(self).job.metrics == old(self).job.metrics,
            final(self).job.results matches Some(res) && ({
                let res = final(self).job.results->Some_0;
                let mrs = results_of(old(self).tasks@);
                &&& res.job_id@ == old(self).job.id@
                &&& res.model_results@ == mrs
                &&& crate::storage::results_keyed(res)
                &&& res.verification_hash@ == crate::storage::hash_of(res)
                &&& crate::metrics::score_pair_views(res.aggregate_scores@)
                    == aggregate_scores_spec(mrs)
                &&& res.summary.total_prompts == cap_usize(max_attempted(mrs))
                &&& res.summary.successful_completions == cap_usize(sum_outputs(mrs))
                &&& res.summary.failed_completions == cap_usize(sum_errors(mrs))
                &&& crate::metrics::score_pair_views(res.summary.average_scores@)
                    == crate::metrics::score_pair_views(res.aggregate_scores@)
                &&& res.summary.ranking@.len() == mrs.len()
                &&& forall|i: int|
                    0 <= i < res.summary.ranking@.len()
                        ==> #[trigger] res.summary.ranking@[i].rank == i + 1
                &&& sorted_by(ranking_pairs(res.summary.ranking@), rank_rel())
                &&& ranking_pairs(res.summary.ranking@).to_multiset()
                    == model_pairs(mrs).to_multiset()
                &&& (match res.summary.best_performing_model {
                    Some(b) => res.summary.ranking@.len() > 0
                        && b@ == res.summary.ranking@[0].model_id@,
                    None => res.summary.ranking@.len() == 0,
                })
                &&& (match res.summary.worst_performing_model {
                    Some(w) => res.summary.ranking@.len() > 0 && w@ == res.summary.ranking@[
                        res.summary.ranking@.len() - 1].model_id@,
                    None => res.summary.ranking@.len() == 0,
                })
                &&& forall|i: int|
                    0 <= i < mrs.len() ==> (#[trigger] mrs[i]).outputs@.len()
                        + mrs[i].errors@.len() == old(self).job.prompts@.len()
            }),
            final(self).events@.len() == old(self).events@.len() + 1,
            final(self).events@.take(old(self).events@.len() as int) == old(self).events@,
            is_job_completed(
                final(self).events@.last().event,
                final(self).job.results->Some_0.summary.successful_completions as int,
                final(self).job.results->Some_0.summary.failed_completions as int,
            ),
            final(self).events@.last().job_id@ == old(self).job.id@,
    {
        let ghost tasks0 = self.tasks@;
        let ghost evs0 = self.events@;
        let total = self.tasks.len();
        let mut mrs: Vec<ModelResults> = Vec::new();
        let mut j: usize = 0;
        proof {
            assert(tasks0.skip(0) =~= tasks0);
            assert(mrs@ =~= results_of(tasks0.take(0)));
        }
        while self.tasks.len() > 0
            invariant
                j <= total,
                total == tasks0.len(),
                self.tasks@ == tasks0.skip(j as int),
                mrs@ == results_of(tasks0.take(j as int)),
                self.job == old(self).job,
                self.parallel_requests == old(self).parallel_requests,
                self.registry == old(self).registry,
                self.events@ == evs0,
                self.run_started_ms == old(self).run_started_ms,
            decreases self.tasks@.len(),
        {
            proof {
                assert(tasks0.skip(j as int)[0] == tasks0[j as int]);
                assert(tasks0.skip(j as int).drop_first() =~= tasks0.skip(j + 1));
                assert(tasks0.take(j + 1).drop_last() =~= tasks0.take(j as int));
                assert(tasks0.take(j + 1).last() == tasks0[j as int]);
            }
            let t = self.tasks.remove(0);
            match t.result {
                Some(mr) => {
                    mrs.push(mr);
                },
                None => {},
            }
            j = j + 1;
        }
        proof {
            assert(tasks0.take(total as int) =~= tasks0);
            lemma_results_of_props(
                tasks0,
                self.job.models@,
                self.job.prompts@.len() as int,
            );
        }

        let aggregate_scores = calculate_aggregate_scores(&mrs);
        let summary = create_summary(&mrs, &aggregate_scores);
        let tot_ok = summary.successful_completions;
        let tot_err = summary.failed_completions;
        let completed_at_ms = now_millis();
        let mut results = EvaluationResults {
            job_id: self.job.id.clone(),
            completed_at_ms,
            model_results: mrs,
            aggregate_scores,
            summary,
            verification_hash: String::new(),
        };
        proof {
            assert(crate::storage::results_keyed(results));
        }
        let hash = crate::storage::ResultVerifier::calculate_hash(&results);
        let ghost draft = results;
        results.verification_hash = hash;
        proof {
            assert(crate::storage::digest_input(results)
                == crate::storage::digest_input(draft));
        }

        let now = now_millis();
        let elapsed: i128 = now as i128 - self.run_started_ms as i128;
        let duration_ms: u64 = if elapsed < 0 {
            0
        } else if elapsed > u64::MAX as i128 {
            u64::MAX
        } else {
            elapsed as u64
        };
        let event = LogEvent::JobCompleted {
            duration_ms,
            total_outputs: tot_ok,
            total_errors: tot_err,
        };
        self.events.push(LogEntry {
            timestamp_ms: now_millis(),
            job_id: self.job.id.clone(),
            event,
        });
        self.job.results = Some(results);
        self.job.status = JobStatus::Completed;
        proof {
            assert(self.events@.take(self.events@.len() - 1) =~= evs0);
        }
    }
}

/// Whether an event records one computed metric of one model.
pub open spec fn is_metric_calculated(e: LogEvent, entry: MetricResult, m: ModelConfig) -> bool {
    e matches LogEvent::MetricCalculated { metric_name, model_id, score }
        && metric_name@ == entry.metric_name@ && model_id@ == m.id@ && score == entry.score
}

proof fn lemma_count_running_nonneg(tasks: Seq<ModelTask>)
    ensures
        count_running(tasks) >= 0,
    decreases tasks.len(),
{
    if tasks.len() > 0 {
        lemma_count_running_nonneg(tasks.drop_last());
    }
}

proof fn lemma_count_running_pos(tasks: Seq<ModelTask>, i: int)
    requires
        0 <= i < tasks.len(),
        tasks[i].phase is Running,
    ensures
        count_running(tasks) >= 1,
    decreases tasks.len(),
{
    lemma_count_running_nonneg(tasks.drop_last());
    if i < tasks.len() - 1 {
        lemma_count_running_pos(tasks.drop_last(), i);
    }
}

proof fn lemma_count_running_all_waiting(tasks: Seq<ModelTask>)
    requires
        forall|i: int| 0 <= i < tasks.len() ==> (#[trigger] tasks[i].phase) is Waiting,
    ensures
        count_running(tasks) == 0,
    decreases tasks.len(),
{
    if tasks.len() > 0 {
        lemma_count_running_all_waiting(tasks.drop_last());
    }
}

} // verus!
