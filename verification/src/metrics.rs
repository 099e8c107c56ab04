//! Built-in text metrics and the metric registry.
//!
//! Scores are fixed-point micro-units (`SCORE_SCALE` == 1.0). Formulas
//! that the reference scorers state over rationals are computed here in
//! exact integer arithmetic with floor division, so every score is
//! deterministic.

use vstd::prelude::*;
use crate::{Score, SCORE_SCALE, mean_spec, mean_score, sum_sat_spec};
use crate::text::str_eq;
use crate::types::{MetaValue, MetricConfig, MetricResult, ModelOutput, Prompt};

verus! {

/// The whitespace-separated words of a string, in order.
pub uninterp spec fn words_of(s: Seq<char>) -> Seq<Seq<char>>;

/// Relies on `str::split_whitespace`: the non-empty runs between
/// Unicode whitespace, in order; an empty string has no words.
#[verifier::external_body]
pub(crate) fn split_words(s: &str) -> (r: Vec<String>)
    ensures
        r.deep_view() == words_of(s@),
        s@.len() == 0 ==> r@.len() == 0,
        forall|i: int| 0 <= i < r@.len() ==> r@[i]@.len() != 0,
        // words are non-empty and whitespace-separated, so k words
        // need at least 2k - 1 characters
        r@.len() * 2 <= s@.len() + 1,
        // a slice holds at most isize::MAX bytes, so there are fewer
        // than usize::MAX words
        r@.len() < usize::MAX,
{
    s.split_whitespace().map(|w| w.to_string()).collect()
}

/// A string with leading and trailing whitespace removed.
pub uninterp spec fn trimmed_of(s: Seq<char>) -> Seq<char>;

/// Relies on `str::trim`: the input without leading and trailing
/// whitespace.
#[verifier::external_body]
pub(crate) fn trim_str<'a>(s: &'a str) -> (r: &'a str)
    ensures
        r@ == trimmed_of(s@),
        s@.len() == 0 ==> r@.len() == 0,
{
    s.trim()
}

/// The Unicode lowercase form of a string.
pub uninterp spec fn lower_of(s: Seq<char>) -> Seq<char>;

/// Relies on `str::to_lowercase`: the result depends on the characters
/// alone.
#[verifier::external_body]
pub(crate) fn lowercase(s: &str) -> (r: String)
    ensures
        r@ == lower_of(s@),
        s@.len() == 0 ==> r@.len() == 0,
{
    s.to_lowercase()
}

/// Length of the longest common subsequence of two word lists.
pub open spec fn lcs_len(a: Seq<Seq<char>>, b: Seq<Seq<char>>) -> nat
    decreases a.len() + b.len(),
{
    if a.len() == 0 || b.len() == 0 {
        0
    } else if a.last() == b.last() {
        lcs_len(a.drop_last(), b.drop_last()) + 1
    } else {
        let skip_a = lcs_len(a.drop_last(), b);
        let skip_b = lcs_len(a, b.drop_last());
        if skip_a >= skip_b {
            skip_a
        } else {
            skip_b
        }
    }
}

pub proof fn lemma_lcs_le(a: Seq<Seq<char>>, b: Seq<Seq<char>>)
    ensures
        lcs_len(a, b) <= a.len(),
        lcs_len(a, b) <= b.len(),
    decreases a.len() + b.len(),
{
    if a.len() != 0 && b.len() != 0 {
        lemma_lcs_le(a.drop_last(), b.drop_last());
        lemma_lcs_le(a.drop_last(), b);
        lemma_lcs_le(a, b.drop_last());
    }
}

/// Length of the longest common subsequence of two word lists, by
/// dynamic programming over prefix pairs.
pub fn lcs(a: &Vec<String>, b: &Vec<String>) -> (r: usize)
    requires
        a@.len() < usize::MAX,
        b@.len() < usize::MAX,
    ensures
        r == lcs_len(a.deep_view(), b.deep_view()),
{
    let ghost av = a.deep_view();
    let ghost bv = b.deep_view();
    let n = a.len();
    let m = b.len();
    proof {
        assert(av.len() == n);
        assert(bv.len() == m);
    }
    // prev[j] == lcs of (first i-1 words of a, first j words of b);
    // curr[j] likewise for the first i words of a.
    let mut prev: Vec<usize> = Vec::new();
    let mut j: usize = 0;
    while j <= m
        invariant
            m < usize::MAX,
            j <= m + 1,
            prev@.len() == j,
            bv.len() == m,
            forall|k: int| 0 <= k < j ==> prev@[k] == lcs_len(Seq::empty(), bv.take(k)),
        decreases m + 1 - j,
    {
        prev.push(0);
        j = j + 1;
    }
    let mut i: usize = 1;
    while i <= n
        invariant
            n < usize::MAX,
            m < usize::MAX,
            1 <= i <= n + 1,
            av.len() == n,
            bv.len() == m,
            a.deep_view() == av,
            b.deep_view() == bv,
            a@.len() == n,
            b@.len() == m,
            prev@.len() == m + 1,
            forall|k: int| 0 <= k <= m ==> prev@[k] == lcs_len(av.take(i - 1), bv.take(k)),
        decreases n + 1 - i,
    {
        let mut curr: Vec<usize> = Vec::new();
        curr.push(0);
        proof {
            assert(av.take(i as int).len() == i);
            assert(lcs_len(av.take(i as int), bv.take(0)) == 0);
        }
        let mut j: usize = 1;
        while j <= m
            invariant
                m < usize::MAX,
                1 <= j <= m + 1,
                1 <= i <= n,
                av.len() == n,
                bv.len() == m,
                a.deep_view() == av,
                b.deep_view() == bv,
                a@.len() == n,
                b@.len() == m,
                prev@.len() == m + 1,
                curr@.len() == j,
                forall|k: int| 0 <= k <= m ==> prev@[k] == lcs_len(av.take(i - 1), bv.take(k)),
                forall|k: int| 0 <= k < j ==> curr@[k] == lcs_len(av.take(i as int), bv.take(k)),
            decreases m + 1 - j,
        {
            let ghost ap = av.take(i as int);
            let ghost bp = bv.take(j as int);
            proof {
                assert(ap.len() == i && bp.len() == j);
                assert(ap.last() == av[i - 1]);
                assert(bp.last() == bv[j - 1]);
                assert(ap.drop_last() =~= av.take(i - 1));
                assert(bp.drop_last() =~= bv.take(j - 1));
                lemma_lcs_le(ap.drop_last(), bp.drop_last());
            }
            let v: usize = if str_eq(a[i - 1].as_str(), b[j - 1].as_str()) {
                proof {
                    assert(a@[i - 1]@ == av[i - 1]);
                    assert(b@[j - 1]@ == bv[j - 1]);
                }
                prev[j - 1] + 1
            } else {
                let skip_a = prev[j];
                let skip_b = curr[j - 1];
                if skip_a >= skip_b { skip_a } else { skip_b }
            };
            curr.push(v);
            j = j + 1;
        }
        prev = curr;
        i = i + 1;
    }
    proof {
        assert(av.take(n as int) =~= av);
        assert(bv.take(m as int) =~= bv);
    }
    prev[m]
}

/// Whether a word list contains the word `w`.
pub open spec fn contains_word(ws: Seq<Seq<char>>, w: Seq<char>) -> bool {
    exists|j: int| 0 <= j < ws.len() && ws[j] == w
}

/// How many words of `cand` appear somewhere in `refw` (each candidate
/// occurrence counted).
pub open spec fn match_count(cand: Seq<Seq<char>>, refw: Seq<Seq<char>>) -> nat
    decreases cand.len(),
{
    if cand.len() == 0 {
        0
    } else {
        match_count(cand.drop_last(), refw) + if contains_word(refw, cand.last()) {
            1nat
        } else {
            0nat
        }
    }
}

pub proof fn lemma_frac_le(m: int, c: int, s: int)
    requires
        0 <= m <= c,
        0 < c,
        0 <= s,
    ensures
        0 <= m * s / c <= s,
{
    assert(m * s <= c * s) by (nonlinear_arith)
        requires 0 <= m <= c && 0 <= s;
    vstd::arithmetic::div_mod::lemma_div_is_ordered(m * s, c * s, c);
    vstd::arithmetic::div_mod::lemma_div_multiples_vanish(s, c);
    vstd::arithmetic::div_mod::lemma_div_pos_is_pos(m * s, c);
    assert(m * s >= 0) by (nonlinear_arith)
        requires 0 <= m && 0 <= s;
}

/// The score a word-level unigram-precision comparison gives, in
/// micro-units: the fraction of candidate words that appear in the
/// reference, scaled by `SCORE_SCALE`, with a linear brevity penalty
/// of `candidate words / reference words` applied when the candidate
/// is the shorter; zero when either side has no words.
pub open spec fn bleu_micro(cand: Seq<Seq<char>>, refw: Seq<Seq<char>>) -> int {
    if cand.len() == 0 || refw.len() == 0 {
        0
    } else {
        let precision = match_count(cand, refw) * SCORE_SCALE / cand.len() as int;
        if cand.len() < refw.len() {
            precision * cand.len() as int / refw.len() as int
        } else {
            precision
        }
    }
}

/// The unigram-precision score of a candidate text against a reference
/// text, over their whitespace words.
pub open spec fn bleu_spec(candidate: Seq<char>, reference: Seq<char>) -> int {
    bleu_micro(words_of(candidate), words_of(reference))
}

/// Whether `w` occurs in the word list `ws`.
fn word_in(ws: &Vec<String>, w: &str) -> (r: bool)
    ensures
        r == contains_word(ws.deep_view(), w@),
{
    let mut j: usize = 0;
    while j < ws.len()
        invariant
            j <= ws@.len(),
            ws.deep_view().len() == ws@.len(),
            forall|k: int| 0 <= k < j ==> ws.deep_view()[k] != w@,
        decreases ws@.len() - j,
    {
        if str_eq(ws[j].as_str(), w) {
            proof {
                assert(ws.deep_view()[j as int] == w@);
            }
            return true;
        }
        j = j + 1;
    }
    false
}

/// Word-level unigram precision with a linear brevity penalty, in
/// micro-units.
pub fn calculate_bleu(candidate: &str, reference: &str) -> (r: Score)
    ensures
        r == bleu_spec(candidate@, reference@),
{
    let cand = split_words(candidate);
    let refw = split_words(reference);
    let ghost cv = cand.deep_view();
    let ghost rv = refw.deep_view();
    if cand.len() == 0 || refw.len() == 0 {
        proof {
            assert(cv.len() == cand@.len() && rv.len() == refw@.len());
            assert(0 == bleu_spec(candidate@, reference@));
        }
        return 0;
    }
    let mut matches: usize = 0;
    let mut i: usize = 0;
    while i < cand.len()
        invariant
            i <= cv.len(),
            cand.deep_view() == cv,
            refw.deep_view() == rv,
            cand@.len() == cv.len(),
            matches == match_count(cv.take(i as int), rv),
            matches <= i,
        decreases cv.len() - i,
    {
        proof {
            assert(cv.take(i + 1).drop_last() =~= cv.take(i as int));
            assert(cv.take(i + 1).last() == cv[i as int]);
        }
        if word_in(&refw, cand[i].as_str()) {
            proof {
                assert(cand@[i as int]@ == cv[i as int]);
            }
            matches = matches + 1;
        }
        i = i + 1;
    }
    proof {
        assert(cv.take(cv.len() as int) =~= cv);
    }
    let clen = cand.len();
    let rlen = refw.len();
    let precision_wide: u128 = matches as u128 * SCORE_SCALE as u128 / clen as u128;
    proof {
        lemma_frac_le(matches as int, clen as int, SCORE_SCALE as int);
    }
    let precision: u64 = precision_wide as u64;
    if clen < rlen {
        proof {
            assert((precision as int) * (clen as int) < (u128::MAX as int)) by (nonlinear_arith)
                requires precision <= u64::MAX && clen <= usize::MAX;
        }
        let penalized: u128 = precision as u128 * clen as u128 / rlen as u128;
        proof {
            lemma_frac_le(clen as int, rlen as int, precision as int);
            assert((clen as int) * (precision as int) == (precision as int) * (clen as int))
                by (nonlinear_arith);
            assert(penalized as int == bleu_micro(cv, rv));
        }
        penalized as u64
    } else {
        proof {
            assert(precision as int == bleu_spec(candidate@, reference@));
        }
        precision
    }
}

/// The score a longest-common-subsequence comparison gives, in
/// micro-units: `2 * lcs * SCORE_SCALE / (candidate words + reference
/// words)` (the exact integer form of the F-measure
/// `2PR / (P + R)` with `P = lcs/c` and `R = lcs/r`); zero when either
/// side has no words.
pub open spec fn rouge_micro(cand: Seq<Seq<char>>, refw: Seq<Seq<char>>) -> int {
    if cand.len() == 0 || refw.len() == 0 {
        0
    } else {
        2 * lcs_len(cand, refw) * SCORE_SCALE / (cand.len() + refw.len()) as int
    }
}

/// The longest-common-subsequence score of a candidate text against a
/// reference text, over their whitespace words.
pub open spec fn rouge_spec(candidate: Seq<char>, reference: Seq<char>) -> int {
    rouge_micro(words_of(candidate), words_of(reference))
}

/// Longest-common-subsequence F-measure in micro-units.
pub fn calculate_rouge(candidate: &str, reference: &str) -> (r: Score)
    ensures
        r == rouge_spec(candidate@, reference@),
{
    let cand = split_words(candidate);
    let refw = split_words(reference);
    if cand.len() == 0 || refw.len() == 0 {
        return 0;
    }
    let common = lcs(&cand, &refw);
    let clen = cand.len();
    let rlen = refw.len();
    proof {
        lemma_lcs_le(cand.deep_view(), refw.deep_view());
    }
    let wide: u128 = 2u128 * common as u128 * SCORE_SCALE as u128 / (clen as u128 + rlen as u128);
    proof {
        lemma_frac_le(2 * common as int, (clen + rlen) as int, SCORE_SCALE as int);
        assert(2 * common as int * SCORE_SCALE as int
            == 2 * common as int * (SCORE_SCALE as int));
    }
    wide as u64
}

/// The score an exact-match comparison gives: `SCORE_SCALE` when the
/// two texts agree after trimming and lowercasing, zero otherwise.
pub open spec fn exact_match_spec(output: Seq<char>, expected: Seq<char>) -> int {
    if lower_of(trimmed_of(output)) == lower_of(trimmed_of(expected)) {
        SCORE_SCALE as int
    } else {
        0
    }
}

/// Case- and whitespace-insensitive exact match, in micro-units.
pub fn calculate_exact_match(output: &str, expected: &str) -> (r: Score)
    ensures
        r == exact_match_spec(output@, expected@),
{
    let out_clean = lowercase(trim_str(output));
    let exp_clean = lowercase(trim_str(expected));
    if out_clean == exp_clean {
        SCORE_SCALE
    } else {
        0
    }
}

/// The latency score of one output: its latency in milliseconds, in
/// micro-units, saturating at `u64::MAX`.
pub open spec fn latency_score_spec(latency_ms: u64) -> int {
    if latency_ms * SCORE_SCALE > u64::MAX {
        u64::MAX as int
    } else {
        latency_ms * SCORE_SCALE
    }
}

/// A latency in milliseconds as a saturating micro-unit score.
pub fn latency_score(latency_ms: u64) -> (r: Score)
    ensures
        r == latency_score_spec(latency_ms),
{
    proof {
        assert((latency_ms as int) * (SCORE_SCALE as int) < (u128::MAX as int)) by (nonlinear_arith)
            requires latency_ms <= u64::MAX;
    }
    let wide: u128 = latency_ms as u128 * SCORE_SCALE as u128;
    if wide > u64::MAX as u128 {
        u64::MAX
    } else {
        wide as u64
    }
}

/// Byte length of a string, as stored details report it.
pub open spec fn byte_len_of(s: Seq<char>) -> u64 {
    (vstd::utf8::encode_utf8(s).len() as usize) as u64
}

/// What the unigram-precision metric computes for one output: the
/// comparison against the prompt's expected text, or zero when the
/// prompt has none.
pub open spec fn bleu_calc_spec(o: ModelOutput, p: Prompt) -> int {
    match p.expected_output {
        Some(e) => bleu_spec(o.output@, e@),
        None => 0,
    }
}

/// What the subsequence metric computes for one output.
pub open spec fn rouge_calc_spec(o: ModelOutput, p: Prompt) -> int {
    match p.expected_output {
        Some(e) => rouge_spec(o.output@, e@),
        None => 0,
    }
}

/// What the exact-match metric computes for one output.
pub open spec fn exact_calc_spec(o: ModelOutput, p: Prompt) -> int {
    match p.expected_output {
        Some(e) => exact_match_spec(o.output@, e@),
        None => 0,
    }
}

/// What the cost metric computes for one output: its recorded cost in
/// micro-USD, zero when none was recorded.
pub open spec fn cost_calc_spec(o: ModelOutput) -> int {
    match o.metadata.cost_micro_usd {
        Some(c) => c as int,
        None => 0,
    }
}

/// Scores a whole prompt set by word overlap against expected outputs.
#[derive(Default)]
pub struct BleuMetric;

impl BleuMetric {
    pub fn name(&self) -> (r: &str)
        ensures
            r@ == "bleu"@,
    {
        "bleu"
    }

    pub fn calculate(&self, output: &ModelOutput, prompt: &Prompt) -> (r: Result<Score, String>)
        ensures
            r is Ok,
            r matches Ok(s) ==> s == bleu_calc_spec(*output, *prompt),
    {
        match &prompt.expected_output {
            Some(e) => Ok(calculate_bleu(output.output.as_str(), e.as_str())),
            None => Ok(0),
        }
    }

    pub fn aggregate(&self, scores: &Vec<Score>) -> (r: Score)
        ensures
            r == mean_spec(scores@),
    {
        mean_score(scores)
    }

    pub fn details(&self, output: &ModelOutput, prompt: &Prompt) -> (r: Vec<(String, MetaValue)>)
        ensures
            pair_views(r@) == bleu_details_spec(*output, *prompt),
    {
        let mut r: Vec<(String, MetaValue)> = Vec::new();
        r.push(("output_length".to_owned(), MetaValue::Int(output.output.as_str().len() as u64)));
        match &prompt.expected_output {
            Some(e) => {
                r.push(("reference_length".to_owned(), MetaValue::Int(e.as_str().len() as u64)));
            },
            None => {},
        }
        proof {
            assert(pair_views(r@) =~= bleu_details_spec(*output, *prompt));
        }
        r
    }
}

/// The key/value views of a details list.
pub open spec fn pair_views(s: Seq<(String, MetaValue)>) -> Seq<(Seq<char>, MetaValue)> {
    s.map_values(|d: (String, MetaValue)| (d.0@, d.1))
}

/// The diagnostic details the unigram-precision metric reports.
pub open spec fn bleu_details_spec(o: ModelOutput, p: Prompt) -> Seq<(Seq<char>, MetaValue)> {
    let base = seq![("output_length"@, MetaValue::Int(byte_len_of(o.output@)))];
    match p.expected_output {
        Some(e) => base.push(("reference_length"@, MetaValue::Int(byte_len_of(e@)))),
        None => base,
    }
}

/// Scores a whole prompt set by longest common subsequence against
/// expected outputs.
#[derive(Default)]
pub struct RougeMetric;

/// The diagnostic details the subsequence metric reports.
pub open spec fn rouge_details_spec(o: ModelOutput) -> Seq<(Seq<char>, MetaValue)> {
    seq![("word_count"@, MetaValue::Int(words_of(o.output@).len() as u64))]
}

impl RougeMetric {
    pub fn name(&self) -> (r: &str)
        ensures
            r@ == "rouge"@,
    {
        "rouge"
    }

    pub fn calculate(&self, output: &ModelOutput, prompt: &Prompt) -> (r: Result<Score, String>)
        ensures
            r is Ok,
            r matches Ok(s) ==> s == rouge_calc_spec(*output, *prompt),
    {
        match &prompt.expected_output {
            Some(e) => Ok(calculate_rouge(output.output.as_str(), e.as_str())),
            None => Ok(0),
        }
    }

    pub fn aggregate(&self, scores: &Vec<Score>) -> (r: Score)
        ensures
            r == mean_spec(scores@),
    {
        mean_score(scores)
    }

    pub fn details(&self, output: &ModelOutput, _prompt: &Prompt) -> (r: Vec<(String, MetaValue)>)
        ensures
            pair_views(r@) == rouge_details_spec(*output),
    {
        let words = split_words(output.output.as_str());
        let mut r: Vec<(String, MetaValue)> = Vec::new();
        r.push(("word_count".to_owned(), MetaValue::Int(words.len() as u64)));
        proof {
            assert(pair_views(r@) =~= rouge_details_spec(*output));
        }
        r
    }
}

/// Scores a whole prompt set by case- and whitespace-insensitive
/// equality with expected outputs.
#[derive(Default)]
pub struct ExactMatchMetric;

/// The diagnostic details the exact-match metric reports: whether the
/// trimmed texts agree, when the prompt has an expected output.
pub open spec fn exact_details_spec(o: ModelOutput, p: Prompt) -> Seq<(Seq<char>, MetaValue)> {
    match p.expected_output {
        Some(e) => seq![
            ("exact_match"@, MetaValue::Flag(trimmed_of(o.output@) == trimmed_of(e@))),
        ],
        None => Seq::empty(),
    }
}

impl ExactMatchMetric {
    pub fn name(&self) -> (r: &str)
        ensures
            r@ == "exact_match"@,
    {
        "exact_match"
    }

    pub fn calculate(&self, output: &ModelOutput, prompt: &Prompt) -> (r: Result<Score, String>)
        ensures
            r is Ok,
            r matches Ok(s) ==> s == exact_calc_spec(*output, *prompt),
    {
        match &prompt.expected_output {
            Some(e) => Ok(calculate_exact_match(output.output.as_str(), e.as_str())),
            None => Ok(0),
        }
    }

    pub fn aggregate(&self, scores: &Vec<Score>) -> (r: Score)
        ensures
            r == mean_spec(scores@),
    {
        mean_score(scores)
    }

    pub fn details(&self, output: &ModelOutput, prompt: &Prompt) -> (r: Vec<(String, MetaValue)>)
        ensures
            pair_views(r@) == exact_details_spec(*output, *prompt),
    {
        let mut r: Vec<(String, MetaValue)> = Vec::new();
        match &prompt.expected_output {
            Some(e) => {
                let same = str_eq(trim_str(output.output.as_str()), trim_str(e.as_str()));
                r.push(("exact_match".to_owned(), MetaValue::Flag(same)));
            },
            None => {},
        }
        proof {
            assert(pair_views(r@) =~= exact_details_spec(*output, *prompt));
        }
        r
    }
}

/// Scores a whole prompt set by response latency.
#[derive(Default)]
pub struct LatencyMetric;

/// The diagnostic details the latency metric reports.
pub open spec fn latency_details_spec(o: ModelOutput) -> Seq<(Seq<char>, MetaValue)> {
    seq![("latency_ms"@, MetaValue::Int(o.metadata.latency_ms))]
}

impl LatencyMetric {
    pub fn name(&self) -> (r: &str)
        ensures
            r@ == "latency"@,
    {
        "latency"
    }

    pub fn calculate(&self, output: &ModelOutput, _prompt: &Prompt) -> (r: Result<Score, String>)
        ensures
            r is Ok,
            r matches Ok(s) ==> s == latency_score_spec(output.metadata.latency_ms),
    {
        Ok(latency_score(output.metadata.latency_ms))
    }

    pub fn aggregate(&self, scores: &Vec<Score>) -> (r: Score)
        ensures
            r == mean_spec(scores@),
    {
        mean_score(scores)
    }

    pub fn details(&self, output: &ModelOutput, _prompt: &Prompt) -> (r: Vec<(String, MetaValue)>)
        ensures
            pair_views(r@) == latency_details_spec(*output),
    {
        let mut r: Vec<(String, MetaValue)> = Vec::new();
        r.push(("latency_ms".to_owned(), MetaValue::Int(output.metadata.latency_ms)));
        proof {
            assert(pair_views(r@) =~= latency_details_spec(*output));
        }
        r
    }
}

/// Scores a whole prompt set by recorded cost; aggregates by sum, not
/// mean, so the aggregate is the total cost.
#[derive(Default)]
pub struct CostMetric;

/// The diagnostic details the cost metric reports.
pub open spec fn cost_details_spec(o: ModelOutput) -> Seq<(Seq<char>, MetaValue)> {
    let base = seq![
        ("cost_micro_usd"@, MetaValue::Int(match o.metadata.cost_micro_usd {
            Some(c) => c,
            None => 0u64,
        })),
    ];
    match o.metadata.token_count {
        Some(t) => base.push(("tokens"@, MetaValue::Int(t as u64))),
        None => base,
    }
}

impl CostMetric {
    pub fn name(&self) -> (r: &str)
        ensures
            r@ == "cost"@,
    {
        "cost"
    }

    pub fn calculate(&self, output: &ModelOutput, _prompt: &Prompt) -> (r: Result<Score, String>)
        ensures
            r is Ok,
            r matches Ok(s) ==> s == cost_calc_spec(*output),
    {
        match output.metadata.cost_micro_usd {
            Some(c) => Ok(c),
            None => Ok(0),
        }
    }

    pub fn aggregate(&self, scores: &Vec<Score>) -> (r: Score)
        ensures
            r == sum_sat_spec(scores@),
    {
        crate::sum_saturating(scores)
    }

    pub fn details(&self, output: &ModelOutput, _prompt: &Prompt) -> (r: Vec<(String, MetaValue)>)
        ensures
            pair_views(r@) == cost_details_spec(*output),
    {
        let mut r: Vec<(String, MetaValue)> = Vec::new();
        let cost = match output.metadata.cost_micro_usd {
            Some(c) => c,
            None => 0,
        };
        r.push(("cost_micro_usd".to_owned(), MetaValue::Int(cost)));
        match output.metadata.token_count {
            Some(t) => {
                r.push(("tokens".to_owned(), MetaValue::Int(t as u64)));
            },
            None => {},
        }
        proof {
            assert(pair_views(r@) =~= cost_details_spec(*output));
        }
        r
    }
}

/// The metric names this library computes itself.
pub open spec fn is_builtin(name: Seq<char>) -> bool {
    ||| name == "bleu"@
    ||| name == "rouge"@
    ||| name == "exact_match"@
    ||| name == "latency"@
    ||| name == "cost"@
}

/// What one builtin metric computes for one (output, prompt) pair;
/// zero for a name this library does not know.
pub open spec fn builtin_score(name: Seq<char>, o: ModelOutput, p: Prompt) -> int {
    if name == "bleu"@ {
        bleu_calc_spec(o, p)
    } else if name == "rouge"@ {
        rouge_calc_spec(o, p)
    } else if name == "exact_match"@ {
        exact_calc_spec(o, p)
    } else if name == "latency"@ {
        latency_score_spec(o.metadata.latency_ms)
    } else if name == "cost"@ {
        cost_calc_spec(o)
    } else {
        0
    }
}

/// What one builtin metric reports as diagnostic details.
pub open spec fn builtin_details(name: Seq<char>, o: ModelOutput, p: Prompt)
    -> Seq<(Seq<char>, MetaValue)>
{
    if name == "bleu"@ {
        bleu_details_spec(o, p)
    } else if name == "rouge"@ {
        rouge_details_spec(o)
    } else if name == "exact_match"@ {
        exact_details_spec(o, p)
    } else if name == "latency"@ {
        latency_details_spec(o)
    } else if name == "cost"@ {
        cost_details_spec(o)
    } else {
        Seq::empty()
    }
}

/// How one builtin metric aggregates its per-prompt scores: the cost
/// metric sums (a total), every other metric takes the mean.
pub open spec fn builtin_aggregate(name: Seq<char>, scores: Seq<Score>) -> int {
    if name == "cost"@ {
        sum_sat_spec(scores)
    } else {
        mean_spec(scores) as int
    }
}

/// What one builtin metric computes for one pair, as a score value.
fn builtin_calculate(name: &str, o: &ModelOutput, p: &Prompt) -> (r: Score)
    ensures
        r == builtin_score(name@, *o, *p),
{
    if str_eq(name, "bleu") {
        match BleuMetric.calculate(o, p) {
            Ok(s) => s,
            Err(_) => 0,
        }
    } else if str_eq(name, "rouge") {
        match RougeMetric.calculate(o, p) {
            Ok(s) => s,
            Err(_) => 0,
        }
    } else if str_eq(name, "exact_match") {
        match ExactMatchMetric.calculate(o, p) {
            Ok(s) => s,
            Err(_) => 0,
        }
    } else if str_eq(name, "latency") {
        match LatencyMetric.calculate(o, p) {
            Ok(s) => s,
            Err(_) => 0,
        }
    } else if str_eq(name, "cost") {
        match CostMetric.calculate(o, p) {
            Ok(s) => s,
            Err(_) => 0,
        }
    } else {
        0
    }
}

/// The details one builtin metric reports for one pair.
fn builtin_details_exec(name: &str, o: &ModelOutput, p: &Prompt) -> (r: Vec<(String, MetaValue)>)
    ensures
        pair_views(r@) == builtin_details(name@, *o, *p),
{
    let r = if str_eq(name, "bleu") {
        BleuMetric.details(o, p)
    } else if str_eq(name, "rouge") {
        RougeMetric.details(o, p)
    } else if str_eq(name, "exact_match") {
        ExactMatchMetric.details(o, p)
    } else if str_eq(name, "latency") {
        LatencyMetric.details(o, p)
    } else if str_eq(name, "cost") {
        CostMetric.details(o, p)
    } else {
        Vec::new()
    };
    proof {
        if !is_builtin(name@) {
            assert(pair_views(r@) =~= builtin_details(name@, *o, *p));
        }
    }
    r
}

/// The aggregate one builtin metric forms over its per-prompt scores.
fn builtin_aggregate_exec(name: &str, scores: &Vec<Score>) -> (r: Score)
    ensures
        r == builtin_aggregate(name@, scores@),
{
    if str_eq(name, "cost") {
        CostMetric.aggregate(scores)
    } else {
        mean_score(scores)
    }
}

/// The first prompt whose id is `id`, if any.
pub open spec fn find_prompt(prompts: Seq<Prompt>, id: Seq<char>) -> Option<Prompt>
    decreases prompts.len(),
{
    if prompts.len() == 0 {
        None
    } else if prompts[0].id@ == id {
        Some(prompts[0])
    } else {
        find_prompt(prompts.drop_first(), id)
    }
}

proof fn lemma_find_prompt_skip(prompts: Seq<Prompt>, id: Seq<char>, j: int)
    requires
        0 <= j <= prompts.len(),
        forall|k: int| 0 <= k < j ==> prompts[k].id@ != id,
    ensures
        find_prompt(prompts, id) == find_prompt(prompts.skip(j), id),
    decreases j,
{
    if j > 0 {
        lemma_find_prompt_skip(prompts, id, j - 1);
        let s = prompts.skip(j - 1);
        assert(s[0] == prompts[j - 1]);
        assert(s.drop_first() =~= prompts.skip(j));
    } else {
        assert(prompts.skip(0) =~= prompts);
    }
}

/// Index of the first prompt whose id is `id`.
fn find_prompt_idx(prompts: &Vec<Prompt>, id: &str) -> (r: Option<usize>)
    ensures
        match r {
            Some(j) => {
                &&& j < prompts@.len()
                &&& prompts@[j as int].id@ == id@
                &&& find_prompt(prompts@, id@) == Some(prompts@[j as int])
            },
            None => find_prompt(prompts@, id@) is None,
        },
{
    let mut j: usize = 0;
    while j < prompts.len()
        invariant
            j <= prompts@.len(),
            forall|k: int| 0 <= k < j ==> prompts@[k].id@ != id@,
        decreases prompts@.len() - j,
    {
        if str_eq(prompts[j].id.as_str(), id) {
            proof {
                lemma_find_prompt_skip(prompts@, id@, j as int);
                assert(prompts@.skip(j as int)[0] == prompts@[j as int]);
            }
            return Some(j);
        }
        j = j + 1;
    }
    proof {
        lemma_find_prompt_skip(prompts@, id@, prompts@.len() as int);
        assert(prompts@.skip(prompts@.len() as int).len() == 0);
    }
    None
}

/// The (prompt id, score) pairs one metric produces over a list of
/// outputs: one per output whose prompt is found, in output order.
pub open spec fn pp_pairs(name: Seq<char>, outputs: Seq<ModelOutput>, prompts: Seq<Prompt>)
    -> Seq<(Seq<char>, Score)>
    decreases outputs.len(),
{
    if outputs.len() == 0 {
        Seq::empty()
    } else {
        let rest = pp_pairs(name, outputs.drop_last(), prompts);
        match find_prompt(prompts, outputs.last().prompt_id@) {
            Some(p) => rest.push(
                (outputs.last().prompt_id@, builtin_score(name, outputs.last(), p) as Score),
            ),
            None => rest,
        }
    }
}

/// The scores one metric produces over a list of outputs, in order.
pub open spec fn scores_of(name: Seq<char>, outputs: Seq<ModelOutput>, prompts: Seq<Prompt>)
    -> Seq<Score>
    decreases outputs.len(),
{
    if outputs.len() == 0 {
        Seq::empty()
    } else {
        let rest = scores_of(name, outputs.drop_last(), prompts);
        match find_prompt(prompts, outputs.last().prompt_id@) {
            Some(p) => rest.push(builtin_score(name, outputs.last(), p) as Score),
            None => rest,
        }
    }
}

/// The details one metric reports for a result: those of the first
/// output, when there is one and its prompt is found.
pub open spec fn details_of(name: Seq<char>, outputs: Seq<ModelOutput>, prompts: Seq<Prompt>)
    -> Seq<(Seq<char>, MetaValue)>
{
    if outputs.len() == 0 {
        Seq::empty()
    } else {
        match find_prompt(prompts, outputs[0].prompt_id@) {
            Some(p) => builtin_details(name, outputs[0], p),
            None => Seq::empty(),
        }
    }
}

/// The id/score views of a per-prompt score list.
pub open spec fn score_pair_views(s: Seq<(String, Score)>) -> Seq<(Seq<char>, Score)> {
    s.map_values(|pr: (String, Score)| (pr.0@, pr.1))
}

/// Whether one result entry is exactly what the named builtin metric
/// computes over the given outputs and prompts.
pub open spec fn entry_matches(
    e: MetricResult,
    name: Seq<char>,
    outputs: Seq<ModelOutput>,
    prompts: Seq<Prompt>,
) -> bool {
    &&& e.metric_name@ == name
    &&& e.score == builtin_aggregate(name, scores_of(name, outputs, prompts))
    &&& score_pair_views(e.per_prompt_scores@) == pp_pairs(name, outputs, prompts)
    &&& pair_views(e.details@) == details_of(name, outputs, prompts)
}

/// The names of the configured metrics that are both registered and
/// builtin, in configuration order.
pub open spec fn supported_names(reg: Seq<Seq<char>>, configs: Seq<MetricConfig>)
    -> Seq<Seq<char>>
    decreases configs.len(),
{
    if configs.len() == 0 {
        Seq::empty()
    } else {
        let rest = supported_names(reg, configs.drop_last());
        if reg.contains(configs.last().name@) && is_builtin(configs.last().name@) {
            rest.push(configs.last().name@)
        } else {
            rest
        }
    }
}

/// Holds the set of metric names the engine will compute. The five
/// builtin metrics are registered from the start; a registered name
/// this library has no implementation of is skipped at computation.
pub struct MetricRegistry {
    pub metrics: Vec<String>,
}

impl MetricRegistry {
    /// A registry with the five builtin metrics registered.
    pub fn new() -> (r: Self)
        ensures
            r.metrics.deep_view() =~= seq!["bleu"@, "rouge"@, "exact_match"@, "latency"@, "cost"@],
    {
        let mut metrics: Vec<String> = Vec::new();
        metrics.push("bleu".to_owned());
        metrics.push("rouge".to_owned());
        metrics.push("exact_match".to_owned());
        metrics.push("latency".to_owned());
        metrics.push("cost".to_owned());
        MetricRegistry { metrics }
    }

    /// Registers a metric name; a name already present is kept once.
    /// This engine has no pluggable scorers: a registered name that is
    /// not one of the five builtin metrics is recorded here but never
    /// computed, and `calculate_all` skips it.
    pub fn register(&mut self, name: String)
        ensures
            final(self).metrics.deep_view() == if old(self).metrics.deep_view().contains(name@) {
                old(self).metrics.deep_view()
            } else {
                old(self).metrics.deep_view().push(name@)
            },
    {
        match self.get(name.as_str()) {
            Some(_) => {},
            None => {
                self.metrics.push(name);
                proof {
                    assert(self.metrics.deep_view()
                        =~= old(self).metrics.deep_view().push(self.metrics@.last()@));
                }
            },
        }
    }

    /// The index of a registered metric name, if present.
    pub fn get(&self, name: &str) -> (r: Option<usize>)
        ensures
            r is Some <==> self.metrics.deep_view().contains(name@),
            r matches Some(j) ==> j < self.metrics@.len() && self.metrics@[j as int]@ == name@,
    {
        let mut j: usize = 0;
        while j < self.metrics.len()
            invariant
                j <= self.metrics@.len(),
                forall|k: int| 0 <= k < j ==> self.metrics.deep_view()[k] != name@,
            decreases self.metrics@.len() - j,
        {
            if str_eq(self.metrics[j].as_str(), name) {
                proof {
                    assert(self.metrics.deep_view()[j as int] == name@);
                }
                return Some(j);
            }
            j = j + 1;
        }
        proof {
            if self.metrics.deep_view().contains(name@) {
                let w = choose|k: int|
                    0 <= k < self.metrics.deep_view().len()
                        && self.metrics.deep_view()[k] == name@;
                assert(self.metrics.deep_view()[w] != name@);
            }
        }
        None
    }

    /// Computes every configured, registered, builtin metric over the
    /// outputs: per-prompt scores for each output whose prompt id is
    /// found, the metric's aggregate over them, and the diagnostic
    /// details of the first output.
    pub fn calculate_all(
        &self,
        outputs: &Vec<ModelOutput>,
        prompts: &Vec<Prompt>,
        metric_configs: &Vec<MetricConfig>,
    ) -> (r: Vec<MetricResult>)
        ensures
            r@.len() == supported_names(self.metrics.deep_view(), metric_configs@).len(),
            forall|i: int| 0 <= i < r@.len() ==> entry_matches(
                r@[i],
                supported_names(self.metrics.deep_view(), metric_configs@)[i],
                outputs@,
                prompts@,
            ),
    {
        let ghost reg = self.metrics.deep_view();
        let mut r: Vec<MetricResult> = Vec::new();
        let mut c: usize = 0;
        while c < metric_configs.len()
            invariant
                c <= metric_configs@.len(),
                reg == self.metrics.deep_view(),
                r@.len() == supported_names(reg, metric_configs@.take(c as int)).len(),
                forall|i: int| 0 <= i < r@.len() ==> entry_matches(
                    r@[i],
                    supported_names(reg, metric_configs@.take(c as int))[i],
                    outputs@,
                    prompts@,
                ),
            decreases metric_configs@.len() - c,
        {
            proof {
                assert(metric_configs@.take(c + 1).drop_last() =~= metric_configs@.take(c as int));
                assert(metric_configs@.take(c + 1).last() == metric_configs@[c as int]);
            }
            let name = &metric_configs[c].name;
            let registered = match self.get(name.as_str()) {
                Some(_) => true,
                None => false,
            };
            let builtin = str_eq(name.as_str(), "bleu") || str_eq(name.as_str(), "rouge")
                || str_eq(name.as_str(), "exact_match") || str_eq(name.as_str(), "latency")
                || str_eq(name.as_str(), "cost");
            if registered && builtin {
                let entry = self.metric_entry(name, outputs, prompts);
                r.push(entry);
            }
            c = c + 1;
        }
        proof {
            assert(metric_configs@.take(metric_configs@.len() as int) =~= metric_configs@);
        }
        r
    }

    /// One metric's result entry over the outputs.
    fn metric_entry(
        &self,
        name: &String,
        outputs: &Vec<ModelOutput>,
        prompts: &Vec<Prompt>,
    ) -> (e: MetricResult)
        ensures
            entry_matches(e, name@, outputs@, prompts@),
    {
        let mut per_prompt_scores: Vec<(String, Score)> = Vec::new();
        let mut all_scores: Vec<Score> = Vec::new();
        let mut i: usize = 0;
        while i < outputs.len()
            invariant
                i <= outputs@.len(),
                score_pair_views(per_prompt_scores@)
                    == pp_pairs(name@, outputs@.take(i as int), prompts@),
                all_scores@ == scores_of(name@, outputs@.take(i as int), prompts@),
            decreases outputs@.len() - i,
        {
            proof {
                assert(outputs@.take(i + 1).drop_last() =~= outputs@.take(i as int));
                assert(outputs@.take(i + 1).last() == outputs@[i as int]);
            }
            let out = &outputs[i];
            match find_prompt_idx(prompts, out.prompt_id.as_str()) {
                Some(j) => {
                    let score = builtin_calculate(name.as_str(), out, &prompts[j]);
                    per_prompt_scores.push((out.prompt_id.clone(), score));
                    all_scores.push(score);
                    proof {
                        assert(score_pair_views(per_prompt_scores@)
                            =~= pp_pairs(name@, outputs@.take(i + 1), prompts@));
                    }
                },
                None => {},
            }
            i = i + 1;
        }
        proof {
            assert(outputs@.take(outputs@.len() as int) =~= outputs@);
        }
        let score = builtin_aggregate_exec(name.as_str(), &all_scores);
        let details = if outputs.len() > 0 {
            let first = &outputs[0];
            match find_prompt_idx(prompts, first.prompt_id.as_str()) {
                Some(j) => builtin_details_exec(name.as_str(), first, &prompts[j]),
                None => Vec::new(),
            }
        } else {
            Vec::new()
        };
        proof {
            assert(pair_views(details@) =~= details_of(name@, outputs@, prompts@));
        }
        MetricResult {
            metric_name: name.clone(),
            score,
            details,
            per_prompt_scores,
        }
    }
}


} // verus!
