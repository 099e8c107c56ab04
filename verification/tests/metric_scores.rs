use eaas::metrics::{
    calculate_bleu, calculate_exact_match, calculate_rouge, latency_score, lcs, BleuMetric,
    CostMetric, ExactMatchMetric, LatencyMetric, MetricRegistry, RougeMetric,
};
use eaas::models::{
    cohere_calculate_cost, cohere_supports_model, groq_calculate_cost, groq_supports_model,
    openrouter_calculate_cost, openrouter_supports_model, together_calculate_cost,
    together_supports_model,
};
use eaas::types::{MetricConfig, MetricType, ModelOutput, OutputMetadata, Prompt};
use eaas::{mean_score, sum_saturating, SCORE_SCALE};

fn words(items: &[&str]) -> Vec<String> {
    items.iter().map(|s| s.to_string()).collect()
}

fn prompt_with(expected: Option<&str>) -> Prompt {
    Prompt {
        id: "p".to_string(),
        text: "question".to_string(),
        expected_output: expected.map(|e| e.to_string()),
        category: None,
        metadata: vec![],
    }
}

fn output_with(text: &str, latency_ms: u64, cost: Option<u64>) -> ModelOutput {
    ModelOutput {
        prompt_id: "p".to_string(),
        output: text.to_string(),
        metadata: OutputMetadata {
            latency_ms,
            token_count: Some(9),
            cost_micro_usd: cost,
            timestamp_ms: 0,
            provider_metadata: vec![],
        },
    }
}

#[test]
fn lcs_counts_common_subsequence() {
    assert_eq!(lcs(&words(&["a", "b", "c"]), &words(&["b", "c", "d"])), 2);
    assert_eq!(lcs(&words(&["a", "b"]), &words(&["c", "d"])), 0);
    assert_eq!(lcs(&words(&[]), &words(&["a"])), 0);
    assert_eq!(lcs(&words(&["x", "y", "z"]), &words(&["x", "y", "z"])), 3);
}

#[test]
fn bleu_unigram_precision() {
    // two of three candidate words appear in the reference; equal
    // lengths, so no brevity penalty
    assert_eq!(calculate_bleu("the cat sat", "the cat ran"), 666_666);
    // identical texts score one
    assert_eq!(calculate_bleu("same words", "same words"), SCORE_SCALE);
    // empty candidate scores zero
    assert_eq!(calculate_bleu("", "reference"), 0);
    // a split that kept the text whole would find no match here
    assert_eq!(calculate_bleu("a a", "a"), SCORE_SCALE);
}

#[test]
fn bleu_applies_brevity_penalty() {
    // full precision over two words, penalized by 2/3 against a
    // three-word reference
    assert_eq!(calculate_bleu("the cat", "the cat sat"), 666_666);
}

#[test]
fn rouge_subsequence_measure() {
    // lcs 2 over lengths 3 + 3: 2*2/6
    assert_eq!(calculate_rouge("a b c", "a b d"), 666_666);
    assert_eq!(calculate_rouge("a b", "a b"), SCORE_SCALE);
    assert_eq!(calculate_rouge("", "a"), 0);
}

#[test]
fn exact_match_ignores_case_and_edges() {
    assert_eq!(calculate_exact_match("  Hello  ", "hello"), SCORE_SCALE);
    assert_eq!(calculate_exact_match("a", "b"), 0);
}

#[test]
fn latency_scores_scale_milliseconds() {
    assert_eq!(latency_score(100), 100_000_000);
    assert_eq!(latency_score(0), 0);
}

#[test]
fn metric_objects_report_names_and_scores() {
    let p = prompt_with(Some("hi"));
    let o = output_with("hi", 100, Some(250));
    assert_eq!(BleuMetric.name(), "bleu");
    assert_eq!(RougeMetric.name(), "rouge");
    assert_eq!(ExactMatchMetric.name(), "exact_match");
    assert_eq!(LatencyMetric.name(), "latency");
    assert_eq!(CostMetric.name(), "cost");
    assert_eq!(ExactMatchMetric.calculate(&o, &p).unwrap(), SCORE_SCALE);
    assert_eq!(LatencyMetric.calculate(&o, &p).unwrap(), 100_000_000);
    assert_eq!(CostMetric.calculate(&o, &p).unwrap(), 250);
    // without an expected output the text metrics score zero
    let bare = prompt_with(None);
    assert_eq!(BleuMetric.calculate(&o, &bare).unwrap(), 0);
    assert_eq!(RougeMetric.calculate(&o, &bare).unwrap(), 0);
}

#[test]
fn cost_aggregates_by_sum_others_by_mean() {
    let scores = vec![100u64, 200, 300];
    assert_eq!(CostMetric.aggregate(&scores), 600);
    assert_eq!(BleuMetric.aggregate(&scores), 200);
    assert_eq!(mean_score(&vec![]), 0);
    assert_eq!(sum_saturating(&vec![u64::MAX, 1]), u64::MAX);
}

#[test]
fn registry_computes_configured_metrics() {
    let registry = MetricRegistry::new();
    let prompts = vec![Prompt {
        id: "p".to_string(),
        text: "question".to_string(),
        expected_output: Some("hi".to_string()),
        category: None,
        metadata: vec![],
    }];
    let outputs = vec![output_with("hi", 40, Some(5)), output_with("no", 60, Some(7))];
    let configs = vec![
        MetricConfig {
            name: "exact_match".to_string(),
            metric_type: MetricType::ExactMatch,
            parameters: vec![],
            weight_micro: None,
        },
        MetricConfig {
            name: "unknown_metric".to_string(),
            metric_type: MetricType::Custom("unknown_metric".to_string()),
            parameters: vec![],
            weight_micro: None,
        },
        MetricConfig {
            name: "cost".to_string(),
            metric_type: MetricType::Cost,
            parameters: vec![],
            weight_micro: None,
        },
    ];
    let results = registry.calculate_all(&outputs, &prompts, &configs);
    // the unregistered name is skipped
    assert_eq!(results.len(), 2);
    assert_eq!(results[0].metric_name, "exact_match");
    // one hit and one miss average to one half
    assert_eq!(results[0].score, 500_000);
    assert_eq!(results[0].per_prompt_scores.len(), 2);
    assert_eq!(results[1].metric_name, "cost");
    assert_eq!(results[1].score, 12);
}

#[test]
fn registry_registers_new_names_once() {
    let mut registry = MetricRegistry::new();
    assert_eq!(registry.metrics.len(), 5);
    assert!(registry.get("bleu").is_some());
    assert!(registry.get("made_up").is_none());
    registry.register("made_up".to_string());
    registry.register("made_up".to_string());
    assert_eq!(registry.metrics.len(), 6);
    assert!(registry.get("made_up").is_some());
}

#[test]
fn provider_tables_match_published_models() {
    assert!(together_supports_model("meta-llama/Llama-2-70b-chat-hf"));
    assert!(!together_supports_model("gpt-4"));
    assert!(groq_supports_model("llama3-8b-8192"));
    assert!(cohere_supports_model("command-r-plus"));
    assert!(openrouter_supports_model("google/gemma-2-9b-it:free"));
    // 1000 tokens at 900 micro-USD per thousand
    assert_eq!(together_calculate_cost(1000, "meta-llama/Llama-2-70b-chat-hf"), 900);
    assert_eq!(together_calculate_cost(500, "unlisted-model"), 250);
    assert_eq!(groq_calculate_cost(12345, "llama3-8b-8192"), 0);
    assert_eq!(cohere_calculate_cost(2000, "command-r-plus"), 6000);
    assert_eq!(openrouter_calculate_cost(9999, "google/gemma-2-9b-it:free"), 0);
    assert_eq!(openrouter_calculate_cost(3000, "some/paid-model"), 3000);
}
