use eaas::storage::ResultVerifier;
use eaas::types::{
    EvaluationResults, MetricResult, ModelOutput, ModelResults, OutputMetadata,
    PerformanceMetrics, ResultSummary,
};

fn empty_summary() -> ResultSummary {
    ResultSummary {
        total_prompts: 0,
        successful_completions: 0,
        failed_completions: 0,
        best_performing_model: None,
        worst_performing_model: None,
        average_scores: vec![],
        ranking: vec![],
    }
}

fn output(prompt_id: &str, text: &str, latency_ms: u64) -> ModelOutput {
    ModelOutput {
        prompt_id: prompt_id.to_string(),
        output: text.to_string(),
        metadata: OutputMetadata {
            latency_ms,
            token_count: Some(7),
            cost_micro_usd: Some(3),
            timestamp_ms: 1_700_000_000_000,
            provider_metadata: vec![],
        },
    }
}

fn perf() -> PerformanceMetrics {
    PerformanceMetrics {
        total_latency_ms: 0,
        average_latency_ms: 0,
        total_tokens: 0,
        total_cost_micro_usd: 0,
        success_rate_micro: 0,
        throughput_micro_per_s: 0,
    }
}

fn model(id: &str) -> ModelResults {
    ModelResults {
        model_id: id.to_string(),
        outputs: vec![output("p1", "alpha", 10), output("p2", "beta", 20)],
        metrics: vec![MetricResult {
            metric_name: "bleu".to_string(),
            score: 500_000,
            details: vec![],
            per_prompt_scores: vec![],
        }],
        performance: perf(),
        errors: vec![],
    }
}

fn sample_results() -> EvaluationResults {
    EvaluationResults {
        job_id: "job-123".to_string(),
        completed_at_ms: 1_700_000_000_000,
        model_results: vec![model("m-a"), model("m-b")],
        aggregate_scores: vec![("bleu".to_string(), 500_000)],
        summary: empty_summary(),
        verification_hash: String::new(),
    }
}

#[test]
fn test_result_verification() {
    let mut results = EvaluationResults {
        job_id: uuid::Uuid::new_v4().to_string(),
        completed_at_ms: chrono::Utc::now().timestamp_millis(),
        model_results: vec![],
        aggregate_scores: vec![],
        summary: empty_summary(),
        verification_hash: String::new(),
    };

    // Calculate and set hash
    results.verification_hash = ResultVerifier::calculate_hash(&results);

    // Verify results
    assert!(ResultVerifier::verify_results(&results));

    // Cross-model averages are not covered by the digest: changing
    // them goes undetected
    results.aggregate_scores.push(("test".to_string(), 1_000_000));
    assert!(ResultVerifier::verify_results(&results));

    // The completion time is covered: changing it is detected
    results.completed_at_ms += 1;
    assert!(!ResultVerifier::verify_results(&results));
}

#[test]
fn verify_true_after_stamp() {
    let mut r = sample_results();
    r.verification_hash = ResultVerifier::calculate_hash(&r);
    assert!(ResultVerifier::verify_results(&r));
    // base64 of a 32-byte digest is 44 characters
    assert_eq!(r.verification_hash.len(), 44);
}

#[test]
fn digest_detects_output_text_change() {
    let mut r = sample_results();
    r.verification_hash = ResultVerifier::calculate_hash(&r);
    r.model_results[0].outputs[0].output = "tampered".to_string();
    assert!(!ResultVerifier::verify_results(&r));
}

#[test]
fn digest_detects_score_change() {
    let mut r = sample_results();
    r.verification_hash = ResultVerifier::calculate_hash(&r);
    r.model_results[1].metrics[0].score = 123;
    assert!(!ResultVerifier::verify_results(&r));
}

#[test]
fn digest_ignores_performance_and_errors() {
    let mut r = sample_results();
    r.verification_hash = ResultVerifier::calculate_hash(&r);
    r.model_results[0].performance.total_latency_ms = 99_999;
    r.model_results[0].errors.push(eaas::types::EvaluationError {
        error_type: eaas::types::ErrorType::UnknownError,
        message: "late failure".to_string(),
        prompt_id: None,
        timestamp_ms: 0,
        context: vec![],
    });
    r.summary.total_prompts = 42;
    assert!(ResultVerifier::verify_results(&r));
}

#[test]
fn digest_invariant_under_model_order() {
    let mut r = sample_results();
    let hash_one = ResultVerifier::calculate_hash(&r);
    r.model_results.swap(0, 1);
    let hash_two = ResultVerifier::calculate_hash(&r);
    assert_eq!(hash_one, hash_two);
}

#[test]
fn digest_sensitive_to_output_order() {
    let mut r = sample_results();
    r.verification_hash = ResultVerifier::calculate_hash(&r);
    r.model_results[0].outputs.swap(0, 1);
    assert!(!ResultVerifier::verify_results(&r));
}

#[test]
fn rfc3339_rendering_is_exact() {
    assert_eq!(eaas::storage::rfc3339_of_millis(0), "1970-01-01T00:00:00+00:00");
}
