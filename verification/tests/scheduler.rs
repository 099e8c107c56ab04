use eaas::metrics::MetricRegistry;
use eaas::runner::{calculate_aggregate_scores, create_summary, Scheduler};
use eaas::storage::LogEvent;
use eaas::types::{
    ErrorType, EvaluationJob, JobStatus, MetricConfig, MetricResult, MetricType, ModelConfig,
    ModelOutput, ModelParameters, ModelResults, OutputMetadata, PerformanceMetrics, Prompt,
};

fn prompt(id: &str, text: &str, expected: Option<&str>) -> Prompt {
    Prompt {
        id: id.to_string(),
        text: text.to_string(),
        expected_output: expected.map(|e| e.to_string()),
        category: None,
        metadata: vec![],
    }
}

fn model_cfg(id: &str) -> ModelConfig {
    ModelConfig {
        id: id.to_string(),
        provider: "groq".to_string(),
        model_name: "llama3-8b-8192".to_string(),
        parameters: ModelParameters::default(),
        api_key: None,
        endpoint: None,
    }
}

fn metric_cfg(name: &str, kind: MetricType) -> MetricConfig {
    MetricConfig {
        name: name.to_string(),
        metric_type: kind,
        parameters: vec![],
        weight_micro: None,
    }
}

fn output_for(prompt_id: &str, text: &str, latency_ms: u64) -> ModelOutput {
    ModelOutput {
        prompt_id: prompt_id.to_string(),
        output: text.to_string(),
        metadata: OutputMetadata {
            latency_ms,
            token_count: Some(4),
            cost_micro_usd: Some(2),
            timestamp_ms: 1_700_000_000_000,
            provider_metadata: vec![],
        },
    }
}

#[test]
fn partial_failure_completes_job() {
    // one model, two prompts: the provider succeeds on the first and
    // fails on the second; the job still completes
    let job = EvaluationJob::new(
        "partial".to_string(),
        vec![prompt("a", "say hi", Some("hi")), prompt("b", "say bye", None)],
        vec![model_cfg("m1")],
        vec![metric_cfg("exact_match", MetricType::ExactMatch)],
    );
    let mut s = Scheduler::new(job, 5, MetricRegistry::new());
    s.start(&vec![Ok(())]).unwrap();
    assert_eq!(s.job.status, JobStatus::Running);

    s.record_generation(0, Ok(output_for("a", "hi", 100)));
    s.record_generation(0, Err("socket closed".to_string()));
    s.finish_model(0);
    assert!(s.all_finished());
    s.finalize();

    assert_eq!(s.job.status, JobStatus::Completed);
    let results = s.job.results.as_ref().unwrap();
    assert_eq!(results.model_results.len(), 1);
    let m = &results.model_results[0];
    assert_eq!(m.outputs.len(), 1);
    assert_eq!(m.errors.len(), 1);
    // success rate is one success over two prompts attempted
    assert_eq!(m.performance.success_rate_micro, 500_000);
    assert_eq!(m.performance.total_latency_ms, 100);
    assert_eq!(m.performance.average_latency_ms, 100);
    assert_eq!(m.errors[0].error_type, ErrorType::UnknownError);
    assert_eq!(
        m.errors[0].message,
        "Failed to generate output for prompt 'b': socket closed"
    );
    // the stamped digest verifies
    assert!(eaas::storage::ResultVerifier::verify_results(results));
    // every prompt is accounted for exactly once
    assert_eq!(m.outputs.len() + m.errors.len(), 2);
}

#[test]
fn validation_failure_keeps_job_pending() {
    let job = EvaluationJob::new(
        "failfast".to_string(),
        vec![prompt("a", "text", None)],
        vec![model_cfg("m1"), model_cfg("m2")],
        vec![metric_cfg("latency", MetricType::Latency)],
    );
    let mut s = Scheduler::new(job, 2, MetricRegistry::new());
    let r = s.start(&vec![Ok(()), Err("no api key".to_string())]);
    let e = r.unwrap_err();
    assert_eq!(e.error_type, ErrorType::ConfigurationError);
    assert_eq!(e.message, "no api key");
    assert_eq!(s.job.status, JobStatus::Pending);
    assert_eq!(s.events.len(), 0);
}

#[test]
fn admission_respects_parallel_cap() {
    let job = EvaluationJob::new(
        "capped".to_string(),
        vec![],
        vec![model_cfg("m1"), model_cfg("m2"), model_cfg("m3")],
        vec![],
    );
    let mut s = Scheduler::new(job, 2, MetricRegistry::new());
    s.start(&vec![Ok(()), Ok(()), Ok(())]).unwrap();
    // only two of the three tasks are admitted at first
    assert_eq!(s.active, 2);
    assert_eq!(s.next_waiting, 2);
    // JobStarted plus one ModelStarted per admitted task
    assert_eq!(s.events.len(), 3);
    s.finish_model(0);
    assert!(s.admit_next());
    assert_eq!(s.active, 2);
    assert!(!s.admit_next());
    s.finish_model(1);
    s.finish_model(2);
    assert!(s.all_finished());
    s.finalize();
    assert_eq!(s.job.status, JobStatus::Completed);
    // a zero-prompt job records full success for every model
    let results = s.job.results.as_ref().unwrap();
    assert_eq!(results.model_results.len(), 3);
    assert_eq!(results.summary.total_prompts, 0);
}

#[test]
fn failed_job_carries_no_results() {
    let job = EvaluationJob::new(
        "doomed".to_string(),
        vec![prompt("a", "text", None)],
        vec![model_cfg("m1")],
        vec![],
    );
    let mut s = Scheduler::new(job, 1, MetricRegistry::new());
    s.start(&vec![Ok(())]).unwrap();
    s.fail("disk full".to_string());
    assert_eq!(s.job.status, JobStatus::Failed);
    assert!(s.job.results.is_none());
    match &s.events.last().unwrap().event {
        LogEvent::Error { message, .. } => assert_eq!(message, "disk full"),
        other => panic!("unexpected event: {:?}", other),
    }
}

#[test]
fn abandoned_model_is_absent_from_results() {
    let job = EvaluationJob::new(
        "dropout".to_string(),
        vec![],
        vec![model_cfg("m1"), model_cfg("m2")],
        vec![],
    );
    let mut s = Scheduler::new(job, 2, MetricRegistry::new());
    s.start(&vec![Ok(()), Ok(())]).unwrap();
    s.abandon_model(0);
    s.finish_model(1);
    s.finalize();
    let results = s.job.results.as_ref().unwrap();
    assert_eq!(results.model_results.len(), 1);
    assert_eq!(results.model_results[0].model_id, "m2");
}

fn bare_model(id: &str, metric: &str, score: u64) -> ModelResults {
    ModelResults {
        model_id: id.to_string(),
        outputs: vec![],
        metrics: vec![MetricResult {
            metric_name: metric.to_string(),
            score,
            details: vec![],
            per_prompt_scores: vec![],
        }],
        performance: PerformanceMetrics {
            total_latency_ms: 0,
            average_latency_ms: 0,
            total_tokens: 0,
            total_cost_micro_usd: 0,
            success_rate_micro: 0,
            throughput_micro_per_s: 0,
        },
        errors: vec![],
    }
}

#[test]
fn aggregate_mean_of_three_models() {
    // scores 0.2, 0.4 and 0.6 average to 0.4
    let models = vec![
        bare_model("m1", "quality", 200_000),
        bare_model("m2", "quality", 400_000),
        bare_model("m3", "quality", 600_000),
    ];
    let agg = calculate_aggregate_scores(&models);
    assert_eq!(agg.len(), 1);
    assert_eq!(agg[0].0, "quality");
    assert_eq!(agg[0].1, 400_000);
}

#[test]
fn aggregate_skips_models_without_the_metric() {
    let mut models = vec![
        bare_model("m1", "quality", 200_000),
        bare_model("m2", "quality", 600_000),
    ];
    models.push(ModelResults {
        metrics: vec![],
        ..bare_model("m3", "quality", 0)
    });
    let agg = calculate_aggregate_scores(&models);
    // the model that failed to compute the metric is excluded from the
    // mean, not counted as zero
    assert_eq!(agg.len(), 1);
    assert_eq!(agg[0].1, 400_000);
}

#[test]
fn empty_results_give_empty_summary() {
    let models: Vec<ModelResults> = vec![];
    let agg = calculate_aggregate_scores(&models);
    assert!(agg.is_empty());
    let summary = create_summary(&models, &agg);
    assert!(summary.average_scores.is_empty());
    assert!(summary.ranking.is_empty());
    assert_eq!(summary.best_performing_model, None);
    assert_eq!(summary.worst_performing_model, None);
}

#[test]
fn ranking_is_a_permutation_with_rank_one_best() {
    let models = vec![
        bare_model("slow", "quality", 100_000),
        bare_model("best", "quality", 900_000),
        bare_model("mid", "quality", 500_000),
    ];
    let agg = calculate_aggregate_scores(&models);
    let summary = create_summary(&models, &agg);
    assert_eq!(summary.ranking.len(), 3);
    let ranks: Vec<usize> = summary.ranking.iter().map(|r| r.rank).collect();
    assert_eq!(ranks, vec![1, 2, 3]);
    assert_eq!(summary.ranking[0].model_id, "best");
    assert_eq!(summary.ranking[1].model_id, "mid");
    assert_eq!(summary.ranking[2].model_id, "slow");
    assert_eq!(summary.best_performing_model.as_deref(), Some("best"));
    assert_eq!(summary.worst_performing_model.as_deref(), Some("slow"));
}

#[test]
fn ranking_breaks_ties_by_model_id() {
    let models = vec![
        bare_model("zeta", "quality", 500_000),
        bare_model("alpha", "quality", 500_000),
    ];
    let agg = calculate_aggregate_scores(&models);
    let summary = create_summary(&models, &agg);
    assert_eq!(summary.ranking[0].model_id, "alpha");
    assert_eq!(summary.ranking[1].model_id, "zeta");
}

#[test]
fn summary_counts_totals() {
    let mut m1 = bare_model("m1", "quality", 100_000);
    m1.outputs = vec![output_for("a", "x", 1), output_for("b", "y", 2)];
    let mut m2 = bare_model("m2", "quality", 100_000);
    m2.outputs = vec![output_for("a", "x", 1)];
    m2.errors = vec![eaas::types::EvaluationError {
        error_type: ErrorType::UnknownError,
        message: "m".to_string(),
        prompt_id: None,
        timestamp_ms: 0,
        context: vec![],
    }];
    let models = vec![m1, m2];
    let agg = calculate_aggregate_scores(&models);
    let summary = create_summary(&models, &agg);
    assert_eq!(summary.total_prompts, 2);
    assert_eq!(summary.successful_completions, 3);
    assert_eq!(summary.failed_completions, 1);
}
