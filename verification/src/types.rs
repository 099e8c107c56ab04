//! Core data model of the evaluation engine.
//!
//! Fractional quantities (scores, rates, costs, generation parameters)
//! are fixed-point integers in micro-units: a field whose name ends in
//! `_micro` holds one millionth of the corresponding whole unit.
//! Timestamps are Unix milliseconds.

use vstd::prelude::*;
use crate::Score;

verus! {

/// Lifecycle state of an evaluation job. The engine only produces the
/// transitions `Pending -> Running -> {Completed, Failed}`; `Cancelled`
/// is representable but never produced.
#[derive(Clone, Copy, Debug, PartialEq, Eq, Structural)]
pub enum JobStatus {
    Pending,
    Running,
    Completed,
    Failed,
    Cancelled,
}

/// A free-form metadata value: the plain shapes that job metadata,
/// provider extras and metric details take.
#[derive(Clone, Debug, PartialEq, Eq)]
pub enum MetaValue {
    Text(String),
    Int(u64),
    Flag(bool),
}

/// One prompt of a job; immutable once loaded.
#[derive(Clone, Debug)]
pub struct Prompt {
    pub id: String,
    pub text: String,
    pub expected_output: Option<String>,
    pub category: Option<String>,
    pub metadata: Vec<(String, MetaValue)>,
}

/// Generation parameters for a model, in micro-units where fractional.
#[derive(Clone, Debug)]
pub struct ModelParameters {
    pub temperature_micro: Option<u64>,
    pub max_tokens: Option<u32>,
    pub top_p_micro: Option<u64>,
    pub frequency_penalty_micro: Option<i64>,
    pub presence_penalty_micro: Option<i64>,
    pub stop_sequences: Option<Vec<String>>,
}

impl Default for ModelParameters {
    /// Default generation parameters: temperature 0.7, 1024 tokens,
    /// top-p 1.0, no penalties, no stop sequences.
    fn default() -> (r: Self)
        ensures
            r.temperature_micro == Some(700_000u64),
            r.max_tokens == Some(1024u32),
            r.top_p_micro == Some(1_000_000u64),
            r.frequency_penalty_micro == Some(0i64),
            r.presence_penalty_micro == Some(0i64),
            r.stop_sequences is None,
    {
        ModelParameters {
            temperature_micro: Some(700_000),
            max_tokens: Some(1024),
            top_p_micro: Some(1_000_000),
            frequency_penalty_micro: Some(0),
            presence_penalty_micro: Some(0),
            stop_sequences: None,
        }
    }
}

/// A configured model to evaluate.
#[derive(Clone, Debug)]
pub struct ModelConfig {
    pub id: String,
    pub provider: String,
    pub model_name: String,
    pub parameters: ModelParameters,
    pub api_key: Option<String>,
    pub endpoint: Option<String>,
}

/// The kind of a metric.
#[derive(Clone, Debug)]
pub enum MetricType {
    Bleu,
    Rouge,
    ExactMatch,
    EmbeddingSimilarity,
    Latency,
    Cost,
    Toxicity,
    Custom(String),
}

/// A configured metric. `weight_micro` is accepted but not applied.
#[derive(Clone, Debug)]
pub struct MetricConfig {
    pub name: String,
    pub metric_type: MetricType,
    pub parameters: Vec<(String, MetaValue)>,
    pub weight_micro: Option<u64>,
}

/// Per-call metadata attached to one model output.
#[derive(Clone, Debug)]
pub struct OutputMetadata {
    pub latency_ms: u64,
    pub token_count: Option<u32>,
    pub cost_micro_usd: Option<u64>,
    pub timestamp_ms: i64,
    pub provider_metadata: Vec<(String, MetaValue)>,
}

/// One successful (model, prompt) generation.
#[derive(Clone, Debug)]
pub struct ModelOutput {
    pub prompt_id: String,
    pub output: String,
    pub metadata: OutputMetadata,
}

/// Aggregate result of one metric over one model's outputs.
#[derive(Clone, Debug)]
pub struct MetricResult {
    pub metric_name: String,
    pub score: Score,
    pub details: Vec<(String, MetaValue)>,
    pub per_prompt_scores: Vec<(String, Score)>,
}

/// Aggregated latency/token/cost/rate figures for one model.
#[derive(Clone, Copy, Debug, PartialEq, Eq, Structural)]
pub struct PerformanceMetrics {
    pub total_latency_ms: u64,
    /// Average latency in whole milliseconds, rounded down.
    pub average_latency_ms: u64,
    pub total_tokens: u64,
    pub total_cost_micro_usd: u64,
    /// Successes per prompt attempted, in micro-units (1.0 == 1_000_000).
    pub success_rate_micro: u64,
    /// Successes per wall-clock second, in micro-units.
    pub throughput_micro_per_s: u64,
}

/// The error taxonomy. The engine itself produces only
/// `ConfigurationError` (fail-fast validation) and `UnknownError`
/// (per-prompt generation failures); the richer kinds are reserved.
#[derive(Clone, Copy, Debug, PartialEq, Eq, Structural)]
pub enum ErrorType {
    NetworkError,
    AuthenticationError,
    RateLimitError,
    InvalidResponse,
    MetricCalculationError,
    ConfigurationError,
    UnknownError,
}

/// One recorded (model, prompt) failure. Failures are data: they never
/// remove the model from the result set.
#[derive(Clone, Debug)]
pub struct EvaluationError {
    pub error_type: ErrorType,
    pub message: String,
    pub prompt_id: Option<String>,
    pub timestamp_ms: i64,
    pub context: Vec<(String, MetaValue)>,
}

/// Everything recorded for one model in one job.
#[derive(Clone, Debug)]
pub struct ModelResults {
    pub model_id: String,
    pub outputs: Vec<ModelOutput>,
    /// One entry per computed metric; metric names are unique.
    pub metrics: Vec<MetricResult>,
    pub performance: PerformanceMetrics,
    pub errors: Vec<EvaluationError>,
}

/// A model's place on the leaderboard; rank 1 is best.
#[derive(Clone, Debug)]
pub struct ModelRanking {
    pub model_id: String,
    pub overall_score: Score,
    pub rank: usize,
    pub strengths: Vec<String>,
    pub weaknesses: Vec<String>,
}

/// Derived cross-model summary, recomputed for each result set.
#[derive(Clone, Debug)]
pub struct ResultSummary {
    pub total_prompts: usize,
    pub successful_completions: usize,
    pub failed_completions: usize,
    pub best_performing_model: Option<String>,
    pub worst_performing_model: Option<String>,
    pub average_scores: Vec<(String, Score)>,
    pub ranking: Vec<ModelRanking>,
}

/// The final result set of a job. `model_results` and
/// `aggregate_scores` are association lists with unique keys.
#[derive(Clone, Debug)]
pub struct EvaluationResults {
    pub job_id: String,
    pub completed_at_ms: i64,
    pub model_results: Vec<ModelResults>,
    pub aggregate_scores: Vec<(String, Score)>,
    pub summary: ResultSummary,
    pub verification_hash: String,
}

/// Free-form information attached to a job.
#[derive(Clone, Debug)]
pub struct JobMetadata {
    pub user_id: Option<String>,
    pub project: Option<String>,
    pub tags: Vec<String>,
    pub description: Option<String>,
    pub environment: String,
    pub version: String,
}

/// One evaluation run over a fixed prompt/model/metric snapshot.
#[derive(Clone, Debug)]
pub struct EvaluationJob {
    pub id: String,
    pub name: String,
    pub created_at_ms: i64,
    pub status: JobStatus,
    pub prompts: Vec<Prompt>,
    pub models: Vec<ModelConfig>,
    pub metrics: Vec<MetricConfig>,
    pub results: Option<EvaluationResults>,
    pub metadata: JobMetadata,
}

/// Relies on `uuid::Uuid::new_v4` and its `Display` form: a fresh
/// random identifier rendered as the 36-character hyphenated text.
#[verifier::external_body]
pub(crate) fn fresh_job_id() -> (r: String)
    ensures
        r@.len() == 36,
{
    uuid::Uuid::new_v4().to_string()
}

/// Relies on `chrono::Utc::now`: the current wall-clock time in Unix
/// milliseconds. Nothing is promised of the value; every contract that
/// mentions a recorded time holds whatever the clock returned.
#[verifier::external_body]
pub(crate) fn now_millis() -> i64 {
    chrono::Utc::now().timestamp_millis()
}

impl EvaluationJob {
    /// A fresh job in `Pending` state over the given snapshot, with a
    /// new unique id, the current creation time and default metadata.
    pub fn new(
        name: String,
        prompts: Vec<Prompt>,
        models: Vec<ModelConfig>,
        metrics: Vec<MetricConfig>,
    ) -> (r: Self)
        ensures
            r.id@.len() == 36,
            r.name == name,
            r.status == JobStatus::Pending,
            r.prompts == prompts,
            r.models == models,
            r.metrics == metrics,
            r.results is None,
            r.metadata.user_id is None,
            r.metadata.project is None,
            r.metadata.tags@.len() == 0,
            r.metadata.description is None,
            r.metadata.environment@ == "development"@,
            r.metadata.version@ == "0.1.0"@,
    {
        EvaluationJob {
            id: fresh_job_id(),
            name,
            created_at_ms: now_millis(),
            status: JobStatus::Pending,
            prompts,
            models,
            metrics,
            results: None,
            metadata: JobMetadata {
                user_id: None,
                project: None,
                tags: Vec::new(),
                description: None,
                environment: "development".to_owned(),
                version: "0.1.0".to_owned(),
            },
        }
    }
}

} // verus!
