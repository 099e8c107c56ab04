use eaas::config::{EvalConfig, EvalSettings, LoggingLevel, OutputFormat};
use eaas::types::{EvaluationJob, JobStatus, MetricConfig, MetricType, ModelConfig, ModelParameters, Prompt};

fn valid_config() -> EvalConfig {
    EvalConfig::sample()
}

#[test]
fn default_settings_match_documentation() {
    let s = EvalSettings::default();
    assert_eq!(s.parallel_requests, 5);
    assert_eq!(s.timeout_seconds, 30);
    assert_eq!(s.retry_attempts, 3);
    assert_eq!(s.output_format, OutputFormat::Json);
    assert_eq!(s.logging_level, LoggingLevel::Info);
    assert!(s.verification_enabled);
    assert!(s.cost_tracking_enabled);
}

#[test]
fn sample_configuration_is_valid() {
    let c = valid_config();
    assert!(c.validate().is_ok());
    assert_eq!(c.job_name, "Sample Evaluation Job");
    assert_eq!(c.prompts.len(), 2);
    assert_eq!(c.models.len(), 2);
    assert_eq!(c.metrics.len(), 2);
    assert_eq!(c.prompts[0].0, "test_prompt_1");
    assert_eq!(c.models[0].1.provider, "openai");
    assert_eq!(c.metrics[1].1.name, "latency");
}

#[test]
fn validation_reports_each_complaint() {
    let mut c = valid_config();
    c.job_name = String::new();
    assert_eq!(c.validate().unwrap_err(), "Job name cannot be empty");

    let mut c = valid_config();
    c.prompts.clear();
    assert_eq!(c.validate().unwrap_err(), "At least one prompt must be specified");

    let mut c = valid_config();
    c.models.clear();
    assert_eq!(c.validate().unwrap_err(), "At least one model must be specified");

    let mut c = valid_config();
    c.metrics.clear();
    assert_eq!(c.validate().unwrap_err(), "At least one metric must be specified");

    let mut c = valid_config();
    c.models[0].1.model_name = String::new();
    assert_eq!(
        c.validate().unwrap_err(),
        "Model 'gpt-3.5' has empty model_name"
    );

    let mut c = valid_config();
    c.models[1].1.provider = String::new();
    assert_eq!(
        c.validate().unwrap_err(),
        "Model 'groq-llama' has empty provider"
    );

    let mut c = valid_config();
    c.prompts[0].1.text = String::new();
    assert_eq!(c.validate().unwrap_err(), "Prompt 'test_prompt_1' has empty text");
}

#[test]
fn default_parameters_match_documentation() {
    let p = ModelParameters::default();
    assert_eq!(p.temperature_micro, Some(700_000));
    assert_eq!(p.max_tokens, Some(1024));
    assert_eq!(p.top_p_micro, Some(1_000_000));
    assert_eq!(p.frequency_penalty_micro, Some(0));
    assert_eq!(p.presence_penalty_micro, Some(0));
    assert!(p.stop_sequences.is_none());
}

#[test]
fn new_jobs_start_pending_with_fresh_ids() {
    let prompts = vec![Prompt {
        id: "p".to_string(),
        text: "t".to_string(),
        expected_output: None,
        category: None,
        metadata: vec![],
    }];
    let models = vec![ModelConfig {
        id: "m".to_string(),
        provider: "groq".to_string(),
        model_name: "llama3-8b-8192".to_string(),
        parameters: ModelParameters::default(),
        api_key: None,
        endpoint: None,
    }];
    let metrics = vec![MetricConfig {
        name: "latency".to_string(),
        metric_type: MetricType::Latency,
        parameters: vec![],
        weight_micro: None,
    }];
    let a = EvaluationJob::new("j".to_string(), prompts.clone(), models.clone(), metrics.clone());
    let b = EvaluationJob::new("j".to_string(), prompts, models, metrics);
    assert_eq!(a.status, JobStatus::Pending);
    assert!(a.results.is_none());
    assert_eq!(a.id.len(), 36);
    assert_ne!(a.id, b.id);
    assert_eq!(a.metadata.environment, "development");
    assert_eq!(a.name, "j");
    assert_eq!(a.prompts.len(), 1);
}
