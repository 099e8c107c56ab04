//! Run configuration: the prompts, models and metrics of a job, and
//! the engine settings, with fail-fast validation.

use vstd::prelude::*;
use vstd::string::StringExecFns;
use crate::types::{MetricConfig, MetricType, ModelConfig, ModelParameters, Prompt};

verus! {

/// How the final results are rendered by the surrounding tooling.
#[derive(Clone, Copy, Debug, PartialEq, Eq, Structural)]
pub enum OutputFormat {
    Json,
    Csv,
    Yaml,
    Html,
}

/// How verbosely the surrounding tooling logs.
#[derive(Clone, Copy, Debug, PartialEq, Eq, Structural)]
pub enum LoggingLevel {
    Error,
    Warn,
    Info,
    Debug,
    Trace,
}

/// Engine settings of one run.
#[derive(Clone, Copy, Debug, PartialEq, Eq, Structural)]
pub struct EvalSettings {
    pub parallel_requests: usize,
    pub timeout_seconds: u64,
    pub retry_attempts: u32,
    pub output_format: OutputFormat,
    pub logging_level: LoggingLevel,
    pub verification_enabled: bool,
    pub cost_tracking_enabled: bool,
}

impl Default for EvalSettings {
    /// Default settings: five parallel model tasks, a thirty-second
    /// call timeout, JSON output, info logging, verification and cost
    /// tracking on.
    fn default() -> (r: Self)
        ensures
            r.parallel_requests == 5,
            r.timeout_seconds == 30,
            r.retry_attempts == 3,
            r.output_format == OutputFormat::Json,
            r.logging_level == LoggingLevel::Info,
            r.verification_enabled,
            r.cost_tracking_enabled,
    {
        EvalSettings {
            parallel_requests: 5,
            timeout_seconds: 30,
            retry_attempts: 3,
            output_format: OutputFormat::Json,
            logging_level: LoggingLevel::Info,
            verification_enabled: true,
            cost_tracking_enabled: true,
        }
    }
}

/// A whole run configuration. Prompts, models and metrics are
/// association lists keyed by id or name.
#[derive(Clone, Debug)]
pub struct EvalConfig {
    pub job_name: String,
    pub prompts: Vec<(String, Prompt)>,
    pub models: Vec<(String, ModelConfig)>,
    pub metrics: Vec<(String, MetricConfig)>,
    pub settings: EvalSettings,
}

/// The first complaint about the model list: a model with an empty
/// backend name, then one with an empty provider.
pub open spec fn first_model_error(ms: Seq<(String, ModelConfig)>) -> Option<Seq<char>>
    decreases ms.len(),
{
    if ms.len() == 0 {
        None
    } else if ms[0].1.model_name@.len() == 0 {
        Some("Model '"@ + ms[0].0@ + "' has empty model_name"@)
    } else if ms[0].1.provider@.len() == 0 {
        Some("Model '"@ + ms[0].0@ + "' has empty provider"@)
    } else {
        first_model_error(ms.drop_first())
    }
}

/// The first complaint about the prompt list: a prompt with no text.
pub open spec fn first_prompt_error(ps: Seq<(String, Prompt)>) -> Option<Seq<char>>
    decreases ps.len(),
{
    if ps.len() == 0 {
        None
    } else if ps[0].1.text@.len() == 0 {
        Some("Prompt '"@ + ps[0].0@ + "' has empty text"@)
    } else {
        first_prompt_error(ps.drop_first())
    }
}

/// The first complaint about a configuration, in the order the checks
/// run: emptiness of the name and the three lists, then per-model and
/// per-prompt problems.
pub open spec fn config_error(c: EvalConfig) -> Option<Seq<char>> {
    if c.job_name@.len() == 0 {
        Some("Job name cannot be empty"@)
    } else if c.prompts@.len() == 0 {
        Some("At least one prompt must be specified"@)
    } else if c.models@.len() == 0 {
        Some("At least one model must be specified"@)
    } else if c.metrics@.len() == 0 {
        Some("At least one metric must be specified"@)
    } else if first_model_error(c.models@) is Some {
        first_model_error(c.models@)
    } else {
        first_prompt_error(c.prompts@)
    }
}

proof fn lemma_first_model_error_skip(ms: Seq<(String, ModelConfig)>, j: int)
    requires
        0 <= j <= ms.len(),
        forall|k: int|
            0 <= k < j ==> (#[trigger] ms[k]).1.model_name@.len() != 0
                && ms[k].1.provider@.len() != 0,
    ensures
        first_model_error(ms) == first_model_error(ms.skip(j)),
    decreases j,
{
    if j > 0 {
        lemma_first_model_error_skip(ms, j - 1);
        let s = ms.skip(j - 1);
        assert(s[0] == ms[j - 1]);
        assert(s.drop_first() =~= ms.skip(j));
    } else {
        assert(ms.skip(0) =~= ms);
    }
}

proof fn lemma_first_prompt_error_skip(ps: Seq<(String, Prompt)>, j: int)
    requires
        0 <= j <= ps.len(),
        forall|k: int| 0 <= k < j ==> (#[trigger] ps[k]).1.text@.len() != 0,
    ensures
        first_prompt_error(ps) == first_prompt_error(ps.skip(j)),
    decreases j,
{
    if j > 0 {
        lemma_first_prompt_error_skip(ps, j - 1);
        let s = ps.skip(j - 1);
        assert(s[0] == ps[j - 1]);
        assert(s.drop_first() =~= ps.skip(j));
    } else {
        assert(ps.skip(0) =~= ps);
    }
}

impl EvalConfig {
    /// Validates the configuration: every complaint the checks can
    /// raise is returned as exactly the first one that applies, and
    /// `Ok` comes back if and only if none applies.
    pub fn validate(&self) -> (r: Result<(), String>)
        ensures
            r is Ok <==> config_error(*self) is None,
            r matches Err(m) ==> config_error(*self) matches Some(e) && m@ == e,
    {
        if self.job_name.as_str().unicode_len() == 0 {
            return Err("Job name cannot be empty".to_owned());
        }
        if self.prompts.len() == 0 {
            return Err("At least one prompt must be specified".to_owned());
        }
        if self.models.len() == 0 {
            return Err("At least one model must be specified".to_owned());
        }
        if self.metrics.len() == 0 {
            return Err("At least one metric must be specified".to_owned());
        }
        let mut i: usize = 0;
        while i < self.models.len()
            invariant
                i <= self.models@.len(),
                self.job_name@.len() != 0,
                self.prompts@.len() != 0,
                self.models@.len() != 0,
                self.metrics@.len() != 0,
                forall|k: int|
                    0 <= k < i ==> (#[trigger] self.models@[k]).1.model_name@.len() != 0
                        && self.models@[k].1.provider@.len() != 0,
            decreases self.models@.len() - i,
        {
            proof {
                lemma_first_model_error_skip(self.models@, i as int);
                assert(self.models@.skip(i as int)[0] == self.models@[i as int]);
            }
            let pair = &self.models[i];
            if pair.1.model_name.as_str().unicode_len() == 0 {
                let mut m = String::new();
                m.append("Model '");
                m.append(pair.0.as_str());
                m.append("' has empty model_name");
                proof {
                    assert(m@ =~= "Model '"@ + pair.0@ + "' has empty model_name"@);
                }
                return Err(m);
            }
            if pair.1.provider.as_str().unicode_len() == 0 {
                let mut m = String::new();
                m.append("Model '");
                m.append(pair.0.as_str());
                m.append("' has empty provider");
                proof {
                    assert(m@ =~= "Model '"@ + pair.0@ + "' has empty provider"@);
                }
                return Err(m);
            }
            i = i + 1;
        }
        proof {
            lemma_first_model_error_skip(self.models@, self.models@.len() as int);
            assert(self.models@.skip(self.models@.len() as int).len() == 0);
        }
        let mut i: usize = 0;
        while i < self.prompts.len()
            invariant
                i <= self.prompts@.len(),
                self.job_name@.len() != 0,
                self.prompts@.len() != 0,
                self.models@.len() != 0,
                self.metrics@.len() != 0,
                first_model_error(self.models@) is None,
                forall|k: int| 0 <= k < i ==> (#[trigger] self.prompts@[k]).1.text@.len() != 0,
            decreases self.prompts@.len() - i,
        {
            proof {
                lemma_first_prompt_error_skip(self.prompts@, i as int);
                assert(self.prompts@.skip(i as int)[0] == self.prompts@[i as int]);
            }
            let pair = &self.prompts[i];
            if pair.1.text.as_str().unicode_len() == 0 {
                let mut m = String::new();
                m.append("Prompt '");
                m.append(pair.0.as_str());
                m.append("' has empty text");
                proof {
                    assert(m@ =~= "Prompt '"@ + pair.0@ + "' has empty text"@);
                }
                return Err(m);
            }
            i = i + 1;
        }
        proof {
            lemma_first_prompt_error_skip(self.prompts@, self.prompts@.len() as int);
            assert(self.prompts@.skip(self.prompts@.len() as int).len() == 0);
        }
        Ok(())
    }

    /// A small configuration for trying the engine out: two prompts,
    /// two models and two metrics, with default settings.
    pub fn sample() -> (r: Self)
        ensures
            r.job_name@ == "Sample Evaluation Job"@,
            r.prompts@.len() == 2,
            r.models@.len() == 2,
            r.metrics@.len() == 2,
            r.prompts@[0].0@ == "test_prompt_1"@,
            r.prompts@[0].1.id@ == "test_prompt_1"@,
            r.prompts@[0].1.expected_output is Some,
            r.prompts@[1].0@ == "test_prompt_2"@,
            r.prompts@[1].1.id@ == "test_prompt_2"@,
            r.prompts@[1].1.expected_output is None,
            r.models@[0].0@ == "gpt-3.5"@,
            r.models@[0].1.id@ == "gpt-3.5"@,
            r.models@[0].1.provider@ == "openai"@,
            r.models@[1].0@ == "groq-llama"@,
            r.models@[1].1.id@ == "groq-llama"@,
            r.models@[1].1.provider@ == "groq"@,
            r.metrics@[0].0@ == "bleu"@,
            r.metrics@[0].1.name@ == "bleu"@,
            r.metrics@[1].0@ == "latency"@,
            r.metrics@[1].1.name@ == "latency"@,
            r.settings.parallel_requests == 5,
            r.settings.timeout_seconds == 30,
            r.settings.verification_enabled,
            config_error(r) is None,
    {
        let mut prompts: Vec<(String, Prompt)> = Vec::new();
        prompts.push(("test_prompt_1".to_owned(), Prompt {
            id: "test_prompt_1".to_owned(),
            text: "Explain the concept of machine learning in simple terms.".to_owned(),
            expected_output: Some(
                "Machine learning is a type of artificial intelligence that enables computers to learn and make decisions from data without being explicitly programmed for every task.".to_owned(),
            ),
            category: Some("explanation".to_owned()),
            metadata: Vec::new(),
        }));
        prompts.push(("test_prompt_2".to_owned(), Prompt {
            id: "test_prompt_2".to_owned(),
            text: "Write a short story about a robot learning to paint.".to_owned(),
            expected_output: None,
            category: Some("creative_writing".to_owned()),
            metadata: Vec::new(),
        }));

        let mut models: Vec<(String, ModelConfig)> = Vec::new();
        models.push(("gpt-3.5".to_owned(), ModelConfig {
            id: "gpt-3.5".to_owned(),
            provider: "openai".to_owned(),
            model_name: "gpt-3.5-turbo".to_owned(),
            parameters: ModelParameters::default(),
            api_key: None,
            endpoint: None,
        }));
        models.push(("groq-llama".to_owned(), ModelConfig {
            id: "groq-llama".to_owned(),
            provider: "groq".to_owned(),
            model_name: "llama-3.1-70b-versatile".to_owned(),
            parameters: ModelParameters::default(),
            api_key: None,
            endpoint: None,
        }));

        let mut metrics: Vec<(String, MetricConfig)> = Vec::new();
        metrics.push(("bleu".to_owned(), MetricConfig {
            name: "bleu".to_owned(),
            metric_type: MetricType::Bleu,
            parameters: Vec::new(),
            weight_micro: Some(1_000_000),
        }));
        metrics.push(("latency".to_owned(), MetricConfig {
            name: "latency".to_owned(),
            metric_type: MetricType::Latency,
            parameters: Vec::new(),
            weight_micro: Some(500_000),
        }));

        let r = EvalConfig {
            job_name: "Sample Evaluation Job".to_owned(),
            prompts,
            models,
            metrics,
            settings: EvalSettings::default(),
        };
        proof {
            reveal_strlit("Sample Evaluation Job");
            reveal_strlit("gpt-3.5-turbo");
            reveal_strlit("openai");
            reveal_strlit("groq");
            reveal_strlit("llama-3.1-70b-versatile");
            reveal_strlit("Explain the concept of machine learning in simple terms.");
            reveal_strlit("Write a short story about a robot learning to paint.");
            assert(r.models@.drop_first() =~= seq![r.models@[1]]);
            assert(seq![r.models@[1]].drop_first() =~= Seq::<(String, ModelConfig)>::empty());
            assert(r.prompts@.drop_first() =~= seq![r.prompts@[1]]);
            assert(seq![r.prompts@[1]].drop_first() =~= Seq::<(String, Prompt)>::empty());
            assert(first_model_error(Seq::<(String, ModelConfig)>::empty()) is None);
            assert(first_model_error(seq![r.models@[1]]) is None);
            assert(first_model_error(r.models@.drop_first()) is None);
            assert(first_model_error(r.models@) is None);
            assert(first_prompt_error(Seq::<(String, Prompt)>::empty()) is None);
            assert(first_prompt_error(seq![r.prompts@[1]]) is None);
            assert(first_prompt_error(r.prompts@.drop_first()) is None);
            assert(first_prompt_error(r.prompts@) is None);
            assert(config_error(r) is None);
        }
        r
    }
}

} // verus!
