use eaas::eventlog::{parse_entry, render_entry};
use eaas::storage::{sort_summaries, EvalLogger, FileSystemStorage, JobSummary, LogEntry, LogEvent};
use eaas::types::MetaValue;

fn logger() -> EvalLogger {
    let storage = FileSystemStorage::new("./results".to_string());
    EvalLogger::new("job-42".to_string(), &storage)
}

#[test]
fn log_paths_follow_the_layout() {
    let storage = FileSystemStorage::new("./results".to_string());
    assert_eq!(storage.job_path("j1"), "./results/jobs/j1.json");
    assert_eq!(storage.results_path("j1"), "./results/results/j1.json");
    assert_eq!(storage.log_path("j1"), "./results/logs/j1.log");
    let lg = logger();
    assert_eq!(lg.job_id, "job-42");
    assert_eq!(lg.log_path, "./results/logs/job-42.log");
}

#[test]
fn rendered_line_is_canonical_json() {
    let entry = LogEntry {
        timestamp_ms: 1234,
        job_id: "j".to_string(),
        event: LogEvent::ModelStarted {
            model_id: "m1".to_string(),
            provider: "groq".to_string(),
        },
    };
    assert_eq!(
        render_entry(&entry),
        "{\"timestamp\":1234,\"job_id\":\"j\",\"event\":{\"type\":\"ModelStarted\",\"model_id\":\"m1\",\"provider\":\"groq\"}}"
    );
}

#[test]
fn rendered_strings_are_escaped() {
    let entry = LogEntry {
        timestamp_ms: -5,
        job_id: "a\"b\\c\n".to_string(),
        event: LogEvent::Error {
            message: "tab\there".to_string(),
            context: vec![
                ("key".to_string(), MetaValue::Text("v".to_string())),
                ("n".to_string(), MetaValue::Int(7)),
                ("ok".to_string(), MetaValue::Flag(true)),
            ],
        },
    };
    let line = render_entry(&entry);
    assert_eq!(
        line,
        "{\"timestamp\":-5,\"job_id\":\"a\\\"b\\\\c\\n\",\"event\":{\"type\":\"Error\",\"message\":\"tab\\there\",\"context\":{\"key\":\"v\",\"n\":7,\"ok\":true}}}"
    );
    // and the reader reconstructs the record exactly
    let back = parse_entry(&line).unwrap();
    assert_eq!(back, entry);
}

#[test]
fn append_four_events_read_four_records() {
    let lg = logger();
    let events = vec![
        LogEvent::JobStarted {
            models: vec!["m1".to_string(), "m2".to_string()],
            prompts: 3,
            metrics: vec!["bleu".to_string()],
        },
        LogEvent::ModelStarted {
            model_id: "m1".to_string(),
            provider: "groq".to_string(),
        },
        LogEvent::ModelCompleted {
            model_id: "m1".to_string(),
            success: true,
            outputs: 3,
            errors: 0,
            duration_ms: 1500,
        },
        LogEvent::JobCompleted {
            duration_ms: 1800,
            total_outputs: 3,
            total_errors: 0,
        },
    ];
    let mut content = String::new();
    for event in events.clone() {
        let (_, line) = lg.log_event(event);
        content.push_str(&line);
        content.push('\n');
    }
    // a corrupted trailing line from an interrupted write
    content.push_str("{\"timestamp\":17,\"job_id\":\"j");

    let entries = lg.read_logs(&content);
    assert_eq!(entries.len(), 4);
    for (entry, event) in entries.iter().zip(events.iter()) {
        assert_eq!(entry.job_id, "job-42");
        assert_eq!(&entry.event, event);
    }
}

#[test]
fn unparseable_lines_are_skipped() {
    let lg = logger();
    let (_, line) = lg.log_event(LogEvent::MetricCalculated {
        metric_name: "bleu".to_string(),
        model_id: "m1".to_string(),
        score: 250_000,
    });
    let content = format!("not json at all\n\n{}\ngarbage {{{{\n", line);
    let entries = lg.read_logs(&content);
    assert_eq!(entries.len(), 1);
    match &entries[0].event {
        LogEvent::MetricCalculated { metric_name, model_id, score } => {
            assert_eq!(metric_name, "bleu");
            assert_eq!(model_id, "m1");
            assert_eq!(*score, 250_000);
        },
        other => panic!("unexpected event: {:?}", other),
    }
}

#[test]
fn every_event_shape_round_trips() {
    let samples = vec![
        LogEvent::JobStarted { models: vec![], prompts: 0, metrics: vec![] },
        LogEvent::JobStarted {
            models: vec!["one".to_string()],
            prompts: 1,
            metrics: vec!["a".to_string(), "b".to_string(), "c".to_string()],
        },
        LogEvent::ModelStarted {
            model_id: "m".to_string(),
            provider: "p".to_string(),
        },
        LogEvent::ModelCompleted {
            model_id: "m".to_string(),
            success: false,
            outputs: 1,
            errors: 2,
            duration_ms: 0,
        },
        LogEvent::MetricCalculated {
            metric_name: "rouge".to_string(),
            model_id: "m".to_string(),
            score: 0,
        },
        LogEvent::JobCompleted { duration_ms: 77, total_outputs: 5, total_errors: 0 },
        LogEvent::Error { message: String::new(), context: vec![] },
    ];
    for (k, event) in samples.into_iter().enumerate() {
        let entry = LogEntry {
            timestamp_ms: k as i64 - 3,
            job_id: format!("job-{}", k),
            event,
        };
        let line = render_entry(&entry);
        let back = parse_entry(&line).expect("canonical line must parse");
        assert_eq!(back, entry);
    }
}

#[test]
fn summaries_sort_newest_first() {
    let mk = |id: &str, t: i64| JobSummary {
        id: id.to_string(),
        name: id.to_string(),
        status: "Completed".to_string(),
        created_at_ms: t,
        completed_at_ms: None,
        model_count: 0,
        prompt_count: 0,
        metric_count: 0,
    };
    let sorted = sort_summaries(vec![mk("old", 10), mk("new", 30), mk("mid", 20)]);
    let ids: Vec<&str> = sorted.iter().map(|s| s.id.as_str()).collect();
    assert_eq!(ids, vec!["new", "mid", "old"]);
}
