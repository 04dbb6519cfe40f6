use scalelab_rs::config::ModelConfig;
use scalelab_rs::experiment::{ExperimentError, ScaleExperiment, ScaleRunConfig, ScaleTrainingConfig};
use scalelab_rs::preflight::{Preflight, PreflightStage};

fn manifest(targets: [f64; 2], expected_parameters: Option<usize>) -> ScaleExperiment {
    ScaleExperiment {
        name: "reuse".to_string(),
        output_dir: "runs".to_string(),
        tokenizer_corpus: "tok.txt".to_string(),
        validation_corpus: "val.txt".to_string(),
        model: ModelConfig { context_length: 3, d_model: 8, n_heads: 2, n_layers: 1, d_ff: 16, expected_parameters },
        training: ScaleTrainingConfig {
            batch_size: 2,
            eval_interval: 1,
            eval_batches: 1,
            learning_rate_bits: 0.01f64.to_bits(),
            weight_decay_bits: 0.0f64.to_bits(),
            seed: Some(7),
            seeds: vec![],
            sample_tokens: 4,
        },
        prompts: vec![],
        runs: vec![
            ScaleRunConfig {
                name: "small".to_string(),
                train_corpus: "small.txt".to_string(),
                target_tokens_per_parameter_bits: targets[0].to_bits(),
            },
            ScaleRunConfig {
                name: "broad".to_string(),
                train_corpus: "broad.txt".to_string(),
                target_tokens_per_parameter_bits: targets[1].to_bits(),
            },
        ],
    }
}

/// Answers every stage up to the model's count.
fn up_to_runs(spec: ScaleExperiment, count: usize) -> (Preflight, Result<PreflightStage, ExperimentError>) {
    let (mut preflight, next) = Preflight::new(spec);
    assert_eq!(next, Ok(PreflightStage::TokenizerCorpus));
    assert_eq!(preflight.tokenizer_corpus("abcd efg", "tok-hash".to_string()), PreflightStage::TokenizerFingerprint);
    assert_eq!(preflight.tokenizer().vocab_size(), 8);
    assert_eq!(preflight.tokenizer_fingerprint("frozen".to_string()), PreflightStage::ValidationCorpus);
    assert_eq!(preflight.validation_corpus("face bad", "val-hash".to_string()), Ok(PreflightStage::ParameterCount));
    let next = preflight.parameter_count(count);
    (preflight, next)
}

#[test]
fn preflight_asks_for_each_input_in_order() {
    let (mut preflight, next) = up_to_runs(manifest([2.0, 2.0], Some(100)), 100);
    assert_eq!(next, Ok(PreflightStage::TrainCorpus { run: 0 }));
    assert_eq!(preflight.train_corpus("abab", "s".to_string(), 200), Ok(PreflightStage::TrainCorpus { run: 1 }));
    assert_eq!(preflight.train_corpus("gfedcba", "b".to_string(), 200), Ok(PreflightStage::Complete));
    let checked = preflight.finish().unwrap();
    assert_eq!(checked.parameter_count, 100);
    assert_eq!(checked.tokenizer_sha256, "frozen");
    assert_eq!(checked.validation_sha256, "val-hash");
    assert_eq!(checked.validation_tokens, vec![6, 1, 3, 5, 0, 2, 1, 4]);
    assert_eq!(checked.runs.len(), 2);
    assert_eq!(checked.runs[0].config.name, "small");
    assert_eq!(checked.runs[0].train_tokens, vec![1, 2, 1, 2]);
    assert_eq!(checked.runs[0].steps, 34);
    assert_eq!(checked.runs[0].actual_processed_tokens, 204);
    assert_eq!(checked.runs[1].config.name, "broad");
    assert_eq!(checked.runs[1].observed_token_types, 7);
}

#[test]
fn preflight_stops_at_the_manifest() {
    let mut spec = manifest([2.0, 2.0], None);
    spec.runs.pop();
    let (_, next) = Preflight::new(spec);
    assert_eq!(next, Err(ExperimentError::TooFewRuns));
}

#[test]
fn preflight_refuses_unknown_validation_characters() {
    let (mut preflight, _) = Preflight::new(manifest([2.0, 2.0], None));
    preflight.tokenizer_corpus("abc", "t".to_string());
    preflight.tokenizer_fingerprint("f".to_string());
    assert_eq!(
        preflight.validation_corpus("abcz", "v".to_string()),
        Err(ExperimentError::ValidationUnknownCharacter('z'))
    );
}

#[test]
fn preflight_refuses_a_mismatched_parameter_count() {
    let (_, next) = up_to_runs(manifest([2.0, 2.0], Some(99)), 100);
    assert_eq!(next, Err(ExperimentError::ParameterCountMismatch { expected: 99, actual: 100 }));
}

#[test]
fn preflight_checks_a_target_before_its_corpus() {
    let (_, next) = up_to_runs(manifest([0.0, 2.0], None), 100);
    assert_eq!(next, Err(ExperimentError::NonPositiveTarget { run: "small".to_string() }));
    let (mut preflight, next) = up_to_runs(manifest([2.0, -1.0], None), 100);
    assert_eq!(next, Ok(PreflightStage::TrainCorpus { run: 0 }));
    assert_eq!(
        preflight.train_corpus("abab", "s".to_string(), 200),
        Err(ExperimentError::NonPositiveTarget { run: "broad".to_string() })
    );
}

#[test]
fn preflight_refuses_training_on_the_validation_corpus() {
    let (mut preflight, _) = up_to_runs(manifest([2.0, 2.0], None), 100);
    assert_eq!(
        preflight.train_corpus("face bad", "val-hash".to_string(), 200),
        Err(ExperimentError::TrainIsValidation { run: "small".to_string() })
    );
}

#[test]
fn preflight_refuses_an_unfingerprinted_tokenizer_corpus() {
    let (mut preflight, next) = Preflight::new(manifest([2.0, 2.0], None));
    assert_eq!(next, Ok(PreflightStage::TokenizerCorpus));
    preflight.tokenizer_corpus("abcd efg", String::new());
    preflight.tokenizer_fingerprint("f".to_string());
    preflight.validation_corpus("face bad", "v".to_string()).unwrap();
    preflight.parameter_count(10).unwrap();
    preflight.train_corpus("abab", "a".to_string(), 20).unwrap();
    assert_eq!(preflight.train_corpus("abba", "b".to_string(), 20), Ok(PreflightStage::Complete));
    assert_eq!(preflight.finish().err(), Some(ExperimentError::EmptyTokenizerHash));
}
