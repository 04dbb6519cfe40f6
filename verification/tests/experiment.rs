use scalelab_rs::config::ModelConfig;
use scalelab_rs::data::CharTokenizer;
use scalelab_rs::experiment::{
    check_parameter_count, check_run, check_spec, check_token_target, default_sample_tokens, encode_validation,
    evaluation_seeds, exposure, matched_budgets, CheckedExperiment, CheckedRun, DatasetArtifact, ExperimentError,
    ScaleExperiment, ScaleRunConfig, ScaleTrainingConfig, ScheduleAction, TrainingSchedule,
};

#[test]
fn exposure_math_rounds_up_to_complete_steps() {
    let parameters = 27_520usize;
    let target = (parameters as f64 * 20.0).ceil() as usize;
    let tokens_per_step = 4 * 16;
    let (steps, actual) = exposure(target, tokens_per_step);
    assert_eq!(target, 550_400);
    assert_eq!(steps, 8_600);
    assert_eq!(actual, target);
    assert_eq!(steps * tokens_per_step, target);
}

#[test]
fn exposure_rounds_a_partial_step_up() {
    assert_eq!(exposure(100, 64), (2, 128));
    assert_eq!(exposure(128, 64), (2, 128));
    assert_eq!(exposure(0, 64), (0, 0));
    assert_eq!(exposure(1, 1), (1, 1));
}

fn model() -> ModelConfig {
    ModelConfig { context_length: 4, d_model: 16, n_heads: 4, n_layers: 2, d_ff: 32, expected_parameters: None }
}

fn training() -> ScaleTrainingConfig {
    ScaleTrainingConfig {
        batch_size: 2,
        eval_interval: 5,
        eval_batches: 1,
        learning_rate_bits: 0.001f64.to_bits(),
        weight_decay_bits: 0.0f64.to_bits(),
        seed: None,
        seeds: vec![],
        sample_tokens: default_sample_tokens(),
    }
}

fn run(name: &str, target: f64) -> ScaleRunConfig {
    ScaleRunConfig {
        name: name.to_string(),
        train_corpus: format!("{name}.txt"),
        target_tokens_per_parameter_bits: target.to_bits(),
    }
}

fn experiment() -> ScaleExperiment {
    ScaleExperiment {
        name: "reuse".to_string(),
        output_dir: "runs/reuse".to_string(),
        tokenizer_corpus: "tok.txt".to_string(),
        validation_corpus: "val.txt".to_string(),
        model: model(),
        training: training(),
        prompts: vec!["the".to_string()],
        runs: vec![run("broad", 20.0), run("small", 20.0)],
    }
}

#[test]
fn default_sample_count() {
    assert_eq!(default_sample_tokens(), 80);
}

#[test]
fn seeds_default_to_42() {
    assert_eq!(training().effective_seeds().unwrap(), vec![42]);
}

#[test]
fn single_seed_is_used() {
    let mut t = training();
    t.seed = Some(7);
    assert_eq!(t.effective_seeds().unwrap(), vec![7]);
}

#[test]
fn seed_list_is_used_in_order() {
    let mut t = training();
    t.seeds = vec![11, 42, 73];
    assert_eq!(t.effective_seeds().unwrap(), vec![11, 42, 73]);
}

#[test]
fn seed_and_seeds_together_are_refused() {
    let mut t = training();
    t.seed = Some(1);
    t.seeds = vec![2];
    assert_eq!(t.effective_seeds(), Err(ExperimentError::SeedAndSeeds));
}

#[test]
fn repeated_seeds_are_refused() {
    let mut t = training();
    t.seeds = vec![3, 4, 3];
    assert_eq!(t.effective_seeds(), Err(ExperimentError::DuplicateSeeds));
}

#[test]
fn valid_manifest_passes() {
    assert_eq!(check_spec(&experiment()), Ok(()));
}

#[test]
fn manifest_errors_come_in_order() {
    let mut e = experiment();
    e.name = "  \t".to_string();
    e.model.n_heads = 0;
    assert_eq!(check_spec(&e), Err(ExperimentError::EmptyName));

    let mut e = experiment();
    e.model.context_length = 0;
    assert_eq!(check_spec(&e), Err(ExperimentError::ZeroContextLength));

    let mut e = experiment();
    e.model.n_heads = 0;
    assert_eq!(check_spec(&e), Err(ExperimentError::ZeroHeads));

    let mut e = experiment();
    e.model.n_heads = 3;
    assert_eq!(check_spec(&e), Err(ExperimentError::WidthNotDivisibleByHeads));

    let mut e = experiment();
    e.training.batch_size = 0;
    assert_eq!(check_spec(&e), Err(ExperimentError::ZeroBatchSize));

    let mut e = experiment();
    e.training.eval_interval = 0;
    assert_eq!(check_spec(&e), Err(ExperimentError::ZeroEvalInterval));

    let mut e = experiment();
    e.training.eval_batches = 0;
    assert_eq!(check_spec(&e), Err(ExperimentError::ZeroEvalBatches));

    let mut e = experiment();
    e.training.seeds = vec![1, 1];
    assert_eq!(check_spec(&e), Err(ExperimentError::DuplicateSeeds));

    let mut e = experiment();
    e.runs.pop();
    assert_eq!(check_spec(&e), Err(ExperimentError::TooFewRuns));

    let mut e = experiment();
    e.runs.push(run("broad", 5.0));
    assert_eq!(check_spec(&e), Err(ExperimentError::DuplicateRunNames));
}

#[test]
fn validation_corpus_checks() {
    let tokenizer = CharTokenizer::train("abcd");
    assert_eq!(encode_validation(&tokenizer, "abcab", 4).unwrap(), vec![0, 1, 2, 0, 1]);
    assert_eq!(encode_validation(&tokenizer, "abca", 4), Err(ExperimentError::ValidationTooShort));
    assert_eq!(
        encode_validation(&tokenizer, "abxya", 1),
        Err(ExperimentError::ValidationUnknownCharacter('x'))
    );
}

#[test]
fn parameter_count_checks() {
    assert_eq!(check_parameter_count(None, 10), Ok(()));
    assert_eq!(check_parameter_count(Some(10), 10), Ok(()));
    assert_eq!(
        check_parameter_count(Some(11), 10),
        Err(ExperimentError::ParameterCountMismatch { expected: 11, actual: 10 })
    );
}

#[test]
fn token_target_must_be_positive() {
    assert_eq!(check_token_target(&run("a", 20.0)), Ok(()));
    assert_eq!(check_token_target(&run("a", 1e-300)), Ok(()));
    assert_eq!(check_token_target(&run("a", f64::INFINITY)), Ok(()));
    for bad in [0.0, -0.0, -1.0, f64::NAN, f64::NEG_INFINITY] {
        assert_eq!(
            check_token_target(&run("a", bad)),
            Err(ExperimentError::NonPositiveTarget { run: "a".to_string() })
        );
    }
}

#[test]
fn checked_run_gets_whole_steps() {
    let tokenizer = CharTokenizer::train("abcdef");
    let checked = check_run(
        run("broad", 20.0),
        "abcabcabd",
        "1111".to_string(),
        &"2222".to_string(),
        &tokenizer,
        4,
        8,
        20,
    )
    .unwrap();
    assert_eq!(checked.train_tokens, vec![0, 1, 2, 0, 1, 2, 0, 1, 3]);
    assert_eq!(checked.observed_token_types, 4);
    assert_eq!(checked.target_processed_tokens, 20);
    assert_eq!(checked.steps, 3);
    assert_eq!(checked.actual_processed_tokens, 24);
    assert_eq!(checked.train_sha256, "1111");
    assert_eq!(checked.config.name, "broad");
}

#[test]
fn checked_run_errors() {
    let tokenizer = CharTokenizer::train("abc");
    let same = check_run(run("r", 1.0), "abcabc", "h".to_string(), &"h".to_string(), &tokenizer, 2, 4, 8);
    assert_eq!(same.err(), Some(ExperimentError::TrainIsValidation { run: "r".to_string() }));
    let unknown = check_run(run("r", 1.0), "abzabc", "h".to_string(), &"v".to_string(), &tokenizer, 2, 4, 8);
    assert_eq!(
        unknown.err(),
        Some(ExperimentError::TrainUnknownCharacter { run: "r".to_string(), character: 'z' })
    );
    let short = check_run(run("r", 1.0), "ab", "h".to_string(), &"v".to_string(), &tokenizer, 2, 4, 8);
    assert_eq!(short.err(), Some(ExperimentError::TrainTooShort { run: "r".to_string() }));
}

fn checked_run(name: &str, actual: usize) -> CheckedRun {
    CheckedRun {
        config: run(name, 1.0),
        train_tokens: vec![0, 1, 2],
        train_sha256: format!("{name}-hash"),
        observed_token_types: 3,
        target_processed_tokens: actual,
        steps: 1,
        actual_processed_tokens: actual,
    }
}

#[test]
fn matched_budgets_group_runs_sharing_a_budget() {
    let runs = vec![
        checked_run("broad-20x", 500),
        checked_run("small-1x", 100),
        checked_run("small-20x", 500),
        checked_run("mid", 300),
        checked_run("broad-1x", 100),
    ];
    let budgets = matched_budgets(&runs);
    assert_eq!(budgets.len(), 2);
    assert_eq!(budgets[0].tokens, 100);
    assert_eq!(budgets[0].runs, vec!["small-1x".to_string(), "broad-1x".to_string()]);
    assert_eq!(budgets[1].tokens, 500);
    assert_eq!(budgets[1].runs, vec!["broad-20x".to_string(), "small-20x".to_string()]);
}

#[test]
fn no_matched_budget_when_all_differ() {
    let runs = vec![checked_run("a", 1), checked_run("b", 2)];
    assert!(matched_budgets(&runs).is_empty());
}

fn drain(mut schedule: TrainingSchedule) -> Vec<ScheduleAction> {
    let mut actions = Vec::new();
    loop {
        let action = schedule.next();
        actions.push(action);
        if action == ScheduleAction::Finish {
            return actions;
        }
    }
}

#[test]
fn schedule_evaluates_first_last_and_every_interval() {
    let actions = drain(TrainingSchedule::new(5, 2, 10));
    assert_eq!(
        actions,
        vec![
            ScheduleAction::Evaluate { step: 0, processed_tokens: 0 },
            ScheduleAction::Train { step: 0 },
            ScheduleAction::Train { step: 1 },
            ScheduleAction::Evaluate { step: 2, processed_tokens: 20 },
            ScheduleAction::Train { step: 2 },
            ScheduleAction::Train { step: 3 },
            ScheduleAction::Evaluate { step: 4, processed_tokens: 40 },
            ScheduleAction::Train { step: 4 },
            ScheduleAction::Evaluate { step: 5, processed_tokens: 50 },
            ScheduleAction::Finish,
        ]
    );
}

#[test]
fn finished_schedule_stays_finished() {
    let mut schedule = TrainingSchedule::new(0, 3, 4);
    assert_eq!(schedule.next(), ScheduleAction::Evaluate { step: 0, processed_tokens: 0 });
    assert_eq!(schedule.next(), ScheduleAction::Finish);
    assert_eq!(schedule.next(), ScheduleAction::Finish);
}

#[test]
fn evaluation_seeds_are_derived_from_the_run_seed() {
    assert_eq!(evaluation_seeds(0), (0x0054_5241_494e, 0x0056_414c_4944));
    assert_eq!(evaluation_seeds(42), (42 ^ 0x0054_5241_494e, 42 ^ 0x0056_414c_4944));
}

#[test]
fn dataset_artifact_records_the_run() {
    let tokenizer = CharTokenizer::train("abc");
    let spec = experiment();
    let runs = vec![checked_run("broad", 8)];
    let checked = CheckedExperiment::assemble(
        spec,
        tokenizer,
        "tok".to_string(),
        vec![0, 1, 2, 0],
        "val".to_string(),
        1234,
        runs,
        "corpus",
    )
    .unwrap();
    let artifact = DatasetArtifact::for_run(&checked, &checked.runs[0], "corpus".to_string());
    assert_eq!(artifact.tokenizer_corpus_sha256, "corpus");
    assert_eq!(artifact.tokenizer_sha256, "tok");
    assert_eq!(artifact.train_sha256, "broad-hash");
    assert_eq!(artifact.validation_sha256, "val");
    assert_eq!(artifact.train_corpus_tokens, 3);
    assert_eq!(artifact.validation_corpus_tokens, 4);
    assert_eq!(artifact.tokenizer_vocab_size, 3);
    assert_eq!(artifact.observed_train_token_types, 3);
}

#[test]
fn empty_tokenizer_corpus_hash_is_refused() {
    let result = CheckedExperiment::assemble(
        experiment(),
        CharTokenizer::train("a"),
        "t".to_string(),
        vec![],
        "v".to_string(),
        1,
        vec![],
        "",
    );
    assert_eq!(result.err(), Some(ExperimentError::EmptyTokenizerHash));
}
