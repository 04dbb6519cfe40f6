use scalelab_rs::config::{
    default_seed, in_unit_interval, is_positive, ConfigError, DataConfig, ExperimentConfig, ModelConfig, TrainingConfig,
};

fn config() -> ExperimentConfig {
    ExperimentConfig {
        data: DataConfig { path: "data.txt".to_string(), train_fraction_bits: 0.9f64.to_bits() },
        model: ModelConfig { context_length: 16, d_model: 32, n_heads: 4, n_layers: 2, d_ff: 64, expected_parameters: None },
        training: TrainingConfig {
            batch_size: 4,
            steps: 100,
            eval_interval: 10,
            eval_batches: 2,
            learning_rate_bits: 0.003f64.to_bits(),
            weight_decay_bits: 0.01f64.to_bits(),
            seed: default_seed(),
        },
        output_dir: "runs/test".to_string(),
    }
}

#[test]
fn default_seed_is_42() {
    assert_eq!(default_seed(), 42);
}

#[test]
fn valid_config_passes() {
    assert_eq!(config().validate(), Ok(()));
}

#[test]
fn config_errors_come_in_order() {
    let mut c = config();
    c.data.train_fraction_bits = 1.0f64.to_bits();
    c.model.context_length = 0;
    assert_eq!(c.validate(), Err(ConfigError::TrainFractionOutOfRange));

    let mut c = config();
    c.model.context_length = 0;
    assert_eq!(c.validate(), Err(ConfigError::ZeroContextLength));

    let mut c = config();
    c.model.n_heads = 0;
    assert_eq!(c.validate(), Err(ConfigError::ZeroHeads));

    let mut c = config();
    c.model.n_heads = 5;
    assert_eq!(c.validate(), Err(ConfigError::WidthNotDivisibleByHeads));

    let mut c = config();
    c.training.batch_size = 0;
    assert_eq!(c.validate(), Err(ConfigError::ZeroBatchSize));

    let mut c = config();
    c.training.steps = 0;
    assert_eq!(c.validate(), Err(ConfigError::ZeroSteps));

    let mut c = config();
    c.training.eval_interval = 0;
    assert_eq!(c.validate(), Err(ConfigError::ZeroEvalInterval));

    let mut c = config();
    c.training.eval_batches = 0;
    assert_eq!(c.validate(), Err(ConfigError::ZeroEvalBatches));
}

#[test]
fn unit_interval_matches_float_comparison() {
    let samples = [
        0.0, -0.0, 0.5, 0.9, 0.999_999, 1.0 - f64::EPSILON / 2.0, 1.0, 1.5, -0.1, f64::MIN_POSITIVE, 5e-324,
        f64::NAN, f64::INFINITY, f64::NEG_INFINITY,
    ];
    for x in samples {
        assert_eq!(in_unit_interval(x.to_bits()), (0.0..1.0).contains(&x), "{x}");
    }
}

#[test]
fn positivity_matches_float_comparison() {
    let samples = [0.0, -0.0, 1.0, 20.0, 5e-324, -5e-324, f64::NAN, -f64::NAN, f64::INFINITY, f64::NEG_INFINITY, f64::MAX];
    for x in samples {
        assert_eq!(is_positive(x.to_bits()), x > 0.0, "{x}");
    }
}
