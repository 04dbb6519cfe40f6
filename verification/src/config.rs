//! The single-run configuration and its validation.
//!
//! Real-valued settings are held as the bit patterns of their IEEE-754 `f64`
//! values (`f64::to_bits`), so that the checks on them are exact integer logic.
use vstd::prelude::*;

verus! {

/// Shape of the Transformer.
#[derive(Debug, Clone)]
pub struct ModelConfig {
    pub context_length: usize,
    pub d_model: usize,
    pub n_heads: usize,
    pub n_layers: usize,
    pub d_ff: usize,
    /// When present, the parameter count that the instantiated model must have.
    pub expected_parameters: Option<usize>,
}

/// Where the training text is and how much of it trains.
#[derive(Debug, Clone)]
pub struct DataConfig {
    pub path: String,
    /// Bit pattern of the fraction of tokens used for training.
    pub train_fraction_bits: u64,
}

/// Optimizer and evaluation settings of a single run.
#[derive(Debug, Clone)]
pub struct TrainingConfig {
    pub batch_size: usize,
    pub steps: usize,
    pub eval_interval: usize,
    pub eval_batches: usize,
    /// Bit pattern of the learning rate.
    pub learning_rate_bits: u64,
    /// Bit pattern of the weight decay.
    pub weight_decay_bits: u64,
    pub seed: u64,
}

/// A single training run.
#[derive(Debug, Clone)]
pub struct ExperimentConfig {
    pub data: DataConfig,
    pub model: ModelConfig,
    pub training: TrainingConfig,
    pub output_dir: String,
}

/// Which requirement a configuration breaks.
#[derive(Debug, Clone, Copy, PartialEq, Eq, Structural)]
pub enum ConfigError {
    TrainFractionOutOfRange,
    ZeroContextLength,
    ZeroHeads,
    WidthNotDivisibleByHeads,
    ZeroBatchSize,
    ZeroSteps,
    ZeroEvalInterval,
    ZeroEvalBatches,
}

/// The seed used when none is configured.
pub fn default_seed() -> (seed: u64)
    ensures
        seed == 42,
{
    42
}

/// Bit pattern of `1.0f64`.
pub const ONE_F64_BITS: u64 = 0x3FF0_0000_0000_0000;

/// Bit pattern of `-0.0f64`.
pub const NEGATIVE_ZERO_F64_BITS: u64 = 0x8000_0000_0000_0000;

/// Whether the `f64` with these bits lies in `0.0..1.0`: `+0.0` and the positive
/// values below one have patterns below that of `1.0`, and `-0.0` equals `0.0`;
/// negative values, NaN and values from one up fail.
pub open spec fn unit_interval_bits(bits: u64) -> bool {
    bits < ONE_F64_BITS || bits == NEGATIVE_ZERO_F64_BITS
}

/// Whether the `f64` with these bits is greater than `0.0`: the positive
/// values, `+inf` included, have patterns from 1 up to that of `+inf`.
pub open spec fn positive_bits(bits: u64) -> bool {
    0 < bits && bits <= 0x7FF0_0000_0000_0000
}

/// `(0.0..1.0).contains(x)` for the `f64` with these bits.
pub fn in_unit_interval(bits: u64) -> (res: bool)
    ensures
        res == unit_interval_bits(bits),
{
    bits < ONE_F64_BITS || bits == NEGATIVE_ZERO_F64_BITS
}

/// `x > 0.0` for the `f64` with these bits.
pub fn is_positive(bits: u64) -> (res: bool)
    ensures
        res == positive_bits(bits),
{
    0 < bits && bits <= 0x7FF0_0000_0000_0000
}

/// The first requirement that a configuration breaks, in the order they are checked.
pub open spec fn config_error(c: ExperimentConfig) -> Option<ConfigError> {
    if !unit_interval_bits(c.data.train_fraction_bits) {
        Some(ConfigError::TrainFractionOutOfRange)
    } else if c.model.context_length == 0 {
        Some(ConfigError::ZeroContextLength)
    } else if c.model.n_heads == 0 {
        Some(ConfigError::ZeroHeads)
    } else if c.model.d_model % c.model.n_heads != 0 {
        Some(ConfigError::WidthNotDivisibleByHeads)
    } else if c.training.batch_size == 0 {
        Some(ConfigError::ZeroBatchSize)
    } else if c.training.steps == 0 {
        Some(ConfigError::ZeroSteps)
    } else if c.training.eval_interval == 0 {
        Some(ConfigError::ZeroEvalInterval)
    } else if c.training.eval_batches == 0 {
        Some(ConfigError::ZeroEvalBatches)
    } else {
        None
    }
}

impl ExperimentConfig {
    /// Checks that the training fraction lies in `[0, 1)`, that the context,
    /// heads, batch, steps, evaluation interval and evaluation batches are
    /// positive, and that the width divides evenly among the heads.
    pub fn validate(&self) -> (res: Result<(), ConfigError>)
        ensures
            match config_error(*self) {
                Some(e) => res == Err::<(), ConfigError>(e),
                None => res is Ok,
            },
    {
        if !in_unit_interval(self.data.train_fraction_bits) {
            return Err(ConfigError::TrainFractionOutOfRange);
        }
        if self.model.context_length == 0 {
            return Err(ConfigError::ZeroContextLength);
        }
        if self.model.n_heads == 0 {
            return Err(ConfigError::ZeroHeads);
        }
        if self.model.d_model % self.model.n_heads != 0 {
            return Err(ConfigError::WidthNotDivisibleByHeads);
        }
        if self.training.batch_size == 0 {
            return Err(ConfigError::ZeroBatchSize);
        }
        if self.training.steps == 0 {
            return Err(ConfigError::ZeroSteps);
        }
        if self.training.eval_interval == 0 {
            return Err(ConfigError::ZeroEvalInterval);
        }
        if self.training.eval_batches == 0 {
            return Err(ConfigError::ZeroEvalBatches);
        }
        Ok(())
    }
}

} // verus!
