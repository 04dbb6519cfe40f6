//! Controlled multi-run experiments: the preflight that checks a manifest and
//! its corpora, the exposure arithmetic that turns a token budget into whole
//! optimizer steps, and the schedule of training and evaluation steps.
use vstd::prelude::*;
use std::collections::HashSet;
use crate::config::{ModelConfig, positive_bits, is_positive};
use crate::data::{CharTokenizer, TokenizerError, encodable, encoded};
use crate::text::{blank, is_blank};

verus! {

broadcast use vstd::std_specs::hash::group_hash_axioms;

/// A manifest of runs that share a model, tokenizer corpus and validation corpus.
#[derive(Debug, Clone)]
pub struct ScaleExperiment {
    pub name: String,
    pub output_dir: String,
    pub tokenizer_corpus: String,
    pub validation_corpus: String,
    pub model: ModelConfig,
    pub training: ScaleTrainingConfig,
    pub prompts: Vec<String>,
    pub runs: Vec<ScaleRunConfig>,
}

/// Training settings shared by every run of an experiment. Real values are
/// held as the bit patterns of their `f64` values.
#[derive(Debug, Clone)]
pub struct ScaleTrainingConfig {
    pub batch_size: usize,
    pub eval_interval: usize,
    pub eval_batches: usize,
    pub learning_rate_bits: u64,
    pub weight_decay_bits: u64,
    pub seed: Option<u64>,
    pub seeds: Vec<u64>,
    pub sample_tokens: usize,
}

/// One run: its training corpus and how many tokens per parameter it processes.
#[derive(Debug, Clone)]
pub struct ScaleRunConfig {
    pub name: String,
    pub train_corpus: String,
    /// Bit pattern of the processed-token target per parameter.
    pub target_tokens_per_parameter_bits: u64,
}

impl ScaleRunConfig {
    /// An equal copy of the run's configuration.
    pub fn copied(&self) -> (res: Self)
        ensures
            res == *self,
    {
        ScaleRunConfig {
            name: self.name.clone(),
            train_corpus: self.train_corpus.clone(),
            target_tokens_per_parameter_bits: self.target_tokens_per_parameter_bits,
        }
    }
}

/// Why an experiment fails its preflight.
#[derive(Debug, Clone, PartialEq, Eq)]
pub enum ExperimentError {
    EmptyName,
    ZeroContextLength,
    ZeroHeads,
    WidthNotDivisibleByHeads,
    ZeroBatchSize,
    ZeroEvalInterval,
    ZeroEvalBatches,
    /// Both `seed` and `seeds` are configured.
    SeedAndSeeds,
    DuplicateSeeds,
    TooFewRuns,
    DuplicateRunNames,
    /// The validation corpus has a character that the tokenizer corpus lacks.
    ValidationUnknownCharacter(char),
    ValidationTooShort,
    ParameterCountMismatch { expected: usize, actual: usize },
    NonPositiveTarget { run: String },
    TrainIsValidation { run: String },
    TrainUnknownCharacter { run: String, character: char },
    TrainTooShort { run: String },
    EmptyTokenizerHash,
}

/// The number of samples generated per prompt when none is configured.
pub fn default_sample_tokens() -> (n: usize)
    ensures
        n == 80,
{
    80
}

// ---------------------------------------------------------------------------
// Seeds

/// The seeds an experiment is replicated over: the configured list, or else the
/// single configured seed, or else 42.
pub open spec fn seed_list(t: ScaleTrainingConfig) -> Seq<u64> {
    if t.seeds@.len() == 0 {
        seq![
            match t.seed {
                Some(s) => s,
                None => 42,
            },
        ]
    } else {
        t.seeds@
    }
}

/// What is wrong with the seed settings, if anything.
pub open spec fn seeds_error(t: ScaleTrainingConfig) -> Option<ExperimentError> {
    if t.seed is Some && t.seeds@.len() > 0 {
        Some(ExperimentError::SeedAndSeeds)
    } else if !seed_list(t).no_duplicates() {
        Some(ExperimentError::DuplicateSeeds)
    } else {
        None
    }
}

impl ScaleTrainingConfig {
    /// The seeds to replicate over, refusing both `seed` and `seeds` at once and
    /// repeated seeds.
    #[verifier::loop_isolation(false)]
    pub fn effective_seeds(&self) -> (res: Result<Vec<u64>, ExperimentError>)
        ensures
            match seeds_error(*self) {
                Some(e) => res == Err::<Vec<u64>, ExperimentError>(e),
                None => res matches Ok(seeds) && seeds@ == seed_list(*self),
            },
    {
        if self.seed.is_some() && self.seeds.len() > 0 {
            return Err(ExperimentError::SeedAndSeeds);
        }
        let seeds: Vec<u64> = if self.seeds.len() == 0 {
            let s = match self.seed {
                Some(s) => s,
                None => 42,
            };
            vec![s]
        } else {
            self.seeds.clone()
        };
        assert(seeds@ =~= seed_list(*self));
        let mut seen: HashSet<u64> = HashSet::new();
        let mut i: usize = 0;
        while i < seeds.len()
            invariant
                i <= seeds@.len(),
                seen@ == seeds@.take(i as int).to_set(),
                seeds@.take(i as int).no_duplicates(),
            decreases seeds@.len() - i,
        {
            let fresh = seen.insert(seeds[i]);
            assert(seeds@.take(i + 1) =~= seeds@.take(i as int) + seq![seeds@[i as int]]);
            proof {
                Seq::lemma_to_set_insert_commutes(seeds@.take(i as int), seeds@[i as int]);
            }
            if !fresh {
                assert(seeds@.take(i as int).contains(seeds@[i as int]));
                let ghost j = choose|j: int| 0 <= j < i && seeds@.take(i as int)[j] == seeds@[i as int];
                assert(seeds@[j] == seeds@[i as int]);
                assert(!seeds@.no_duplicates());
                return Err(ExperimentError::DuplicateSeeds);
            }
            assert(seeds@.take(i + 1).no_duplicates()) by {
                let next = seeds@.take(i + 1);
                assert forall|a: int, b: int| 0 <= a < next.len() && 0 <= b < next.len() && a != b implies #[trigger] next[a] != #[trigger] next[b] by {
                    if b == i {
                        assert(seeds@.take(i as int)[a] == seeds@[a]);
                        assert(seeds@.take(i as int).contains(seeds@[a]));
                    }
                }
            }
            i = i + 1;
        }
        assert(seeds@.take(i as int) =~= seeds@);
        Ok(seeds)
    }
}

// ---------------------------------------------------------------------------
// Manifest checks

/// No two runs share a name.
pub open spec fn names_distinct(runs: Seq<ScaleRunConfig>) -> bool {
    forall|i: int, j: int| 0 <= i < j < runs.len() ==> runs[i].name@ != runs[j].name@
}

/// The first requirement of the manifest itself that an experiment breaks.
pub open spec fn spec_error(e: ScaleExperiment) -> Option<ExperimentError> {
    if blank(e.name@) {
        Some(ExperimentError::EmptyName)
    } else if e.model.context_length == 0 {
        Some(ExperimentError::ZeroContextLength)
    } else if e.model.n_heads == 0 {
        Some(ExperimentError::ZeroHeads)
    } else if e.model.d_model % e.model.n_heads != 0 {
        Some(ExperimentError::WidthNotDivisibleByHeads)
    } else if e.training.batch_size == 0 {
        Some(ExperimentError::ZeroBatchSize)
    } else if e.training.eval_interval == 0 {
        Some(ExperimentError::ZeroEvalInterval)
    } else if e.training.eval_batches == 0 {
        Some(ExperimentError::ZeroEvalBatches)
    } else if seeds_error(e.training) is Some {
        seeds_error(e.training)
    } else if e.runs@.len() < 2 {
        Some(ExperimentError::TooFewRuns)
    } else if !names_distinct(e.runs@) {
        Some(ExperimentError::DuplicateRunNames)
    } else {
        None
    }
}

/// A manifest passes its own checks only if it has at least two runs and no
/// two of its runs share a name.
pub proof fn lemma_passing_manifest_names_differ(e: ScaleExperiment)
    ensures
        spec_error(e) is None ==> e.runs@.len() >= 2 && forall|i: int, j: int|
            0 <= i < j < e.runs@.len() ==> e.runs@[i].name@ != e.runs@[j].name@,
{
}

/// Checks the manifest before any file is read: a non-blank name, a positive
/// context, head count, batch size, evaluation interval and evaluation batch
/// count, a width divisible by the heads, valid seeds, and at least two runs
/// with distinct names.
#[verifier::loop_isolation(false)]
pub fn check_spec(spec: &ScaleExperiment) -> (res: Result<(), ExperimentError>)
    ensures
        match spec_error(*spec) {
            Some(e) => res == Err::<(), ExperimentError>(e),
            None => res is Ok,
        },
        res is Ok ==> spec.runs@.len() >= 2 && forall|i: int, j: int|
            0 <= i < j < spec.runs@.len() ==> spec.runs@[i].name@ != spec.runs@[j].name@,
{
    proof {
        lemma_passing_manifest_names_differ(*spec);
    }
    if is_blank(spec.name.as_str()) {
        return Err(ExperimentError::EmptyName);
    }
    if spec.model.context_length == 0 {
        return Err(ExperimentError::ZeroContextLength);
    }
    if spec.model.n_heads == 0 {
        return Err(ExperimentError::ZeroHeads);
    }
    if spec.model.d_model % spec.model.n_heads != 0 {
        return Err(ExperimentError::WidthNotDivisibleByHeads);
    }
    if spec.training.batch_size == 0 {
        return Err(ExperimentError::ZeroBatchSize);
    }
    if spec.training.eval_interval == 0 {
        return Err(ExperimentError::ZeroEvalInterval);
    }
    if spec.training.eval_batches == 0 {
        return Err(ExperimentError::ZeroEvalBatches);
    }
    match spec.training.effective_seeds() {
        Err(e) => return Err(e),
        Ok(_) => {},
    }
    if spec.runs.len() < 2 {
        return Err(ExperimentError::TooFewRuns);
    }
    let n = spec.runs.len();
    let mut i: usize = 0;
    while i < n
        invariant
            n == spec.runs@.len(),
            i <= n,
            forall|a: int, b: int| 0 <= a < b < n && a < i ==> spec.runs@[a].name@ != spec.runs@[b].name@,
        decreases n - i,
    {
        let mut j: usize = i + 1;
        while j < n
            invariant
                n == spec.runs@.len(),
                i < n,
                i + 1 <= j <= n,
                forall|a: int, b: int| 0 <= a < b < n && a < i ==> spec.runs@[a].name@ != spec.runs@[b].name@,
                forall|b: int| i < b < j ==> spec.runs@[i as int].name@ != spec.runs@[b].name@,
            decreases n - j,
        {
            if spec.runs[i].name == spec.runs[j].name {
                assert(!names_distinct(spec.runs@));
                return Err(ExperimentError::DuplicateRunNames);
            }
            j = j + 1;
        }
        i = i + 1;
    }
    Ok(())
}

/// Encodes the validation corpus with the frozen tokenizer and checks that it
/// holds more tokens than one context.
pub fn encode_validation(tokenizer: &CharTokenizer, text: &str, context_length: usize)
    -> (res: Result<Vec<u32>, ExperimentError>)
    ensures
        !encodable(tokenizer@.1, text@) ==> exists|i: int|
            0 <= i < text@.len() && !tokenizer@.1.contains_key(text@[i] as u32)
                && encodable(tokenizer@.1, text@.take(i))
                && res == Err::<Vec<u32>, ExperimentError>(ExperimentError::ValidationUnknownCharacter(text@[i])),
        encodable(tokenizer@.1, text@) && text@.len() <= context_length ==>
            res == Err::<Vec<u32>, ExperimentError>(ExperimentError::ValidationTooShort),
        encodable(tokenizer@.1, text@) && text@.len() > context_length ==>
            (res matches Ok(tokens) && tokens@ == encoded(tokenizer@.1, text@)),
{
    match tokenizer.encode(text) {
        Err(TokenizerError::UnknownCharacter(c)) => Err(ExperimentError::ValidationUnknownCharacter(c)),
        Err(TokenizerError::UnknownTokenId(_)) => {
            proof {
                assert(false);
            }
            Err(ExperimentError::ValidationTooShort)
        },
        Ok(tokens) => {
            if tokens.len() <= context_length {
                Err(ExperimentError::ValidationTooShort)
            } else {
                Ok(tokens)
            }
        },
    }
}

/// Checks the instantiated parameter count against the expected one, if any.
pub fn check_parameter_count(expected: Option<usize>, actual: usize) -> (res: Result<(), ExperimentError>)
    ensures
        match expected {
            Some(e) if e != actual => res == Err::<(), ExperimentError>(
                ExperimentError::ParameterCountMismatch { expected: e, actual },
            ),
            _ => res is Ok,
        },
{
    match expected {
        Some(e) => {
            if e != actual {
                return Err(ExperimentError::ParameterCountMismatch { expected: e, actual });
            }
            Ok(())
        },
        None => Ok(()),
    }
}

/// Checks that a run asks for a positive number of tokens per parameter.
pub fn check_token_target(run: &ScaleRunConfig) -> (res: Result<(), ExperimentError>)
    ensures
        positive_bits(run.target_tokens_per_parameter_bits) ==> res is Ok,
        !positive_bits(run.target_tokens_per_parameter_bits) ==> res == Err::<(), ExperimentError>(
            ExperimentError::NonPositiveTarget { run: run.name },
        ),
{
    if is_positive(run.target_tokens_per_parameter_bits) {
        Ok(())
    } else {
        Err(ExperimentError::NonPositiveTarget { run: run.name.clone() })
    }
}

// ---------------------------------------------------------------------------
// Exposure

/// Optimizer steps needed to process at least `target` tokens, `per_step` at a time.
pub open spec fn steps_for(target: nat, per_step: nat) -> nat
    recommends
        per_step > 0,
{
    (target / per_step + if target % per_step != 0 { 1nat } else { 0nat }) as nat
}

/// Whether the tokens processed by those steps fit in a `usize`.
pub open spec fn exposure_fits(target: nat, per_step: nat) -> bool {
    per_step > 0 && steps_for(target, per_step) * per_step <= usize::MAX
}

/// Whole optimizer steps cover the target: they process at least the target
/// and fewer than one step more.
pub proof fn lemma_steps_cover_target(target: nat, per_step: nat)
    requires
        per_step > 0,
    ensures
        steps_for(target, per_step) * per_step >= target,
        steps_for(target, per_step) * per_step < target + per_step,
{
    let q = target / per_step;
    let r = target % per_step;
    assert(target == q * per_step + r && 0 <= r < per_step) by (nonlinear_arith)
        requires per_step > 0, q == target / per_step, r == target % per_step;
    if r != 0 {
        assert((q + 1) * per_step == q * per_step + per_step) by (nonlinear_arith);
    }
}

/// The steps needed for a target and the tokens they actually process.
pub fn exposure(target_processed_tokens: usize, tokens_per_step: usize) -> (res: (usize, usize))
    requires
        exposure_fits(target_processed_tokens as nat, tokens_per_step as nat),
    ensures
        res.0 == steps_for(target_processed_tokens as nat, tokens_per_step as nat),
        res.1 == res.0 * tokens_per_step,
        res.1 >= target_processed_tokens,
        res.1 < target_processed_tokens + tokens_per_step,
{
    let q = target_processed_tokens / tokens_per_step;
    assert(target_processed_tokens % tokens_per_step != 0 ==> q < usize::MAX) by (nonlinear_arith)
        requires
            tokens_per_step > 0,
            q == target_processed_tokens / tokens_per_step,
            target_processed_tokens <= usize::MAX,
    ;
    let steps = q + if target_processed_tokens % tokens_per_step != 0 {
        1
    } else {
        0
    };
    proof {
        lemma_steps_cover_target(target_processed_tokens as nat, tokens_per_step as nat);
    }
    (steps, steps * tokens_per_step)
}

// ---------------------------------------------------------------------------
// Checked runs

/// A run that passed its checks, with its encoded corpus and token budget.
#[derive(Debug, Clone)]
pub struct CheckedRun {
    pub config: ScaleRunConfig,
    pub train_tokens: Vec<u32>,
    pub train_sha256: String,
    pub observed_token_types: usize,
    pub target_processed_tokens: usize,
    pub steps: usize,
    pub actual_processed_tokens: usize,
}

/// An experiment that passed its preflight.
#[derive(Debug, Clone)]
pub struct CheckedExperiment {
    pub spec: ScaleExperiment,
    pub tokenizer: CharTokenizer,
    pub tokenizer_sha256: String,
    pub validation_tokens: Vec<u32>,
    pub validation_sha256: String,
    pub parameter_count: usize,
    pub runs: Vec<CheckedRun>,
}

/// What checking one run's training corpus gives: refusal when it is the
/// validation corpus (same fingerprint), else refusal at its first character
/// outside the tokenizer, else refusal when it holds no more tokens than one
/// context; otherwise the run with its encoded corpus and the whole steps that
/// cover its token target.
pub open spec fn run_outcome(
    res: Result<CheckedRun, ExperimentError>,
    run: ScaleRunConfig,
    train_text: Seq<char>,
    train_sha256: String,
    validation_sha256: Seq<char>,
    index: Map<u32, u32>,
    context_length: usize,
    tokens_per_step: usize,
    target_processed_tokens: usize,
) -> bool {
    &&& train_sha256@ == validation_sha256 ==> res == Err::<CheckedRun, ExperimentError>(
        ExperimentError::TrainIsValidation { run: run.name },
    )
    &&& train_sha256@ != validation_sha256 && !encodable(index, train_text) ==> exists|i: int|
        0 <= i < train_text.len() && !index.contains_key(train_text[i] as u32)
            && encodable(index, train_text.take(i))
            && res == Err::<CheckedRun, ExperimentError>(
            ExperimentError::TrainUnknownCharacter { run: run.name, character: train_text[i] },
        )
    &&& train_sha256@ != validation_sha256 && encodable(index, train_text) && train_text.len() <= context_length
        ==> res == Err::<CheckedRun, ExperimentError>(ExperimentError::TrainTooShort { run: run.name })
    &&& train_sha256@ != validation_sha256 && encodable(index, train_text) && train_text.len() > context_length
        ==> (res matches Ok(checked) && {
        &&& checked.config == run
        &&& checked.train_tokens@ == encoded(index, train_text)
        &&& checked.train_sha256 == train_sha256
        &&& checked.observed_token_types == checked.train_tokens@.to_set().len()
        &&& checked.target_processed_tokens == target_processed_tokens
        &&& checked.steps == steps_for(target_processed_tokens as nat, tokens_per_step as nat)
        &&& checked.actual_processed_tokens == checked.steps * tokens_per_step
    })
}

/// Checks one run's training corpus: it must differ from the validation corpus,
/// use only characters of the frozen tokenizer and hold more tokens than one
/// context; the run then gets whole steps covering its token target.
pub fn check_run(
    run: ScaleRunConfig,
    train_text: &str,
    train_sha256: String,
    validation_sha256: &String,
    tokenizer: &CharTokenizer,
    context_length: usize,
    tokens_per_step: usize,
    target_processed_tokens: usize,
) -> (res: Result<CheckedRun, ExperimentError>)
    requires
        exposure_fits(target_processed_tokens as nat, tokens_per_step as nat),
    ensures
        run_outcome(
            res,
            run,
            train_text@,
            train_sha256,
            validation_sha256@,
            tokenizer@.1,
            context_length,
            tokens_per_step,
            target_processed_tokens,
        ),
{
    if train_sha256 == *validation_sha256 {
        return Err(ExperimentError::TrainIsValidation { run: run.name.clone() });
    }
    let train_tokens = match tokenizer.encode(train_text) {
        Ok(tokens) => tokens,
        Err(TokenizerError::UnknownCharacter(c)) => {
            return Err(ExperimentError::TrainUnknownCharacter { run: run.name.clone(), character: c });
        },
        Err(TokenizerError::UnknownTokenId(_)) => {
            proof {
                assert(false);
            }
            return Err(ExperimentError::TrainTooShort { run: run.name.clone() });
        },
    };
    if train_tokens.len() <= context_length {
        return Err(ExperimentError::TrainTooShort { run: run.name.clone() });
    }
    let (steps, actual_processed_tokens) = exposure(target_processed_tokens, tokens_per_step);
    let observed_token_types = tokenizer.observed_token_types(train_tokens.as_slice());
    Ok(CheckedRun {
        config: run,
        train_tokens,
        train_sha256,
        observed_token_types,
        target_processed_tokens,
        steps,
        actual_processed_tokens,
    })
}

impl CheckedExperiment {
    /// Assembles the checked experiment once every run passed, refusing an
    /// empty fingerprint of the tokenizer corpus.
    pub fn assemble(
        spec: ScaleExperiment,
        tokenizer: CharTokenizer,
        tokenizer_sha256: String,
        validation_tokens: Vec<u32>,
        validation_sha256: String,
        parameter_count: usize,
        runs: Vec<CheckedRun>,
        tokenizer_corpus_sha256: &str,
    ) -> (res: Result<CheckedExperiment, ExperimentError>)
        ensures
            tokenizer_corpus_sha256@.len() == 0 ==> res == Err::<CheckedExperiment, ExperimentError>(
                ExperimentError::EmptyTokenizerHash,
            ),
            tokenizer_corpus_sha256@.len() > 0 ==> res == Ok::<CheckedExperiment, ExperimentError>(
                CheckedExperiment {
                    spec,
                    tokenizer,
                    tokenizer_sha256,
                    validation_tokens,
                    validation_sha256,
                    parameter_count,
                    runs,
                },
            ),
    {
        if tokenizer_corpus_sha256.is_empty() {
            return Err(ExperimentError::EmptyTokenizerHash);
        }
        Ok(CheckedExperiment {
            spec,
            tokenizer,
            tokenizer_sha256,
            validation_tokens,
            validation_sha256,
            parameter_count,
            runs,
        })
    }
}

impl CheckedExperiment {
    /// Tokens processed per optimizer step.
    pub open spec fn tokens_per_step(&self) -> int {
        self.spec.training.batch_size * self.spec.model.context_length
    }
}

// ---------------------------------------------------------------------------
// Matched budgets

/// Names of the runs, in order, that process exactly `tokens` tokens.
pub open spec fn budget_names(runs: Seq<CheckedRun>, tokens: usize) -> Seq<Seq<char>>
    decreases runs.len(),
{
    if runs.len() == 0 {
        Seq::<Seq<char>>::empty()
    } else {
        let rest = budget_names(runs.drop_last(), tokens);
        if runs.last().actual_processed_tokens == tokens {
            rest.push(runs.last().config.name@)
        } else {
            rest
        }
    }
}

/// The views of a list of strings.
pub open spec fn string_views(v: Seq<String>) -> Seq<Seq<char>> {
    v.map_values(|s: String| s@)
}

/// A processed-token budget that several runs share.
pub struct MatchedBudget {
    pub tokens: usize,
    pub runs: Vec<String>,
}

/// The processed-token budgets shared by more than one run, in increasing
/// order, each with the names of its runs in run order.
pub fn matched_budgets(runs: &[CheckedRun]) -> (res: Vec<MatchedBudget>)
    ensures
        forall|i: int, j: int| 0 <= i < j < res@.len() ==> res@[i].tokens < res@[j].tokens,
        forall|i: int| 0 <= i < res@.len() ==> {
            &&& string_views(#[trigger] res@[i].runs@) == budget_names(runs@, res@[i].tokens)
            &&& res@[i].runs@.len() > 1
        },
        forall|k: int| 0 <= k < runs@.len() && budget_names(runs@, #[trigger] runs@[k].actual_processed_tokens).len()
            > 1 ==> exists|i: int| 0 <= i < res@.len() && res@[i].tokens == runs@[k].actual_processed_tokens,
{
    // The distinct budgets, in increasing order.
    let mut budgets: Vec<usize> = Vec::new();
    let mut k: usize = 0;
    while k < runs.len()
        invariant
            k <= runs@.len(),
            forall|a: int, b: int| 0 <= a < b < budgets@.len() ==> budgets@[a] < budgets@[b],
            forall|t: usize| budgets@.contains(t) <==> exists|r: int| 0 <= r < k && runs@[r].actual_processed_tokens == t,
        decreases runs@.len() - k,
    {
        let t = runs[k].actual_processed_tokens;
        let mut p: usize = 0;
        while p < budgets.len() && budgets[p] < t
            invariant
                p <= budgets@.len(),
                forall|a: int| 0 <= a < p ==> budgets@[a] < t,
            decreases budgets@.len() - p,
        {
            p = p + 1;
        }
        let ghost before = budgets@;
        if p < budgets.len() && budgets[p] == t {
            assert(before.contains(t));
        } else {
            budgets.insert(p, t);
            proof {
                before.insert_ensures(p as int, t);
                assert forall|a: int, b: int| 0 <= a < b < budgets@.len() implies budgets@[a] < budgets@[b] by {
                    if a < p && b > p {
                        assert(budgets@[b] == before[b - 1]);
                        assert(before[p as int] > t);
                    } else if a == p && b > p {
                        assert(budgets@[b] == before[b - 1]);
                        assert(before[p as int] > t);
                    } else if a > p {
                        assert(budgets@[b] == before[b - 1]);
                        assert(budgets@[a] == before[a - 1]);
                    }
                }
            }
        }
        assert forall|u: usize| budgets@.contains(u) <==> exists|r: int| 0 <= r < k + 1 && runs@[r].actual_processed_tokens == u by {
            if budgets@.contains(u) {
                let i = choose|i: int| 0 <= i < budgets@.len() && budgets@[i] == u;
                if u != t {
                    if i < p {
                        assert(before[i] == u);
                    } else if i > p || (i == p && before.len() > p && before[p as int] == t) {
                        if budgets@.len() == before.len() {
                            assert(before[i] == u);
                        } else {
                            assert(before[i - 1] == u);
                        }
                    }
                    assert(before.contains(u));
                }
            }
            if exists|r: int| 0 <= r < k + 1 && runs@[r].actual_processed_tokens == u {
                let r = choose|r: int| 0 <= r < k + 1 && runs@[r].actual_processed_tokens == u;
                if r < k {
                    assert(before.contains(u));
                    let i = choose|i: int| 0 <= i < before.len() && before[i] == u;
                    if budgets@.len() == before.len() {
                        assert(budgets@[i] == u);
                    } else if i < p {
                        assert(budgets@[i] == u);
                    } else {
                        assert(budgets@[i + 1] == u);
                    }
                } else {
                    assert(budgets@[p as int] == u);
                }
            }
        }
        k = k + 1;
    }
    // The runs of each budget.
    let mut res: Vec<MatchedBudget> = Vec::new();
    let mut b: usize = 0;
    while b < budgets.len()
        invariant
            b <= budgets@.len(),
            forall|x: int, y: int| 0 <= x < y < budgets@.len() ==> budgets@[x] < budgets@[y],
            forall|t: usize| budgets@.contains(t) <==> exists|r: int| 0 <= r < runs@.len() && runs@[r].actual_processed_tokens == t,
            forall|i: int, j: int| 0 <= i < j < res@.len() ==> res@[i].tokens < res@[j].tokens,
            forall|i: int| 0 <= i < res@.len() ==> {
                &&& string_views(#[trigger] res@[i].runs@) == budget_names(runs@, res@[i].tokens)
                &&& res@[i].runs@.len() > 1
                &&& exists|x: int| 0 <= x < b && budgets@[x] == res@[i].tokens
            },
            forall|x: int| 0 <= x < b && budget_names(runs@, #[trigger] budgets@[x]).len() > 1 ==> exists|i: int|
                0 <= i < res@.len() && res@[i].tokens == budgets@[x],
        decreases budgets@.len() - b,
    {
        let t = budgets[b];
        let mut names: Vec<String> = Vec::new();
        let mut r: usize = 0;
        while r < runs.len()
            invariant
                r <= runs@.len(),
                string_views(names@) == budget_names(runs@.take(r as int), t),
            decreases runs@.len() - r,
        {
            assert(runs@.take(r + 1).drop_last() =~= runs@.take(r as int));
            if runs[r].actual_processed_tokens == t {
                let name = runs[r].config.name.clone();
                names.push(name);
                assert(string_views(names@) =~= budget_names(runs@.take(r as int), t).push(runs@[r as int].config.name@));
            }
            r = r + 1;
        }
        assert(runs@.take(r as int) =~= runs@);
        let ghost res_before = res@;
        assert(string_views(names@).len() == names@.len());
        if names.len() > 1 {
            let ghost before = res@;
            res.push(MatchedBudget { tokens: t, runs: names });
            assert forall|i: int, j: int| 0 <= i < j < res@.len() implies res@[i].tokens < res@[j].tokens by {
                if j == before.len() {
                    assert(res@[i] == before[i]);
                    assert(string_views(before[i].runs@) == budget_names(runs@, before[i].tokens));
                    let x = choose|x: int| 0 <= x < b && budgets@[x] == before[i].tokens;
                    assert(budgets@[x] < budgets@[b as int]);
                }
            }
        }
        assert forall|x: int| 0 <= x < b + 1 && budget_names(runs@, #[trigger] budgets@[x]).len() > 1 implies exists|i: int|
            0 <= i < res@.len() && res@[i].tokens == budgets@[x] by {
            if x < b {
                let i = choose|i: int| 0 <= i < res_before.len() && res_before[i].tokens == budgets@[x];
                assert(res@[i] == res_before[i]);
            } else {
                assert(res@[res_before.len() as int].tokens == t);
            }
        }
        b = b + 1;
    }
    assert forall|k: int| 0 <= k < runs@.len() && budget_names(runs@, #[trigger] runs@[k].actual_processed_tokens).len()
        > 1 implies exists|i: int| 0 <= i < res@.len() && res@[i].tokens == runs@[k].actual_processed_tokens by {
        let t = runs@[k].actual_processed_tokens;
        assert(budgets@.contains(t));
        let x = choose|x: int| 0 <= x < budgets@.len() && budgets@[x] == t;
        assert(budget_names(runs@, budgets@[x]).len() > 1);
    }
    res
}

// ---------------------------------------------------------------------------
// Training schedule

/// What a training loop does next.
#[derive(Debug, Clone, Copy, PartialEq, Eq, Structural)]
pub enum ScheduleAction {
    /// Measure training and validation loss after `step` optimizer steps.
    Evaluate { step: usize, processed_tokens: usize },
    /// Take optimizer step number `step` (counting from zero).
    Train { step: usize },
    /// The run is over.
    Finish,
}

/// Where a schedule stands within a step.
#[derive(Debug, Clone, Copy, PartialEq, Eq, Structural)]
pub enum SchedulePhase {
    /// About to decide whether the current step is evaluated.
    Check,
    /// The current step was evaluated (or needs no evaluation); next comes training or the end.
    Advance,
    /// Finished.
    Done,
}

/// Whether loss is measured after `step` optimizer steps: at every multiple of
/// the interval and after the last step.
pub open spec fn eval_due(step: nat, steps: nat, eval_interval: nat) -> bool {
    step % eval_interval == 0 || step == steps
}

/// The order of evaluations and optimizer steps of one run: steps `0..=steps`,
/// each evaluated when due, each but the last followed by training.
pub struct TrainingSchedule {
    steps: usize,
    eval_interval: usize,
    tokens_per_step: usize,
    step: usize,
    phase: SchedulePhase,
}

/// A schedule's state: its steps, evaluation interval, tokens per step,
/// current step and phase.
pub type ScheduleState = (usize, usize, usize, usize, SchedulePhase);

/// Whether a schedule's state is consistent.
pub open spec fn schedule_wf(s: ScheduleState) -> bool {
    &&& s.1 > 0
    &&& s.3 <= s.0
    &&& s.0 * s.2 <= usize::MAX
}

/// The action a schedule gives in a state, and the state it moves to.
pub open spec fn schedule_next(s: ScheduleState) -> (ScheduleState, ScheduleAction) {
    let (steps, interval, per_step, step, phase) = s;
    match phase {
        SchedulePhase::Done => (s, ScheduleAction::Finish),
        SchedulePhase::Check if eval_due(step as nat, steps as nat, interval as nat) => (
            (steps, interval, per_step, step, SchedulePhase::Advance),
            ScheduleAction::Evaluate { step, processed_tokens: (step * per_step) as usize },
        ),
        _ => if step == steps {
            ((steps, interval, per_step, step, SchedulePhase::Done), ScheduleAction::Finish)
        } else {
            (
                (steps, interval, per_step, (step + 1) as usize, SchedulePhase::Check),
                ScheduleAction::Train { step },
            )
        },
    }
}

impl View for TrainingSchedule {
    type V = ScheduleState;

    closed spec fn view(&self) -> ScheduleState {
        (self.steps, self.eval_interval, self.tokens_per_step, self.step, self.phase)
    }
}

impl TrainingSchedule {
    /// A schedule of `steps` optimizer steps, evaluated every `eval_interval` steps.
    pub fn new(steps: usize, eval_interval: usize, tokens_per_step: usize) -> (res: Self)
        requires
            eval_interval > 0,
            steps * tokens_per_step <= usize::MAX,
        ensures
            res@ == (steps, eval_interval, tokens_per_step, 0usize, SchedulePhase::Check),
            schedule_wf(res@),
    {
        TrainingSchedule { steps, eval_interval, tokens_per_step, step: 0, phase: SchedulePhase::Check }
    }

    /// The next action of the run.
    pub fn next(&mut self) -> (action: ScheduleAction)
        requires
            schedule_wf(old(self)@),
        ensures
            (final(self)@, action) == schedule_next(old(self)@),
            schedule_wf(final(self)@),
    {
        if self.phase == SchedulePhase::Done {
            return ScheduleAction::Finish;
        }
        if self.phase == SchedulePhase::Check && (self.step % self.eval_interval == 0 || self.step == self.steps) {
            self.phase = SchedulePhase::Advance;
            assert(self.step * self.tokens_per_step <= self.steps * self.tokens_per_step) by (nonlinear_arith)
                requires self.step <= self.steps;
            return ScheduleAction::Evaluate { step: self.step, processed_tokens: self.step * self.tokens_per_step };
        }
        if self.step == self.steps {
            self.phase = SchedulePhase::Done;
            return ScheduleAction::Finish;
        }
        let step = self.step;
        self.step = self.step + 1;
        self.phase = SchedulePhase::Check;
        ScheduleAction::Train { step }
    }
}

/// The actions of a schedule from a state, `fuel` calls at most, up to and including `Finish`.
pub open spec fn schedule_run(s: ScheduleState, fuel: nat) -> Seq<ScheduleAction>
    decreases fuel,
{
    if fuel == 0 {
        Seq::<ScheduleAction>::empty()
    } else {
        let (next, action) = schedule_next(s);
        if action == ScheduleAction::Finish {
            seq![action]
        } else {
            seq![action] + schedule_run(next, (fuel - 1) as nat)
        }
    }
}

/// The optimizer steps, evaluations and end that a run performs from the given
/// step on: each step from `step` to `steps` is evaluated when due, each step
/// but the last is trained, and the run ends.
pub open spec fn planned_from(steps: nat, interval: nat, per_step: nat, step: nat) -> Seq<ScheduleAction>
    decreases steps - step,
{
    let evaluation = if eval_due(step, steps, interval) {
        seq![ScheduleAction::Evaluate { step: step as usize, processed_tokens: (step * per_step) as usize }]
    } else {
        Seq::<ScheduleAction>::empty()
    };
    if step >= steps {
        evaluation.push(ScheduleAction::Finish)
    } else {
        evaluation + seq![ScheduleAction::Train { step: step as usize }] + planned_from(steps, interval, per_step, step + 1)
    }
}

/// A schedule started with `new` and asked for actions until it finishes does
/// exactly the planned run: each step from 0 to `steps` evaluated when due
/// (step 0 and the last step always), optimizer steps 0 to `steps - 1` in
/// order, then the end.
pub proof fn lemma_schedule_follows_plan(steps: usize, interval: usize, per_step: usize, step: usize)
    requires
        interval > 0,
        step <= steps,
        steps * per_step <= usize::MAX,
    ensures
        schedule_run((steps, interval, per_step, step, SchedulePhase::Check), 2 * (steps - step) as nat + 2)
            == planned_from(steps as nat, interval as nat, per_step as nat, step as nat),
    decreases steps - step,
{
    let s = (steps, interval, per_step, step, SchedulePhase::Check);
    let fuel = 2 * (steps - step) as nat + 2;
    let due = eval_due(step as nat, steps as nat, interval as nat);
    let after_eval = (steps, interval, per_step, step, SchedulePhase::Advance);
    if step < steps {
        lemma_schedule_follows_plan(steps, interval, per_step, (step + 1) as usize);
        let next = (steps, interval, per_step, (step + 1) as usize, SchedulePhase::Check);
        if due {
            assert(schedule_run(after_eval, (fuel - 1) as nat) =~= seq![ScheduleAction::Train { step }]
                + schedule_run(next, (fuel - 2) as nat));
            assert(schedule_run(s, fuel) =~= planned_from(steps as nat, interval as nat, per_step as nat, step as nat));
        } else {
            assert(schedule_run(next, (fuel - 1) as nat) =~= schedule_run(next, (fuel - 2) as nat)) by {
                lemma_schedule_run_fuel(next, (fuel - 2) as nat, (fuel - 1) as nat, steps);
            }
            assert(schedule_run(s, fuel) =~= planned_from(steps as nat, interval as nat, per_step as nat, step as nat));
        }
    } else {
        assert(schedule_run(after_eval, 1) =~= seq![ScheduleAction::Finish]);
        assert(schedule_run(s, fuel) =~= planned_from(steps as nat, interval as nat, per_step as nat, step as nat));
    }
}

/// Every planned run ends by measuring loss after its last step, once all of
/// its tokens have been processed, and then finishes.
pub proof fn lemma_plan_ends_with_final_evaluation(steps: nat, interval: nat, per_step: nat, step: nat)
    requires
        step <= steps,
    ensures
        planned_from(steps, interval, per_step, step).len() >= 2,
        planned_from(steps, interval, per_step, step).last() == ScheduleAction::Finish,
        planned_from(steps, interval, per_step, step)[planned_from(steps, interval, per_step, step).len() - 2]
            == (ScheduleAction::Evaluate { step: steps as usize, processed_tokens: (steps * per_step) as usize }),
    decreases steps - step,
{
    if step < steps {
        lemma_plan_ends_with_final_evaluation(steps, interval, per_step, step + 1);
        let rest = planned_from(steps, interval, per_step, step + 1);
        let evaluation = if eval_due(step, steps, interval) {
            seq![ScheduleAction::Evaluate { step: step as usize, processed_tokens: (step * per_step) as usize }]
        } else {
            Seq::<ScheduleAction>::empty()
        };
        let head = evaluation + seq![ScheduleAction::Train { step: step as usize }];
        let whole = planned_from(steps, interval, per_step, step);
        assert(whole == head + rest);
        assert(whole[whole.len() - 2] == rest[rest.len() - 2]);
    }
}

/// Extra fuel changes nothing once a run from a `Check` state has enough to finish.
proof fn lemma_schedule_run_fuel(s: ScheduleState, fuel: nat, more: nat, steps: usize)
    requires
        s.0 == steps,
        s.1 > 0,
        s.3 <= steps,
        s.4 == SchedulePhase::Check,
        fuel >= 2 * (steps - s.3) as nat + 2,
        more >= fuel,
    ensures
        schedule_run(s, more) == schedule_run(s, fuel),
    decreases fuel,
{
    let (next, action) = schedule_next(s);
    let after_eval = (s.0, s.1, s.2, s.3, SchedulePhase::Advance);
    if s.3 < steps {
        let later = (s.0, s.1, s.2, (s.3 + 1) as usize, SchedulePhase::Check);
        lemma_schedule_run_fuel(later, (fuel - 2) as nat, (more - 2) as nat, steps);
        lemma_schedule_run_fuel(later, (fuel - 2) as nat, (more - 1) as nat, steps);
        lemma_schedule_run_fuel(later, (fuel - 2) as nat, (fuel - 1) as nat, steps);
        if eval_due(s.3 as nat, steps as nat, s.1 as nat) {
            assert(schedule_run(after_eval, (more - 1) as nat) == schedule_run(after_eval, (fuel - 1) as nat));
        }
    } else {
        if eval_due(s.3 as nat, steps as nat, s.1 as nat) {
            assert(schedule_run(after_eval, (more - 1) as nat) == schedule_run(after_eval, (fuel - 1) as nat));
        }
    }
}

/// Seeds of the fixed evaluation batches of a run, for training and for
/// validation data.
pub fn evaluation_seeds(seed: u64) -> (res: (u64, u64))
    ensures
        res.0 == seed ^ 0x0054_5241_494e,
        res.1 == seed ^ 0x0056_414c_4944,
{
    (seed ^ 0x0054_5241_494e, seed ^ 0x0056_414c_4944)
}

/// Fingerprints and sizes recorded with each run.
#[derive(Debug, Clone)]
pub struct DatasetArtifact {
    pub tokenizer_corpus_sha256: String,
    pub tokenizer_sha256: String,
    pub train_sha256: String,
    pub validation_sha256: String,
    pub train_corpus_tokens: usize,
    pub validation_corpus_tokens: usize,
    pub tokenizer_vocab_size: usize,
    pub observed_train_token_types: usize,
}

impl DatasetArtifact {
    /// The record of a checked run's data.
    pub fn for_run(checked: &CheckedExperiment, run: &CheckedRun, tokenizer_corpus_sha256: String) -> (res: Self)
        ensures
            res.tokenizer_corpus_sha256 == tokenizer_corpus_sha256,
            res.tokenizer_sha256 == checked.tokenizer_sha256,
            res.train_sha256 == run.train_sha256,
            res.validation_sha256 == checked.validation_sha256,
            res.train_corpus_tokens == run.train_tokens@.len(),
            res.validation_corpus_tokens == checked.validation_tokens@.len(),
            res.tokenizer_vocab_size == checked.tokenizer@.0.len(),
            res.observed_train_token_types == run.observed_token_types,
    {
        DatasetArtifact {
            tokenizer_corpus_sha256,
            tokenizer_sha256: checked.tokenizer_sha256.clone(),
            train_sha256: run.train_sha256.clone(),
            validation_sha256: checked.validation_sha256.clone(),
            train_corpus_tokens: run.train_tokens.len(),
            validation_corpus_tokens: checked.validation_tokens.len(),
            tokenizer_vocab_size: checked.tokenizer.vocab_size(),
            observed_train_token_types: run.observed_token_types,
        }
    }
}

} // verus!
