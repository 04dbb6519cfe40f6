//! The preflight of an experiment as a sequence of stages. The manifest is
//! checked first; then each stage names what the caller must read or compute
//! (a corpus and its fingerprint, the tokenizer's fingerprint, the model's
//! parameter count, a run's corpus and token target), and each answer is
//! checked before the next stage is named. The first failed check ends it.
use vstd::prelude::*;
use crate::config::positive_bits;
use crate::data::{CharTokenizer, is_vocabulary_of, encodable, encoded};
use crate::experiment::{
    CheckedExperiment, CheckedRun, ExperimentError, ScaleExperiment, check_parameter_count, check_run,
    check_spec, check_token_target, encode_validation, exposure_fits, run_outcome, spec_error,
};

verus! {

/// What the preflight needs next.
#[derive(Debug, Clone, Copy, PartialEq, Eq, Structural)]
pub enum PreflightStage {
    /// The text of the tokenizer corpus and the SHA-256 of its bytes.
    TokenizerCorpus,
    /// The SHA-256 of the saved form of the tokenizer trained on that corpus.
    TokenizerFingerprint,
    /// The text of the validation corpus and the SHA-256 of its bytes.
    ValidationCorpus,
    /// The parameter count of the model instantiated for the tokenizer's vocabulary.
    ParameterCount,
    /// The text of run `run`'s training corpus, the SHA-256 of its bytes, and
    /// its processed-token target.
    TrainCorpus { run: usize },
    /// Every run passed; `finish` gives the checked experiment.
    Complete,
    /// A check failed.
    Failed,
}

/// An experiment part-way through its preflight.
pub struct Preflight {
    spec: ScaleExperiment,
    stage: PreflightStage,
    tokenizer: CharTokenizer,
    tokenizer_corpus_sha256: String,
    tokenizer_sha256: String,
    validation_tokens: Vec<u32>,
    validation_sha256: String,
    parameter_count: usize,
    runs: Vec<CheckedRun>,
}

/// The stage after a step that ended with `res`.
pub open spec fn stage_after(res: Result<PreflightStage, ExperimentError>) -> PreflightStage {
    match res {
        Ok(stage) => stage,
        Err(_) => PreflightStage::Failed,
    }
}

/// What comes after the checks of the model: the token target of run `run` is
/// checked, and its corpus is asked for; after the last run, the preflight is complete.
pub open spec fn next_run(spec: ScaleExperiment, run: int) -> Result<PreflightStage, ExperimentError> {
    if run >= spec.runs@.len() {
        Ok(PreflightStage::Complete)
    } else if positive_bits(spec.runs@[run].target_tokens_per_parameter_bits) {
        Ok(PreflightStage::TrainCorpus { run: run as usize })
    } else {
        Err(ExperimentError::NonPositiveTarget { run: spec.runs@[run].name })
    }
}

impl Preflight {
    /// The manifest being checked.
    pub closed spec fn manifest(&self) -> ScaleExperiment {
        self.spec
    }

    /// What the preflight needs next.
    pub closed spec fn stage(&self) -> PreflightStage {
        self.stage
    }

    /// The tokenizer trained on the tokenizer corpus.
    pub closed spec fn frozen(&self) -> CharTokenizer {
        self.tokenizer
    }

    /// The fingerprint given for the tokenizer corpus.
    pub closed spec fn corpus_fingerprint(&self) -> Seq<char> {
        self.tokenizer_corpus_sha256@
    }

    /// The fingerprint given for the tokenizer.
    pub closed spec fn tokenizer_fingerprint_of(&self) -> Seq<char> {
        self.tokenizer_sha256@
    }

    /// The encoded validation corpus.
    pub closed spec fn validation(&self) -> Seq<u32> {
        self.validation_tokens@
    }

    /// The fingerprint given for the validation corpus.
    pub closed spec fn validation_fingerprint(&self) -> String {
        self.validation_sha256
    }

    /// The parameter count given for the model.
    pub closed spec fn parameters(&self) -> usize {
        self.parameter_count
    }

    /// The runs that passed so far, in manifest order.
    pub closed spec fn passed_runs(&self) -> Seq<CheckedRun> {
        self.runs@
    }

    /// Tokens processed per optimizer step.
    pub open spec fn tokens_per_step(&self) -> int {
        self.manifest().training.batch_size * self.manifest().model.context_length
    }

    /// The preflight's state is consistent: unless it failed, the manifest
    /// passed its own checks; the runs that passed are the first runs of the
    /// manifest; once the model is counted, a step's token count fits in a `usize`.
    pub open spec fn wf(&self) -> bool {
        &&& self.stage() != PreflightStage::Failed ==> spec_error(self.manifest()) is None
        &&& self.passed_runs().len() <= self.manifest().runs@.len()
        &&& !(self.stage() is TrainCorpus || self.stage() == PreflightStage::Complete || self.stage()
            == PreflightStage::Failed) ==> self.passed_runs().len() == 0
        &&& forall|i: int| 0 <= i < self.passed_runs().len() ==> #[trigger] self.passed_runs()[i].config
            == self.manifest().runs@[i]
        &&& self.stage() matches PreflightStage::TrainCorpus { run } ==> {
            &&& run < self.manifest().runs@.len()
            &&& self.passed_runs().len() == run
            &&& self.tokens_per_step() <= usize::MAX
        }
        &&& self.stage() == PreflightStage::Complete ==> self.passed_runs().len() == self.manifest().runs@.len()
    }

    /// A completed preflight passed every run of the manifest, in manifest order.
    pub proof fn lemma_complete_has_every_run(&self)
        requires
            self.wf(),
            self.stage() == PreflightStage::Complete,
        ensures
            spec_error(self.manifest()) is None,
            self.passed_runs().len() == self.manifest().runs@.len(),
            forall|i: int| 0 <= i < self.passed_runs().len() ==> #[trigger] self.passed_runs()[i].config
                == self.manifest().runs@[i],
    {
    }

    /// Starts the preflight of a manifest by checking the manifest itself.
    pub fn new(spec: ScaleExperiment) -> (res: (Preflight, Result<PreflightStage, ExperimentError>))
        ensures
            res.0.wf(),
            res.0.manifest() == spec,
            res.0.passed_runs().len() == 0,
            res.0.stage() == stage_after(res.1),
            match spec_error(spec) {
                Some(e) => res.1 == Err::<PreflightStage, ExperimentError>(e),
                None => res.1 == Ok::<PreflightStage, ExperimentError>(PreflightStage::TokenizerCorpus),
            },
    {
        let checked = check_spec(&spec);
        let next = match checked {
            Ok(()) => Ok(PreflightStage::TokenizerCorpus),
            Err(e) => Err(e),
        };
        let stage = match next {
            Ok(stage) => stage,
            Err(_) => PreflightStage::Failed,
        };
        let preflight = Preflight {
            spec,
            stage,
            tokenizer: CharTokenizer::from_vocabulary(Vec::new()),
            tokenizer_corpus_sha256: String::new(),
            tokenizer_sha256: String::new(),
            validation_tokens: Vec::new(),
            validation_sha256: String::new(),
            parameter_count: 0,
            runs: Vec::new(),
        };
        (preflight, next)
    }

    /// The manifest being checked.
    pub fn experiment(&self) -> (res: &ScaleExperiment)
        ensures
            *res == self.manifest(),
    {
        &self.spec
    }

    /// The tokenizer trained on the tokenizer corpus.
    pub fn tokenizer(&self) -> (res: &CharTokenizer)
        ensures
            *res == self.frozen(),
    {
        &self.tokenizer
    }

    /// Takes the tokenizer corpus and trains the frozen tokenizer on it.
    pub fn tokenizer_corpus(&mut self, text: &str, sha256: String) -> (next: PreflightStage)
        requires
            old(self).wf(),
            old(self).stage() == PreflightStage::TokenizerCorpus,
        ensures
            final(self).wf(),
            next == PreflightStage::TokenizerFingerprint,
            final(self).stage() == next,
            final(self).manifest() == old(self).manifest(),
            final(self).passed_runs() == old(self).passed_runs(),
            is_vocabulary_of(final(self).frozen()@.0, text@),
            final(self).frozen().is_indexed(),
            final(self).corpus_fingerprint() == sha256@,
    {
        self.tokenizer = CharTokenizer::train(text);
        self.tokenizer_corpus_sha256 = sha256;
        self.stage = PreflightStage::TokenizerFingerprint;
        PreflightStage::TokenizerFingerprint
    }

    /// Takes the fingerprint of the saved tokenizer.
    pub fn tokenizer_fingerprint(&mut self, sha256: String) -> (next: PreflightStage)
        requires
            old(self).wf(),
            old(self).stage() == PreflightStage::TokenizerFingerprint,
        ensures
            final(self).wf(),
            next == PreflightStage::ValidationCorpus,
            final(self).stage() == next,
            final(self).manifest() == old(self).manifest(),
            final(self).passed_runs() == old(self).passed_runs(),
            final(self).frozen() == old(self).frozen(),
            final(self).corpus_fingerprint() == old(self).corpus_fingerprint(),
            final(self).tokenizer_fingerprint_of() == sha256@,
    {
        self.tokenizer_sha256 = sha256;
        self.stage = PreflightStage::ValidationCorpus;
        PreflightStage::ValidationCorpus
    }

    /// Takes the validation corpus: every character must be in the tokenizer,
    /// and it must hold more tokens than one context.
    pub fn validation_corpus(&mut self, text: &str, sha256: String) -> (next: Result<PreflightStage, ExperimentError>)
        requires
            old(self).wf(),
            old(self).stage() == PreflightStage::ValidationCorpus,
        ensures
            final(self).wf(),
            final(self).stage() == stage_after(next),
            final(self).manifest() == old(self).manifest(),
            final(self).passed_runs() == old(self).passed_runs(),
            final(self).frozen() == old(self).frozen(),
            final(self).corpus_fingerprint() == old(self).corpus_fingerprint(),
            final(self).tokenizer_fingerprint_of() == old(self).tokenizer_fingerprint_of(),
            !encodable(old(self).frozen()@.1, text@) ==> exists|i: int|
                0 <= i < text@.len() && !old(self).frozen()@.1.contains_key(text@[i] as u32)
                    && encodable(old(self).frozen()@.1, text@.take(i))
                    && next == Err::<PreflightStage, ExperimentError>(
                    ExperimentError::ValidationUnknownCharacter(text@[i]),
                ),
            encodable(old(self).frozen()@.1, text@) && text@.len() <= old(self).manifest().model.context_length
                ==> next == Err::<PreflightStage, ExperimentError>(ExperimentError::ValidationTooShort),
            encodable(old(self).frozen()@.1, text@) && text@.len() > old(self).manifest().model.context_length ==> {
                &&& next == Ok::<PreflightStage, ExperimentError>(PreflightStage::ParameterCount)
                &&& final(self).validation() == encoded(old(self).frozen()@.1, text@)
                &&& final(self).validation_fingerprint() == sha256
            },
    {
        match encode_validation(&self.tokenizer, text, self.spec.model.context_length) {
            Ok(tokens) => {
                self.validation_tokens = tokens;
                self.validation_sha256 = sha256;
                self.stage = PreflightStage::ParameterCount;
                Ok(PreflightStage::ParameterCount)
            },
            Err(e) => {
                self.stage = PreflightStage::Failed;
                Err(e)
            },
        }
    }

    /// The next stage after the model's checks, or after run `run - 1` passed.
    fn advance_to_run(&mut self, run: usize) -> (next: Result<PreflightStage, ExperimentError>)
        requires
            spec_error(old(self).manifest()) is None,
            run == old(self).passed_runs().len(),
            old(self).passed_runs().len() <= old(self).manifest().runs@.len(),
            forall|i: int| 0 <= i < old(self).passed_runs().len() ==> #[trigger] old(self).passed_runs()[i].config
                == old(self).manifest().runs@[i],
            old(self).tokens_per_step() <= usize::MAX,
        ensures
            final(self).wf(),
            next == next_run(old(self).manifest(), run as int),
            final(self).stage() == stage_after(next),
            final(self).manifest() == old(self).manifest(),
            final(self).passed_runs() == old(self).passed_runs(),
            final(self).frozen() == old(self).frozen(),
            final(self).corpus_fingerprint() == old(self).corpus_fingerprint(),
            final(self).tokenizer_fingerprint_of() == old(self).tokenizer_fingerprint_of(),
            final(self).validation() == old(self).validation(),
            final(self).validation_fingerprint() == old(self).validation_fingerprint(),
            final(self).parameters() == old(self).parameters(),
    {
        if run >= self.spec.runs.len() {
            self.stage = PreflightStage::Complete;
            return Ok(PreflightStage::Complete);
        }
        match check_token_target(&self.spec.runs[run]) {
            Ok(()) => {
                self.stage = PreflightStage::TrainCorpus { run };
                Ok(PreflightStage::TrainCorpus { run })
            },
            Err(e) => {
                self.stage = PreflightStage::Failed;
                Err(e)
            },
        }
    }

    /// Takes the parameter count of the instantiated model, which must match
    /// the expected count when one is configured; then the first run's token
    /// target is checked.
    pub fn parameter_count(&mut self, count: usize) -> (next: Result<PreflightStage, ExperimentError>)
        requires
            old(self).wf(),
            old(self).stage() == PreflightStage::ParameterCount,
            old(self).tokens_per_step() <= usize::MAX,
        ensures
            final(self).wf(),
            final(self).stage() == stage_after(next),
            final(self).manifest() == old(self).manifest(),
            final(self).frozen() == old(self).frozen(),
            final(self).corpus_fingerprint() == old(self).corpus_fingerprint(),
            final(self).tokenizer_fingerprint_of() == old(self).tokenizer_fingerprint_of(),
            final(self).validation() == old(self).validation(),
            final(self).validation_fingerprint() == old(self).validation_fingerprint(),
            final(self).passed_runs() == old(self).passed_runs(),
            match old(self).manifest().model.expected_parameters {
                Some(e) if e != count => next == Err::<PreflightStage, ExperimentError>(
                    ExperimentError::ParameterCountMismatch { expected: e, actual: count },
                ),
                _ => next == next_run(old(self).manifest(), 0) && final(self).parameters() == count,
            },
    {
        match check_parameter_count(self.spec.model.expected_parameters, count) {
            Err(e) => {
                self.stage = PreflightStage::Failed;
                Err(e)
            },
            Ok(()) => {
                self.parameter_count = count;
                self.advance_to_run(0)
            },
        }
    }

    /// Takes the training corpus of the current run and its processed-token
    /// target (the parameter count times the run's tokens per parameter,
    /// rounded up); the run is checked, and the next run's token target after it.
    pub fn train_corpus(&mut self, text: &str, sha256: String, target_processed_tokens: usize)
        -> (next: Result<PreflightStage, ExperimentError>)
        requires
            old(self).wf(),
            old(self).stage() is TrainCorpus,
            exposure_fits(target_processed_tokens as nat, old(self).tokens_per_step() as nat),
        ensures
            final(self).wf(),
            final(self).stage() == stage_after(next),
            final(self).manifest() == old(self).manifest(),
            final(self).frozen() == old(self).frozen(),
            final(self).corpus_fingerprint() == old(self).corpus_fingerprint(),
            final(self).tokenizer_fingerprint_of() == old(self).tokenizer_fingerprint_of(),
            final(self).validation() == old(self).validation(),
            final(self).validation_fingerprint() == old(self).validation_fingerprint(),
            final(self).parameters() == old(self).parameters(),
            exists|outcome: Result<CheckedRun, ExperimentError>| {
                &&& #[trigger] run_outcome(
                    outcome,
                    old(self).manifest().runs@[old(self).stage()->run as int],
                    text@,
                    sha256,
                    old(self).validation_fingerprint()@,
                    old(self).frozen()@.1,
                    old(self).manifest().model.context_length,
                    old(self).tokens_per_step() as usize,
                    target_processed_tokens,
                )
                &&& match outcome {
                    Err(e) => next == Err::<PreflightStage, ExperimentError>(e),
                    Ok(checked) => {
                        &&& final(self).passed_runs() == old(self).passed_runs().push(checked)
                        &&& next == next_run(old(self).manifest(), old(self).stage()->run + 1)
                    },
                }
            },
    {
        let run = match self.stage {
            PreflightStage::TrainCorpus { run } => run,
            _ => 0,
        };
        let run_count = self.spec.runs.len();
        assert(run < run_count);
        let tokens_per_step = self.spec.training.batch_size * self.spec.model.context_length;
        let ghost fingerprint = sha256;
        let outcome = check_run(
            self.spec.runs[run].copied(),
            text,
            sha256,
            &self.validation_sha256,
            &self.tokenizer,
            self.spec.model.context_length,
            tokens_per_step,
            target_processed_tokens,
        );
        let ghost witness = outcome;
        assert(run_outcome(
            witness,
            old(self).manifest().runs@[old(self).stage()->run as int],
            text@,
            fingerprint,
            old(self).validation_fingerprint()@,
            old(self).frozen()@.1,
            old(self).manifest().model.context_length,
            old(self).tokens_per_step() as usize,
            target_processed_tokens,
        ));
        match outcome {
            Err(e) => {
                self.stage = PreflightStage::Failed;
                Err(e)
            },
            Ok(checked) => {
                self.runs.push(checked);
                self.advance_to_run(run + 1)
            },
        }
    }

    /// The checked experiment, once every run passed; a tokenizer corpus
    /// without a fingerprint is refused.
    pub fn finish(self) -> (res: Result<CheckedExperiment, ExperimentError>)
        requires
            self.wf(),
            self.stage() == PreflightStage::Complete,
        ensures
            self.corpus_fingerprint().len() == 0 ==> res == Err::<CheckedExperiment, ExperimentError>(
                ExperimentError::EmptyTokenizerHash,
            ),
            self.corpus_fingerprint().len() > 0 ==> (res matches Ok(checked) && {
                &&& checked.spec == self.manifest()
                &&& checked.tokenizer == self.frozen()
                &&& checked.tokenizer_sha256@ == self.tokenizer_fingerprint_of()
                &&& checked.validation_tokens@ == self.validation()
                &&& checked.validation_sha256 == self.validation_fingerprint()
                &&& checked.parameter_count == self.parameters()
                &&& checked.runs@ == self.passed_runs()
            }),
    {
        CheckedExperiment::assemble(
            self.spec,
            self.tokenizer,
            self.tokenizer_sha256,
            self.validation_tokens,
            self.validation_sha256,
            self.parameter_count,
            self.runs,
            self.tokenizer_corpus_sha256.as_str(),
        )
    }
}

} // verus!
