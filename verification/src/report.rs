//! The checks a comparison report makes before it combines completed runs, and
//! the escaping of text placed into its HTML and SVG.
use vstd::prelude::*;
use crate::text::{chars_of, same_chars, string_from_chars};

verus! {

/// What a completed run recorded about the conditions it ran under.
#[derive(Debug, Clone)]
pub struct RunControls {
    pub run: String,
    pub seed: u64,
    pub parameter_count: usize,
    pub tokenizer_sha256: String,
    pub validation_sha256: String,
    pub control_sha256: String,
    pub initial_weights_sha256: String,
}

/// Why completed runs cannot be compared.
#[derive(Debug, Clone, PartialEq, Eq)]
pub enum ReportError {
    /// A report needs at least two completed runs.
    TooFewRuns,
    DifferentParameterCount { run: String },
    DifferentTokenizer { run: String },
    DifferentValidationCorpus { run: String },
    DifferentControls { run: String },
    /// The run started from other initial weights than the first run of its seed.
    UnpairedInitialWeights { run: String, seed: u64 },
    /// Some configured run has no completed replication with this seed.
    IncompleteSeed { seed: u64 },
}

/// A report needs at least two completed runs.
pub fn check_run_count(count: usize) -> (res: Result<(), ReportError>)
    ensures
        count < 2 ==> res == Err::<(), ReportError>(ReportError::TooFewRuns),
        count >= 2 ==> res is Ok,
{
    if count < 2 {
        Err(ReportError::TooFewRuns)
    } else {
        Ok(())
    }
}

/// The first shared control in which run `r` differs from the first run.
pub open spec fn control_mismatch(first: RunControls, r: RunControls) -> Option<ReportError> {
    if r.parameter_count != first.parameter_count {
        Some(ReportError::DifferentParameterCount { run: r.run })
    } else if r.tokenizer_sha256@ != first.tokenizer_sha256@ {
        Some(ReportError::DifferentTokenizer { run: r.run })
    } else if r.validation_sha256@ != first.validation_sha256@ {
        Some(ReportError::DifferentValidationCorpus { run: r.run })
    } else if r.control_sha256@ != first.control_sha256@ {
        Some(ReportError::DifferentControls { run: r.run })
    } else {
        None
    }
}

/// The mismatch of the first among the first `k` runs that differs from run 0.
pub open spec fn first_control_error(runs: Seq<RunControls>, k: int) -> Option<ReportError>
    decreases k,
{
    if k <= 0 {
        None
    } else {
        match first_control_error(runs, k - 1) {
            Some(e) => Some(e),
            None => control_mismatch(runs[0], runs[k - 1]),
        }
    }
}

/// The first run among the first `k` that has the given seed, or -1.
pub open spec fn first_with_seed(runs: Seq<RunControls>, seed: u64, k: int) -> int
    decreases k,
{
    if k <= 0 {
        -1
    } else if first_with_seed(runs, seed, k - 1) >= 0 {
        first_with_seed(runs, seed, k - 1)
    } else if runs[k - 1].seed == seed {
        k - 1
    } else {
        -1
    }
}

/// Whether run `i` started from the weights of the first earlier run of its seed.
pub open spec fn paired_with_earlier(runs: Seq<RunControls>, i: int) -> bool {
    let j = first_with_seed(runs, runs[i].seed, i);
    j < 0 || runs[j].initial_weights_sha256@ == runs[i].initial_weights_sha256@
}

/// The first among the first `k` runs whose initial weights differ from those of
/// the first run of its seed.
pub open spec fn first_pairing_error(runs: Seq<RunControls>, k: int) -> Option<ReportError>
    decreases k,
{
    if k <= 0 {
        None
    } else {
        match first_pairing_error(runs, k - 1) {
            Some(e) => Some(e),
            None => if paired_with_earlier(runs, k - 1) {
                None
            } else {
                Some(ReportError::UnpairedInitialWeights { run: runs[k - 1].run, seed: runs[k - 1].seed })
            },
        }
    }
}

/// Some run with the given seed has the given name.
pub open spec fn seed_has_run(runs: Seq<RunControls>, seed: u64, name: Seq<char>) -> bool {
    exists|j: int| 0 <= j < runs.len() && runs[j].seed == seed && runs[j].run@ == name
}

/// Every run name occurs with the given seed.
pub open spec fn seed_complete(runs: Seq<RunControls>, seed: u64) -> bool {
    forall|k: int| 0 <= k < runs.len() ==> seed_has_run(runs, seed, #[trigger] runs[k].run@)
}

/// The smallest seed among those of the first `k` runs that lacks some run name.
pub open spec fn min_incomplete_seed(runs: Seq<RunControls>, k: int) -> Option<u64>
    decreases k,
{
    if k <= 0 {
        None
    } else {
        let rest = min_incomplete_seed(runs, k - 1);
        let s = runs[k - 1].seed;
        if seed_complete(runs, s) {
            rest
        } else {
            match rest {
                Some(m) if m <= s => Some(m),
                _ => Some(s),
            }
        }
    }
}

/// What `validate_controls` reports: the first run that differs from run 0 in a
/// shared control; else the first run not paired with the initial weights of its
/// seed; else the smallest seed that lacks some run.
pub open spec fn controls_error(runs: Seq<RunControls>) -> Option<ReportError> {
    match first_control_error(runs, runs.len() as int) {
        Some(e) => Some(e),
        None => match first_pairing_error(runs, runs.len() as int) {
            Some(e) => Some(e),
            None => match min_incomplete_seed(runs, runs.len() as int) {
                Some(s) => Some(ReportError::IncompleteSeed { seed: s }),
                None => None,
            },
        },
    }
}

/// Whether two strings hold the same text.
fn same_text(a: &String, b: &String) -> (res: bool)
    ensures
        res == (a@ == b@),
{
    *a == *b
}

/// Checks that completed runs can be compared: all share the parameter count,
/// tokenizer, validation corpus and model/training controls of the first run;
/// runs with the same seed started from the same initial weights; and every
/// seed has a run of every name.
#[verifier::loop_isolation(false)]
pub fn validate_controls(runs: &[RunControls]) -> (res: Result<(), ReportError>)
    requires
        runs@.len() > 0,
    ensures
        match controls_error(runs@) {
            Some(e) => res == Err::<(), ReportError>(e),
            None => res is Ok,
        },
{
    let n = runs.len();
    let first = &runs[0];
    let mut i: usize = 0;
    while i < n
        invariant
            i <= n,
            first_control_error(runs@, i as int) is None,
        decreases n - i,
    {
        let r = &runs[i];
        proof {
            if control_mismatch(runs@[0], runs@[i as int]) is Some {
                assert(first_control_error(runs@, i + 1) is Some);
                lemma_first_control_error_stable(runs@, i + 1, n as int);
            }
        }
        if r.parameter_count != first.parameter_count {
            return Err(ReportError::DifferentParameterCount { run: r.run.clone() });
        }
        if !same_text(&r.tokenizer_sha256, &first.tokenizer_sha256) {
            return Err(ReportError::DifferentTokenizer { run: r.run.clone() });
        }
        if !same_text(&r.validation_sha256, &first.validation_sha256) {
            return Err(ReportError::DifferentValidationCorpus { run: r.run.clone() });
        }
        if !same_text(&r.control_sha256, &first.control_sha256) {
            return Err(ReportError::DifferentControls { run: r.run.clone() });
        }
        i = i + 1;
    }
    let mut i: usize = 0;
    while i < n
        invariant
            i <= n,
            first_control_error(runs@, n as int) is None,
            first_pairing_error(runs@, i as int) is None,
        decreases n - i,
    {
        let seed = runs[i].seed;
        let mut j: usize = 0;
        while j < i && runs[j].seed != seed
            invariant
                j <= i < n,
                first_with_seed(runs@, seed, j as int) < 0,
            decreases i - j,
        {
            j = j + 1;
        }
        if j < i {
            assert(first_with_seed(runs@, seed, j + 1) == j);
            proof {
                lemma_first_with_seed_stable(runs@, seed, j + 1, i as int);
            }
            proof {
                if !paired_with_earlier(runs@, i as int) {
                    assert(first_pairing_error(runs@, i + 1) is Some);
                    lemma_first_pairing_error_stable(runs@, i + 1, n as int);
                }
            }
            if !same_text(&runs[j].initial_weights_sha256, &runs[i].initial_weights_sha256) {
                return Err(ReportError::UnpairedInitialWeights { run: runs[i].run.clone(), seed });
            }
        }
        i = i + 1;
    }
    let mut best: Option<u64> = None;
    let mut i: usize = 0;
    while i < n
        invariant
            i <= n,
            first_control_error(runs@, n as int) is None,
            first_pairing_error(runs@, n as int) is None,
            best == min_incomplete_seed(runs@, i as int),
        decreases n - i,
    {
        let seed = runs[i].seed;
        if !seed_is_complete(runs, seed) {
            best = match best {
                Some(m) => if m <= seed {
                    Some(m)
                } else {
                    Some(seed)
                },
                None => Some(seed),
            };
        }
        i = i + 1;
    }
    match best {
        Some(seed) => Err(ReportError::IncompleteSeed { seed }),
        None => Ok(()),
    }
}

proof fn lemma_first_control_error_stable(runs: Seq<RunControls>, k: int, m: int)
    requires
        0 <= k <= m,
        first_control_error(runs, k) is Some,
    ensures
        first_control_error(runs, m) == first_control_error(runs, k),
    decreases m - k,
{
    if m > k {
        lemma_first_control_error_stable(runs, k, m - 1);
    }
}

proof fn lemma_first_pairing_error_stable(runs: Seq<RunControls>, k: int, m: int)
    requires
        0 <= k <= m,
        first_pairing_error(runs, k) is Some,
    ensures
        first_pairing_error(runs, m) == first_pairing_error(runs, k),
    decreases m - k,
{
    if m > k {
        lemma_first_pairing_error_stable(runs, k, m - 1);
    }
}

proof fn lemma_first_with_seed_stable(runs: Seq<RunControls>, seed: u64, k: int, m: int)
    requires
        0 <= k <= m,
        first_with_seed(runs, seed, k) >= 0,
    ensures
        first_with_seed(runs, seed, m) == first_with_seed(runs, seed, k),
    decreases m - k,
{
    if m > k {
        lemma_first_with_seed_stable(runs, seed, k, m - 1);
    }
}

/// Whether every run name occurs with `seed`.
fn seed_is_complete(runs: &[RunControls], seed: u64) -> (res: bool)
    ensures
        res == seed_complete(runs@, seed),
{
    let n = runs.len();
    let mut k: usize = 0;
    while k < n
        invariant
            n == runs@.len(),
            k <= n,
            forall|a: int| 0 <= a < k ==> seed_has_run(runs@, seed, #[trigger] runs@[a].run@),
        decreases n - k,
    {
        let mut j: usize = 0;
        let mut found = false;
        while j < n && !found
            invariant
                n == runs@.len(),
                k < n,
                j <= n,
                found ==> seed_has_run(runs@, seed, runs@[k as int].run@),
                !found ==> forall|b: int| 0 <= b < j ==> !(runs@[b].seed == seed && runs@[b].run@ == runs@[k as int].run@),
            decreases n - j,
        {
            if runs[j].seed == seed && same_text(&runs[j].run, &runs[k].run) {
                found = true;
            }
            j = j + 1;
        }
        if !found {
            assert(!seed_has_run(runs@, seed, runs@[k as int].run@));
            return false;
        }
        k = k + 1;
    }
    true
}

proof fn lemma_first_control_error_none(runs: Seq<RunControls>, k: int)
    requires
        0 <= k <= runs.len(),
    ensures
        first_control_error(runs, k) is None <==> forall|i: int| 0 <= i < k ==> control_mismatch(runs[0], #[trigger] runs[i]) is None,
    decreases k,
{
    if k > 0 {
        lemma_first_control_error_none(runs, k - 1);
    }
}

proof fn lemma_first_with_seed_is_first(runs: Seq<RunControls>, seed: u64, k: int)
    requires
        0 <= k <= runs.len(),
    ensures
        first_with_seed(runs, seed, k) < k,
        first_with_seed(runs, seed, k) >= 0 ==> runs[first_with_seed(runs, seed, k)].seed == seed,
        forall|j: int| 0 <= j < k && (j < first_with_seed(runs, seed, k) || first_with_seed(runs, seed, k) < 0)
            ==> #[trigger] runs[j].seed != seed,
    decreases k,
{
    if k > 0 {
        lemma_first_with_seed_is_first(runs, seed, k - 1);
    }
}

proof fn lemma_first_pairing_error_none(runs: Seq<RunControls>, k: int)
    requires
        0 <= k <= runs.len(),
    ensures
        first_pairing_error(runs, k) is None <==> forall|i: int| 0 <= i < k ==> #[trigger] paired_with_earlier(runs, i),
    decreases k,
{
    if k > 0 {
        lemma_first_pairing_error_none(runs, k - 1);
    }
}

proof fn lemma_min_incomplete_seed_none(runs: Seq<RunControls>, k: int)
    requires
        0 <= k <= runs.len(),
    ensures
        min_incomplete_seed(runs, k) is None <==> forall|i: int| 0 <= i < k ==> seed_complete(runs, #[trigger] runs[i].seed),
    decreases k,
{
    if k > 0 {
        lemma_min_incomplete_seed_none(runs, k - 1);
    }
}

/// All runs with the same seed started from the same initial weights.
pub open spec fn weights_paired(runs: Seq<RunControls>) -> bool {
    forall|i: int, j: int| 0 <= i < runs.len() && 0 <= j < runs.len() && #[trigger] runs[i].seed == #[trigger] runs[j].seed
        ==> runs[i].initial_weights_sha256@ == runs[j].initial_weights_sha256@
}

/// All runs share the parameter count, tokenizer, validation corpus and controls of the first.
pub open spec fn controls_shared(runs: Seq<RunControls>) -> bool {
    forall|i: int| 0 <= i < runs.len() ==> {
        &&& #[trigger] runs[i].parameter_count == runs[0].parameter_count
        &&& runs[i].tokenizer_sha256@ == runs[0].tokenizer_sha256@
        &&& runs[i].validation_sha256@ == runs[0].validation_sha256@
        &&& runs[i].control_sha256@ == runs[0].control_sha256@
    }
}

/// Every seed of the runs has a run of every name.
pub open spec fn seeds_complete(runs: Seq<RunControls>) -> bool {
    forall|i: int| 0 <= i < runs.len() ==> seed_complete(runs, #[trigger] runs[i].seed)
}

/// Completed runs are combined into one report exactly when they share the
/// parameter count, tokenizer, validation corpus and training controls, runs of
/// one seed share their initial weights, and each seed has every run.
pub proof fn lemma_controls_accepted(runs: Seq<RunControls>)
    requires
        runs.len() > 0,
    ensures
        controls_error(runs) is None <==> controls_shared(runs) && weights_paired(runs) && seeds_complete(runs),
{
    let n = runs.len() as int;
    lemma_first_control_error_none(runs, n);
    lemma_first_pairing_error_none(runs, n);
    lemma_min_incomplete_seed_none(runs, n);
    assert(controls_shared(runs) <==> forall|i: int| 0 <= i < n ==> control_mismatch(runs[0], #[trigger] runs[i]) is None);
    if forall|i: int| 0 <= i < n ==> #[trigger] paired_with_earlier(runs, i) {
        assert forall|i: int, j: int| 0 <= i < n && 0 <= j < n && #[trigger] runs[i].seed == #[trigger] runs[j].seed
            implies runs[i].initial_weights_sha256@ == runs[j].initial_weights_sha256@ by {
            let seed = runs[i].seed;
            lemma_first_with_seed_is_first(runs, seed, n);
            let f = first_with_seed(runs, seed, n);
            assert(f >= 0);
            assert forall|x: int| 0 <= x < n && runs[x].seed == seed implies runs[x].initial_weights_sha256@
                == runs[f].initial_weights_sha256@ by {
                if x != f {
                    assert(f < x);
                    lemma_first_with_seed_is_first(runs, seed, x);
                    lemma_first_with_seed_is_first(runs, seed, f + 1);
                    assert(first_with_seed(runs, seed, f + 1) == f);
                    lemma_first_with_seed_stable(runs, seed, f + 1, x);
                    assert(paired_with_earlier(runs, x));
                }
            }
        }
    }
    if weights_paired(runs) {
        assert forall|i: int| 0 <= i < n implies #[trigger] paired_with_earlier(runs, i) by {
            lemma_first_with_seed_is_first(runs, runs[i].seed, i);
        }
    }
}

/// Two runs recorded the same shared controls.
pub open spec fn same_controls(x: RunControls, y: RunControls) -> bool {
    &&& x.parameter_count == y.parameter_count
    &&& x.tokenizer_sha256@ == y.tokenizer_sha256@
    &&& x.validation_sha256@ == y.validation_sha256@
    &&& x.control_sha256@ == y.control_sha256@
}

/// Every two runs among `s` share their controls.
spec fn shared_among(s: Seq<RunControls>) -> bool {
    forall|x: RunControls, y: RunControls| #[trigger] s.contains(x) && #[trigger] s.contains(y) ==> same_controls(x, y)
}

/// Every two runs among `s` with one seed share their initial weights.
spec fn paired_among(s: Seq<RunControls>) -> bool {
    forall|x: RunControls, y: RunControls| #[trigger] s.contains(x) && #[trigger] s.contains(y) && x.seed == y.seed
        ==> x.initial_weights_sha256@ == y.initial_weights_sha256@
}

/// Some run among `s` has the seed of `x` and the name of `y`.
spec fn has_pair(s: Seq<RunControls>, x: RunControls, y: RunControls) -> bool {
    exists|z: RunControls| #[trigger] s.contains(z) && z.seed == x.seed && z.run@ == y.run@
}

/// Every seed among `s` has every name among `s`.
spec fn complete_among(s: Seq<RunControls>) -> bool {
    forall|x: RunControls, y: RunControls| s.contains(x) && s.contains(y) ==> #[trigger] has_pair(s, x, y)
}

proof fn lemma_shared_among(s: Seq<RunControls>)
    requires
        s.len() > 0,
    ensures
        controls_shared(s) <==> shared_among(s),
{
    if controls_shared(s) {
        assert forall|x: RunControls, y: RunControls| #[trigger] s.contains(x) && #[trigger] s.contains(y) implies same_controls(x, y) by {
            let i = choose|i: int| 0 <= i < s.len() && s[i] == x;
            let j = choose|j: int| 0 <= j < s.len() && s[j] == y;
            assert(s[i].parameter_count == s[0].parameter_count);
            assert(s[j].parameter_count == s[0].parameter_count);
        }
    }
    if shared_among(s) {
        assert forall|i: int| 0 <= i < s.len() implies {
            &&& #[trigger] s[i].parameter_count == s[0].parameter_count
            &&& s[i].tokenizer_sha256@ == s[0].tokenizer_sha256@
            &&& s[i].validation_sha256@ == s[0].validation_sha256@
            &&& s[i].control_sha256@ == s[0].control_sha256@
        } by {
            assert(s.contains(s[i]) && s.contains(s[0]));
        }
    }
}

proof fn lemma_paired_among(s: Seq<RunControls>)
    ensures
        weights_paired(s) <==> paired_among(s),
{
    if weights_paired(s) {
        assert forall|x: RunControls, y: RunControls| #[trigger] s.contains(x) && #[trigger] s.contains(y) && x.seed == y.seed
            implies x.initial_weights_sha256@ == y.initial_weights_sha256@ by {
            let i = choose|i: int| 0 <= i < s.len() && s[i] == x;
            let j = choose|j: int| 0 <= j < s.len() && s[j] == y;
            assert(s[i].seed == s[j].seed);
        }
    }
    if paired_among(s) {
        assert forall|i: int, j: int| 0 <= i < s.len() && 0 <= j < s.len() && #[trigger] s[i].seed == #[trigger] s[j].seed
            implies s[i].initial_weights_sha256@ == s[j].initial_weights_sha256@ by {
            assert(s.contains(s[i]) && s.contains(s[j]));
        }
    }
}

proof fn lemma_complete_among_from(s: Seq<RunControls>)
    requires
        seeds_complete(s),
    ensures
        complete_among(s),
{
    assert forall|x: RunControls, y: RunControls| s.contains(x) && s.contains(y) implies #[trigger] has_pair(s, x, y) by {
        let i = choose|i: int| 0 <= i < s.len() && s[i] == x;
        let k = choose|k: int| 0 <= k < s.len() && s[k] == y;
        assert(seed_complete(s, s[i].seed));
        assert(seed_has_run(s, s[i].seed, s[k].run@));
        let j = choose|j: int| 0 <= j < s.len() && s[j].seed == s[i].seed && s[j].run@ == s[k].run@;
        assert(s.contains(s[j]));
    }
}

proof fn lemma_complete_among_to(s: Seq<RunControls>)
    requires
        complete_among(s),
    ensures
        seeds_complete(s),
{
    assert forall|i: int| 0 <= i < s.len() implies seed_complete(s, #[trigger] s[i].seed) by {
        assert forall|k: int| 0 <= k < s.len() implies seed_has_run(s, s[i].seed, #[trigger] s[k].run@) by {
            assert(s.contains(s[i]) && s.contains(s[k]));
            assert(has_pair(s, s[i], s[k]));
            let z = choose|z: RunControls| #[trigger] s.contains(z) && z.seed == s[i].seed && z.run@ == s[k].run@;
            let j = choose|j: int| 0 <= j < s.len() && s[j] == z;
            assert(s[j].seed == s[i].seed && s[j].run@ == s[k].run@);
        }
    }
}

proof fn lemma_complete_among(s: Seq<RunControls>)
    ensures
        seeds_complete(s) <==> complete_among(s),
{
    if seeds_complete(s) {
        lemma_complete_among_from(s);
    }
    if complete_among(s) {
        lemma_complete_among_to(s);
    }
}

proof fn lemma_same_members(runs: Seq<RunControls>, reordered: Seq<RunControls>)
    requires
        reordered.to_multiset() == runs.to_multiset(),
    ensures
        reordered.len() == runs.len(),
        forall|x: RunControls| reordered.contains(x) <==> runs.contains(x),
{
    runs.to_multiset_ensures();
    reordered.to_multiset_ensures();
    assert forall|x: RunControls| reordered.contains(x) <==> runs.contains(x) by {
        assert(reordered.contains(x) <==> reordered.to_multiset().count(x) > 0);
        assert(runs.contains(x) <==> runs.to_multiset().count(x) > 0);
    }
}

proof fn lemma_among_members(p: Seq<RunControls>, r: Seq<RunControls>)
    requires
        forall|x: RunControls| p.contains(x) <==> r.contains(x),
    ensures
        shared_among(p) == shared_among(r),
        paired_among(p) == paired_among(r),
        complete_among(p) == complete_among(r),
{
    assert forall|x: RunControls, y: RunControls| #![trigger has_pair(p, x, y)] #![trigger has_pair(r, x, y)]
        has_pair(p, x, y) == has_pair(r, x, y) by {
        if has_pair(p, x, y) {
            let z = choose|z: RunControls| #[trigger] p.contains(z) && z.seed == x.seed && z.run@ == y.run@;
            assert(r.contains(z));
        }
        if has_pair(r, x, y) {
            let z = choose|z: RunControls| #[trigger] r.contains(z) && z.seed == x.seed && z.run@ == y.run@;
            assert(p.contains(z));
        }
    }
}

/// Whether completed runs can be combined does not depend on the order in
/// which they are listed: any reordering gets the same verdict.
pub proof fn lemma_controls_verdict_ignores_order(runs: Seq<RunControls>, reordered: Seq<RunControls>)
    requires
        runs.len() > 0,
        reordered.to_multiset() == runs.to_multiset(),
    ensures
        (controls_error(reordered) is None) == (controls_error(runs) is None),
{
    lemma_same_members(runs, reordered);
    lemma_among_members(reordered, runs);
    lemma_controls_accepted(runs);
    lemma_controls_accepted(reordered);
    lemma_shared_among(runs);
    lemma_shared_among(reordered);
    lemma_paired_among(runs);
    lemma_paired_among(reordered);
    lemma_complete_among(runs);
    lemma_complete_among(reordered);
}

// ---------------------------------------------------------------------------
// Report order

/// Lexicographic order of texts by code point (the order of `String`s, whose
/// UTF-8 bytes compare the same way).
pub open spec fn text_lt(a: Seq<char>, b: Seq<char>) -> bool
    decreases a.len(),
{
    if a.len() == 0 {
        b.len() > 0
    } else if b.len() == 0 {
        false
    } else if a[0] != b[0] {
        (a[0] as int) < (b[0] as int)
    } else {
        text_lt(a.drop_first(), b.drop_first())
    }
}

/// Names are compared from their first character on: where two names first
/// differ, the one with the smaller code point there comes first; a proper
/// prefix comes before the longer name; a name does not come before itself.
pub proof fn lemma_text_lt_first_difference(a: Seq<char>, b: Seq<char>, k: int)
    requires
        0 <= k <= a.len(),
        k <= b.len(),
        a.take(k) == b.take(k),
    ensures
        k < a.len() && k < b.len() && a[k] != b[k] ==> (text_lt(a, b) <==> (a[k] as int) < (b[k] as int)),
        k == a.len() && k < b.len() ==> text_lt(a, b),
        k == a.len() && k == b.len() ==> !text_lt(a, b),
    decreases k,
{
    if k > 0 {
        assert(a[0] == a.take(k)[0] && b[0] == b.take(k)[0]);
        assert(a.drop_first().take(k - 1) =~= b.drop_first().take(k - 1)) by {
            assert forall|i: int| 0 <= i < k - 1 implies a.drop_first()[i] == b.drop_first()[i] by {
                assert(a.take(k)[i + 1] == b.take(k)[i + 1]);
                assert(a.take(k)[i + 1] == a[i + 1] && b.take(k)[i + 1] == b[i + 1]);
                assert(a.drop_first()[i] == a[i + 1] && b.drop_first()[i] == b[i + 1]);
            }
        }
        lemma_text_lt_first_difference(a.drop_first(), b.drop_first(), k - 1);
    }
}

/// Runs are ordered by name, then by seed.
pub open spec fn run_before(x: RunControls, y: RunControls) -> bool {
    text_lt(x.run@, y.run@) || (x.run@ == y.run@ && x.seed < y.seed)
}

/// Two runs have the same name and seed.
pub open spec fn same_key(x: RunControls, y: RunControls) -> bool {
    x.run@ == y.run@ && x.seed == y.seed
}

proof fn lemma_same_head_tail(a: Seq<char>, b: Seq<char>)
    requires
        a.len() > 0,
        b.len() > 0,
        a[0] == b[0],
        a.drop_first() == b.drop_first(),
    ensures
        a == b,
{
    assert(a.drop_first().len() == a.len() - 1);
    assert(b.drop_first().len() == b.len() - 1);
    assert(a.len() == b.len());
    assert forall|i: int| 0 <= i < a.len() implies a[i] == b[i] by {
        if i > 0 {
            assert(a[i] == a.drop_first()[i - 1]);
            assert(b[i] == b.drop_first()[i - 1]);
        }
    }
    assert(a =~= b);
}

proof fn lemma_text_lt_order(a: Seq<char>, b: Seq<char>, c: Seq<char>)
    ensures
        !text_lt(a, a),
        text_lt(a, b) ==> !text_lt(b, a),
        a != b ==> text_lt(a, b) || text_lt(b, a),
        text_lt(a, b) && text_lt(b, c) ==> text_lt(a, c),
    decreases a.len(),
{
    if a.len() > 0 && b.len() > 0 {
        let c1 = if c.len() > 0 { c.drop_first() } else { b.drop_first() };
        lemma_text_lt_order(a.drop_first(), b.drop_first(), c1);
        crate::text::lemma_char_code(a[0], b[0]);
        if c.len() > 0 {
            crate::text::lemma_char_code(b[0], c[0]);
            crate::text::lemma_char_code(a[0], c[0]);
        }
        if a != b && a[0] == b[0] && a.drop_first() == b.drop_first() {
            lemma_same_head_tail(a, b);
        }
    } else if a.len() > 0 {
        lemma_text_lt_order(a.drop_first(), a.drop_first(), a.drop_first());
    } else if b.len() == 0 {
        assert(a =~= b);
    }
}

/// `run_before` is a strict total order on (name, seed).
pub proof fn lemma_run_before_order(x: RunControls, y: RunControls, z: RunControls)
    ensures
        !run_before(x, x),
        run_before(x, y) ==> !run_before(y, x),
        !same_key(x, y) ==> run_before(x, y) || run_before(y, x),
        run_before(x, y) && run_before(y, z) ==> run_before(x, z),
{
    lemma_text_lt_order(x.run@, y.run@, z.run@);
    lemma_text_lt_order(y.run@, x.run@, z.run@);
    lemma_text_lt_order(x.run@, x.run@, x.run@);
    lemma_text_lt_order(y.run@, y.run@, y.run@);
}

/// Whether `a` comes before `b` in code point order.
fn text_less(a: &String, b: &String) -> (res: bool)
    ensures
        res == text_lt(a@, b@),
{
    let x = chars_of(a.as_str());
    let y = chars_of(b.as_str());
    assert(x@.skip(0) =~= x@);
    assert(y@.skip(0) =~= y@);
    let mut i: usize = 0;
    while i < x.len() && i < y.len() && x[i] == y[i]
        invariant
            i <= x@.len(),
            i <= y@.len(),
            text_lt(x@, y@) == text_lt(x@.skip(i as int), y@.skip(i as int)),
        decreases x@.len() - i,
    {
        assert(x@.skip(i as int).drop_first() =~= x@.skip(i + 1));
        assert(y@.skip(i as int).drop_first() =~= y@.skip(i + 1));
        i = i + 1;
    }
    if i == x.len() {
        assert(x@.skip(i as int).len() == 0);
        assert(text_lt(x@, y@) == (y@.skip(i as int).len() > 0));
        let r = i < y.len();
        assert(r == text_lt(a@, b@));
        r
    } else if i == y.len() {
        assert(y@.skip(i as int).len() == 0);
        assert(x@.skip(i as int).len() > 0);
        assert(!text_lt(x@, y@));
        false
    } else {
        proof {
            crate::text::lemma_char_code(x@[i as int], y@[i as int]);
            assert(x@.skip(i as int)[0] == x@[i as int]);
            assert(y@.skip(i as int)[0] == y@[i as int]);
            assert(x@[i as int] != y@[i as int]);
            assert(text_lt(x@, y@) == ((x@[i as int] as int) < (y@[i as int] as int)));
        }
        let cx = x[i];
        let cy = y[i];
        proof {
            crate::text::lemma_char_code(cx, cy);
            crate::text::lemma_char_code(cy, cx);
        }
        let ux = cx as u32;
        let uy = cy as u32;
        let r = ux < uy;
        assert(r == text_lt(a@, b@));
        r
    }
}

fn run_less(x: &RunControls, y: &RunControls) -> (res: bool)
    ensures
        res == run_before(*x, *y),
{
    text_less(&x.run, &y.run) || (same_text(&x.run, &y.run) && x.seed < y.seed)
}

/// `order` lists every run once, ordered by name then seed, and runs of equal
/// name and seed keep the order they came in.
pub open spec fn is_report_order(runs: Seq<RunControls>, order: Seq<usize>) -> bool {
    &&& order.len() == runs.len()
    &&& order.no_duplicates()
    &&& forall|a: int| 0 <= a < order.len() ==> #[trigger] order[a] < runs.len()
    &&& forall|a: int, b: int| 0 <= a < b < order.len() ==> !run_before(runs[#[trigger] order[b] as int], runs[#[trigger] order[a] as int])
    &&& forall|a: int, b: int| 0 <= a < b < order.len() && same_key(runs[#[trigger] order[a] as int], runs[#[trigger] order[b] as int])
        ==> order[a] < order[b]
}

/// In report order, of two runs whose names first differ at position `k`, the
/// one with the smaller code point there comes first, and a run whose name is
/// a proper prefix of another's comes before it.
pub proof fn lemma_report_order_by_name(runs: Seq<RunControls>, order: Seq<usize>, p: int, q: int, k: int)
    requires
        is_report_order(runs, order),
        0 <= p < q < order.len(),
        0 <= k <= runs[order[p] as int].run@.len(),
        k <= runs[order[q] as int].run@.len(),
        runs[order[p] as int].run@.take(k) == runs[order[q] as int].run@.take(k),
    ensures
        k < runs[order[p] as int].run@.len() && k < runs[order[q] as int].run@.len()
            && runs[order[p] as int].run@[k] != runs[order[q] as int].run@[k]
            ==> (runs[order[p] as int].run@[k] as int) < (runs[order[q] as int].run@[k] as int),
        !(k == runs[order[q] as int].run@.len() && k < runs[order[p] as int].run@.len()),
{
    let x = runs[order[p] as int].run@;
    let y = runs[order[q] as int].run@;
    assert(!run_before(runs[order[q] as int], runs[order[p] as int]));
    lemma_text_lt_first_difference(y, x, k);
}

/// The positions of the runs in report order: by name, then by seed, a stable sort.
pub fn report_order(runs: &[RunControls]) -> (order: Vec<usize>)
    ensures
        is_report_order(runs@, order@),
{
    let n = runs.len();
    let mut order: Vec<usize> = Vec::new();
    let mut i: usize = 0;
    while i < n
        invariant
            n == runs@.len(),
            i <= n,
            is_report_order(runs@.take(i as int), order@),
            forall|a: int| 0 <= a < order@.len() ==> #[trigger] order@[a] < i,
        decreases n - i,
    {
        let mut p: usize = 0;
        while p < order.len() && !run_less(&runs[i], &runs[order[p]])
            invariant
                p <= order@.len(),
                i < n,
                n == runs@.len(),
                forall|a: int| 0 <= a < order@.len() ==> #[trigger] order@[a] < i,
                forall|a: int| 0 <= a < p ==> !run_before(runs@[i as int], runs@[#[trigger] order@[a] as int]),
            decreases order@.len() - p,
        {
            p = p + 1;
        }
        let ghost before = order@;
        let ghost prefix = runs@.take(i as int);
        let ghost extended = runs@.take(i + 1);
        assert forall|a: int| 0 <= a < before.len() implies extended[#[trigger] before[a] as int] == runs@[before[a] as int] by {}
        order.insert(p, i);
        proof {
            before.insert_ensures(p as int, i);
            let after = order@;
            let ki = runs@[i as int];
            assert forall|a: int| 0 <= a < after.len() implies #[trigger] after[a] < i + 1 by {
                if a < p {
                } else if a > p {
                    assert(after[a] == before[a - 1]);
                }
            }
            assert(after.no_duplicates()) by {
                assert forall|a: int, b: int| 0 <= a < after.len() && 0 <= b < after.len() && a != b implies #[trigger] after[a] != #[trigger] after[b] by {
                    if a != p && b != p {
                        let a0 = if a < p { a } else { a - 1 };
                        let b0 = if b < p { b } else { b - 1 };
                        assert(after[a] == before[a0]);
                        assert(after[b] == before[b0]);
                    } else if a == p {
                        let b0 = if b < p { b } else { b - 1 };
                        assert(after[b] == before[b0]);
                    } else {
                        let a0 = if a < p { a } else { a - 1 };
                        assert(after[a] == before[a0]);
                    }
                }
            }
            assert forall|a: int, b: int| 0 <= a < b < after.len() implies !run_before(extended[#[trigger] after[b] as int], extended[#[trigger] after[a] as int])
                && (same_key(extended[after[a] as int], extended[after[b] as int]) ==> after[a] < after[b]) by {
                let xa = runs@[after[a] as int];
                let xb = runs@[after[b] as int];
                if a != p && b != p {
                    let a0 = if a < p { a } else { a - 1 };
                    let b0 = if b < p { b } else { b - 1 };
                    assert(after[a] == before[a0]);
                    assert(after[b] == before[b0]);
                    assert(prefix[before[a0] as int] == xa);
                    assert(prefix[before[b0] as int] == xb);
                } else if b == p {
                    assert(after[a] == before[a]);
                    assert(!run_before(ki, xa));
                } else {
                    // a == p < b: the new run came before the run that was at p.
                    assert(after[b] == before[b - 1]);
                    let xp = runs@[before[p as int] as int];
                    assert(run_before(ki, xp));
                    if b - 1 > p {
                        assert(prefix[before[p as int] as int] == xp);
                        assert(prefix[before[b - 1] as int] == xb);
                        assert(!run_before(xb, xp));
                        lemma_run_before_order(xp, xb, xb);
                        lemma_run_before_order(ki, xp, xb);
                    }
                    lemma_run_before_order(ki, xb, xb);
                    lemma_run_before_order(ki, xp, ki);
                }
            }
        }
        i = i + 1;
    }
    assert(runs@.take(n as int) =~= runs@);
    order
}

/// Positions, in order, of the runs with the given name.
pub open spec fn runs_named(runs: Seq<RunControls>, name: Seq<char>) -> Seq<usize>
    decreases runs.len(),
{
    if runs.len() == 0 {
        Seq::<usize>::empty()
    } else {
        let rest = runs_named(runs.drop_last(), name);
        if runs.last().run@ == name {
            rest.push((runs.len() - 1) as usize)
        } else {
            rest
        }
    }
}

/// The replications of one run name.
pub struct RunGroup {
    pub name: String,
    /// Positions of the runs with this name, in order.
    pub members: Vec<usize>,
}

/// Names in strictly increasing code point order.
pub open spec fn names_increasing(names: Seq<String>) -> bool {
    forall|a: int, b: int| 0 <= a < b < names.len() ==> text_lt(names[a]@, names[b]@)
}

proof fn lemma_insert_name(before: Seq<String>, p: int, name: String)
    requires
        names_increasing(before),
        0 <= p <= before.len(),
        forall|a: int| 0 <= a < p ==> text_lt(#[trigger] before[a]@, name@),
        p < before.len() ==> text_lt(name@, before[p]@),
    ensures
        names_increasing(before.insert(p, name)),
        forall|a: int| 0 <= a < before.len() ==> exists|b: int| 0 <= b < before.insert(p, name).len()
            && before.insert(p, name)[b] == #[trigger] before[a],
        forall|b: int| 0 <= b < before.insert(p, name).len() ==> #[trigger] before.insert(p, name)[b] == name
            || exists|a: int| 0 <= a < before.len() && before.insert(p, name)[b] == before[a],
{
    let after = before.insert(p, name);
    before.insert_ensures(p, name);
    assert forall|a: int, b: int| 0 <= a < b < after.len() implies text_lt(after[a]@, after[b]@) by {
        if a < p && b == p {
        } else if a < p && b > p {
            assert(after[b] == before[b - 1]);
            lemma_text_lt_order(before[a]@, name@, before[p]@);
            if b - 1 > p {
                lemma_text_lt_order(before[a]@, before[p]@, before[b - 1]@);
            }
        } else if a == p {
            assert(after[b] == before[b - 1]);
            if b - 1 > p {
                lemma_text_lt_order(name@, before[p]@, before[b - 1]@);
            }
        } else if a > p {
            assert(after[b] == before[b - 1]);
            assert(after[a] == before[a - 1]);
        }
    }
    assert forall|a: int| 0 <= a < before.len() implies exists|b: int| 0 <= b < after.len() && after[b] == #[trigger] before[a] by {
        if a < p {
            assert(after[a] == before[a]);
        } else {
            assert(after[a + 1] == before[a]);
        }
    }
    assert forall|b: int| 0 <= b < after.len() implies #[trigger] after[b] == name
        || exists|a: int| 0 <= a < before.len() && after[b] == before[a] by {
        if b < p {
            assert(after[b] == before[b]);
        } else if b > p {
            assert(after[b] == before[b - 1]);
        }
    }
}

/// Some entry of `names` holds the text `s`.
pub open spec fn name_listed(names: Seq<String>, s: Seq<char>) -> bool {
    exists|a: int| 0 <= a < names.len() && names[a]@ == s
}

/// One of the first `k` runs has the name `s`.
pub open spec fn name_of_some_run(runs: Seq<RunControls>, k: int, s: Seq<char>) -> bool {
    exists|r: int| 0 <= r < k && runs[r].run@ == s
}

/// The distinct run names in code point order.
#[verifier::rlimit(40)]
fn sorted_names(runs: &[RunControls]) -> (names: Vec<String>)
    ensures
        names_increasing(names@),
        forall|r: int| 0 <= r < runs@.len() ==> name_listed(names@, #[trigger] runs@[r].run@),
        forall|a: int| 0 <= a < names@.len() ==> name_of_some_run(runs@, runs@.len() as int, #[trigger] names@[a]@),
{
    let n = runs.len();
    let mut names: Vec<String> = Vec::new();
    let mut k: usize = 0;
    while k < n
        invariant
            n == runs@.len(),
            k <= n,
            names_increasing(names@),
            forall|r: int| 0 <= r < k ==> name_listed(names@, #[trigger] runs@[r].run@),
            forall|a: int| 0 <= a < names@.len() ==> name_of_some_run(runs@, k as int, #[trigger] names@[a]@),
        decreases n - k,
    {
        let name = &runs[k].run;
        let mut p: usize = 0;
        while p < names.len() && text_less(&names[p], name)
            invariant
                p <= names@.len(),
                forall|a: int| 0 <= a < p ==> text_lt(#[trigger] names@[a]@, name@),
            decreases names@.len() - p,
        {
            p = p + 1;
        }
        let ghost before = names@;
        if p < names.len() && same_text(&names[p], name) {
            assert(names@[p as int]@ == runs@[k as int].run@);
            assert forall|a: int| 0 <= a < names@.len() implies name_of_some_run(runs@, k + 1, #[trigger] names@[a]@) by {
                assert(name_of_some_run(runs@, k as int, names@[a]@));
            }
        } else {
            let copy = name.clone();
            proof {
                if p < before.len() {
                    lemma_text_lt_order(name@, before[p as int]@, before[p as int]@);
                }
                lemma_insert_name(before, p as int, copy);
            }
            names.insert(p, copy);
            assert(names@[p as int]@ == runs@[k as int].run@);
            assert forall|r: int| 0 <= r < k implies name_listed(names@, #[trigger] runs@[r].run@) by {
                assert(name_listed(before, runs@[r].run@));
                let a = choose|a: int| 0 <= a < before.len() && before[a]@ == runs@[r].run@;
                let b = choose|b: int| 0 <= b < names@.len() && names@[b] == before[a];
            }
            assert forall|a: int| 0 <= a < names@.len() implies name_of_some_run(runs@, k + 1, #[trigger] names@[a]@) by {
                if names@[a] != copy {
                    let b = choose|b: int| 0 <= b < before.len() && names@[a] == before[b];
                    assert(name_of_some_run(runs@, k as int, before[b]@));
                }
            }
        }
        assert(name_listed(names@, runs@[k as int].run@));
        k = k + 1;
    }
    names
}

/// Some group has the name `s`.
pub open spec fn has_group(groups: Seq<RunGroup>, s: Seq<char>) -> bool {
    exists|i: int| 0 <= i < groups.len() && groups[i].name@ == s
}

/// The runs grouped by name, names in code point order.
pub fn group_by_name(runs: &[RunControls]) -> (groups: Vec<RunGroup>)
    ensures
        forall|i: int, j: int| 0 <= i < j < groups@.len() ==> text_lt(groups@[i].name@, groups@[j].name@),
        forall|i: int| 0 <= i < groups@.len() ==> #[trigger] groups@[i].members@ == runs_named(runs@, groups@[i].name@),
        forall|k: int| 0 <= k < runs@.len() ==> has_group(groups@, #[trigger] runs@[k].run@),
        forall|i: int| 0 <= i < groups@.len() ==> name_of_some_run(runs@, runs@.len() as int, #[trigger] groups@[i].name@),
{
    let n = runs.len();
    let names = sorted_names(runs);
    let mut groups: Vec<RunGroup> = Vec::new();
    let mut g: usize = 0;
    while g < names.len()
        invariant
            n == runs@.len(),
            g <= names@.len(),
            groups@.len() == g,
            forall|i: int| 0 <= i < g ==> #[trigger] groups@[i].name@ == names@[i]@,
            forall|i: int| 0 <= i < g ==> #[trigger] groups@[i].members@ == runs_named(runs@, groups@[i].name@),
        decreases names@.len() - g,
    {
        let name = names[g].clone();
        let mut members: Vec<usize> = Vec::new();
        let mut r: usize = 0;
        while r < n
            invariant
                n == runs@.len(),
                r <= n,
                members@ == runs_named(runs@.take(r as int), name@),
            decreases n - r,
        {
            assert(runs@.take(r + 1).drop_last() =~= runs@.take(r as int));
            if same_text(&runs[r].run, &name) {
                members.push(r);
            }
            r = r + 1;
        }
        assert(runs@.take(r as int) =~= runs@);
        let ghost before = groups@;
        groups.push(RunGroup { name, members });
        assert(groups@[g as int].name@ == names@[g as int]@);
        assert forall|i: int| 0 <= i < g + 1 implies #[trigger] groups@[i].name@ == names@[i]@ by {
            if i < g {
                assert(groups@[i] == before[i]);
                assert(before[i].name@ == names@[i]@);
            }
        }
        g = g + 1;
    }
    assert forall|i: int, j: int| 0 <= i < j < groups@.len() implies text_lt(groups@[i].name@, groups@[j].name@) by {
        assert(groups@[i].name@ == names@[i]@);
        assert(groups@[j].name@ == names@[j]@);
    }
    assert forall|k: int| 0 <= k < runs@.len() implies has_group(groups@, #[trigger] runs@[k].run@) by {
        assert(name_listed(names@, runs@[k].run@));
        let a = choose|a: int| 0 <= a < names@.len() && names@[a]@ == runs@[k].run@;
        assert(groups@[a].name@ == names@[a]@);
    }
    assert forall|i: int| 0 <= i < groups@.len() implies name_of_some_run(runs@, runs@.len() as int, #[trigger] groups@[i].name@) by {
        assert(groups@[i].name@ == names@[i]@);
        assert(name_of_some_run(runs@, runs@.len() as int, names@[i]@));
    }
    groups
}

// ---------------------------------------------------------------------------
// Escaping

/// The text that stands for a character in HTML and SVG.
pub open spec fn escape_char(c: char) -> Seq<char> {
    if c == '&' {
        seq!['&', 'a', 'm', 'p', ';']
    } else if c == '<' {
        seq!['&', 'l', 't', ';']
    } else if c == '>' {
        seq!['&', 'g', 't', ';']
    } else if c == '"' {
        seq!['&', 'q', 'u', 'o', 't', ';']
    } else {
        seq![c]
    }
}

/// What the report does with an entry found under the experiment directory.
#[derive(Debug, Clone, Copy, PartialEq, Eq, Structural)]
pub enum EntryAction {
    /// Not a directory, or the report's own output directory.
    Skip,
    /// A completed run: the directory holds a run summary.
    Collect,
    /// A directory that may hold completed runs further down.
    Descend,
}

/// Where completed runs are looked for: every directory but the report's own;
/// a directory holding a summary is a completed run, others are searched.
pub fn entry_action(is_dir: bool, name: &str, has_summary: bool) -> (res: EntryAction)
    ensures
        res == (if !is_dir || name@ == seq!['r', 'e', 'p', 'o', 'r', 't'] {
            EntryAction::Skip
        } else if has_summary {
            EntryAction::Collect
        } else {
            EntryAction::Descend
        }),
{
    let report = vec!['r', 'e', 'p', 'o', 'r', 't'];
    assert(report@ =~= seq!['r', 'e', 'p', 'o', 'r', 't']);
    let chars = chars_of(name);
    if !is_dir || same_chars(chars.as_slice(), report.as_slice()) {
        EntryAction::Skip
    } else if has_summary {
        EntryAction::Collect
    } else {
        EntryAction::Descend
    }
}

/// Whether `budgets[i]` is the largest of the budgets.
pub open spec fn is_largest(budgets: Seq<usize>, i: int) -> bool {
    forall|j: int| 0 <= j < budgets.len() ==> budgets[j] <= budgets[i]
}

/// The runs the headline chart compares: the positions, in order, of the runs
/// that processed the largest token budget.
pub fn headline_runs(budgets: &[usize]) -> (res: Vec<usize>)
    ensures
        forall|a: int, b: int| 0 <= a < b < res@.len() ==> res@[a] < res@[b],
        forall|k: int| 0 <= k < res@.len() ==> #[trigger] res@[k] < budgets@.len() && is_largest(budgets@, res@[k] as int),
        forall|i: int| 0 <= i < budgets@.len() && is_largest(budgets@, i) ==> res@.contains(i as usize),
{
    let n = budgets.len();
    let mut largest: usize = 0;
    let mut i: usize = 0;
    while i < n
        invariant
            n == budgets@.len(),
            i <= n,
            forall|j: int| 0 <= j < i ==> budgets@[j] <= largest,
            i > 0 ==> exists|j: int| 0 <= j < i && budgets@[j] == largest,
        decreases n - i,
    {
        if budgets[i] > largest || i == 0 {
            largest = budgets[i];
        }
        i = i + 1;
    }
    let mut res: Vec<usize> = Vec::new();
    let mut k: usize = 0;
    while k < n
        invariant
            n == budgets@.len(),
            k <= n,
            forall|j: int| 0 <= j < n ==> budgets@[j] <= largest,
            n > 0 ==> exists|j: int| 0 <= j < n && budgets@[j] == largest,
            forall|a: int, b: int| 0 <= a < b < res@.len() ==> res@[a] < res@[b],
            forall|m: int| 0 <= m < res@.len() ==> #[trigger] res@[m] < k && budgets@[res@[m] as int] == largest,
            forall|j: int| 0 <= j < k && budgets@[j] == largest ==> res@.contains(j as usize),
        decreases n - k,
    {
        let ghost before = res@;
        if budgets[k] == largest {
            res.push(k);
        }
        assert forall|j: int| 0 <= j < k + 1 && budgets@[j] == largest implies res@.contains(j as usize) by {
            if j < k {
                let m = choose|m: int| 0 <= m < before.len() && before[m] == j as usize;
                assert(res@[m] == j as usize);
            } else {
                assert(res@[res@.len() - 1] == k);
            }
        }
        k = k + 1;
    }
    assert forall|j: int| 0 <= j < budgets@.len() && is_largest(budgets@, j) implies res@.contains(j as usize) by {
        let w = choose|w: int| 0 <= w < n && budgets@[w] == largest;
        assert(budgets@[w] <= budgets@[j]);
    }
    res
}

/// A text with each character replaced by its escape.
pub open spec fn escaped(s: Seq<char>) -> Seq<char>
    decreases s.len(),
{
    if s.len() == 0 {
        Seq::<char>::empty()
    } else {
        escaped(s.drop_last()) + escape_char(s.last())
    }
}

/// Escaping works character by character: the escape of two texts one after
/// the other is the escape of the first followed by that of the second.
pub proof fn lemma_escape_concat(a: Seq<char>, b: Seq<char>)
    ensures
        escaped(a + b) == escaped(a) + escaped(b),
    decreases b.len(),
{
    if b.len() == 0 {
        assert(a + b =~= a);
        assert(escaped(a) + escaped(b) =~= escaped(a));
    } else {
        lemma_escape_concat(a, b.drop_last());
        assert((a + b).drop_last() =~= a + b.drop_last());
        assert((a + b).last() == b.last());
        assert(escaped(a + b) =~= escaped(a) + escaped(b));
    }
}

/// Escaping changes only `&`, `<`, `>` and `"`: a text holding none of them
/// is left exactly as it is, and each of the four becomes its HTML entity, so
/// an HTML reader decodes the escaped text back to the original.
pub proof fn lemma_escape_changes_only_markup(s: Seq<char>)
    ensures
        (forall|i: int| 0 <= i < s.len() ==> s[i] != '&' && s[i] != '<' && s[i] != '>' && s[i] != '"')
            ==> escaped(s) == s,
        escaped(seq!['&']) == seq!['&', 'a', 'm', 'p', ';'],
        escaped(seq!['<']) == seq!['&', 'l', 't', ';'],
        escaped(seq!['>']) == seq!['&', 'g', 't', ';'],
        escaped(seq!['"']) == seq!['&', 'q', 'u', 'o', 't', ';'],
    decreases s.len(),
{
    reveal_with_fuel(escaped, 2);
    if s.len() > 0 {
        lemma_escape_changes_only_markup(s.drop_last());
        if forall|i: int| 0 <= i < s.len() ==> s[i] != '&' && s[i] != '<' && s[i] != '>' && s[i] != '"' {
            assert forall|i: int| 0 <= i < s.drop_last().len() implies s.drop_last()[i] != '&' && s.drop_last()[i] != '<'
                && s.drop_last()[i] != '>' && s.drop_last()[i] != '"' by {
                assert(s.drop_last()[i] == s[i]);
            }
            assert(s =~= s.drop_last().push(s.last()));
            assert(escaped(s) =~= s);
        }
    }
}

/// Replaces `&`, `<`, `>` and `"` by their character entities.
pub fn escape(value: &str) -> (res: String)
    ensures
        res@ == escaped(value@),
        forall|i: int| 0 <= i < res@.len() ==> res@[i] != '<' && res@[i] != '>' && res@[i] != '"',
        (forall|i: int| 0 <= i < value@.len() ==> value@[i] != '&' && value@[i] != '<' && value@[i] != '>'
            && value@[i] != '"') ==> res@ == value@,
{
    let input = chars_of(value);
    let mut out: Vec<char> = Vec::new();
    let mut k: usize = 0;
    while k < input.len()
        invariant
            k <= input@.len(),
            input@ == value@,
            out@ == escaped(input@.take(k as int)),
        decreases input@.len() - k,
    {
        let c = input[k];
        if c == '&' {
            out.push('&'); out.push('a'); out.push('m'); out.push('p'); out.push(';');
        } else if c == '<' {
            out.push('&'); out.push('l'); out.push('t'); out.push(';');
        } else if c == '>' {
            out.push('&'); out.push('g'); out.push('t'); out.push(';');
        } else if c == '"' {
            out.push('&'); out.push('q'); out.push('u'); out.push('o'); out.push('t'); out.push(';');
        } else {
            out.push(c);
        }
        assert(input@.take(k + 1).drop_last() =~= input@.take(k as int));
        assert(out@ =~= escaped(input@.take(k + 1)));
        k = k + 1;
    }
    assert(input@.take(k as int) =~= value@);
    proof {
        lemma_escaped_has_no_markup(value@);
        lemma_escape_changes_only_markup(value@);
    }
    string_from_chars(out.as_slice())
}

/// Escaped text holds no `<`, `>` or `"`.
pub proof fn lemma_escaped_has_no_markup(s: Seq<char>)
    ensures
        forall|i: int| 0 <= i < escaped(s).len() ==> escaped(s)[i] != '<' && escaped(s)[i] != '>' && escaped(s)[i] != '"',
    decreases s.len(),
{
    if s.len() > 0 {
        lemma_escaped_has_no_markup(s.drop_last());
        let prefix = escaped(s.drop_last());
        let tail = escape_char(s.last());
        assert forall|i: int| 0 <= i < escaped(s).len() implies escaped(s)[i] != '<' && escaped(s)[i] != '>' && escaped(s)[i] != '"' by {
            if i < prefix.len() {
                assert(escaped(s)[i] == prefix[i]);
            } else {
                assert(escaped(s)[i] == tail[i - prefix.len()]);
            }
        }
    }
}

} // verus!
