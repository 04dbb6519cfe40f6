use scalelab_rs::report::{
    check_run_count, entry_action, escape, group_by_name, headline_runs, EntryAction, report_order, validate_controls, ReportError, RunControls,
};

fn controls(run: &str, seed: u64, weights: &str) -> RunControls {
    RunControls {
        run: run.to_string(),
        seed,
        parameter_count: 27_520,
        tokenizer_sha256: "tok".to_string(),
        validation_sha256: "val".to_string(),
        control_sha256: "ctl".to_string(),
        initial_weights_sha256: weights.to_string(),
    }
}

fn paired() -> Vec<RunControls> {
    vec![
        controls("broad", 11, "w11"),
        controls("broad", 42, "w42"),
        controls("small", 11, "w11"),
        controls("small", 42, "w42"),
    ]
}

#[test]
fn paired_runs_are_accepted() {
    assert_eq!(validate_controls(&paired()), Ok(()));
}

#[test]
fn report_needs_two_runs() {
    assert_eq!(check_run_count(0), Err(ReportError::TooFewRuns));
    assert_eq!(check_run_count(1), Err(ReportError::TooFewRuns));
    assert_eq!(check_run_count(2), Ok(()));
}

#[test]
fn differing_controls_are_refused_in_order() {
    let mut runs = paired();
    runs[2].parameter_count = 1;
    runs[3].tokenizer_sha256 = "other".to_string();
    assert_eq!(validate_controls(&runs), Err(ReportError::DifferentParameterCount { run: "small".to_string() }));

    let mut runs = paired();
    runs[1].validation_sha256 = "other".to_string();
    runs[1].tokenizer_sha256 = "other".to_string();
    assert_eq!(validate_controls(&runs), Err(ReportError::DifferentTokenizer { run: "broad".to_string() }));

    let mut runs = paired();
    runs[3].validation_sha256 = "other".to_string();
    assert_eq!(validate_controls(&runs), Err(ReportError::DifferentValidationCorpus { run: "small".to_string() }));

    let mut runs = paired();
    runs[3].control_sha256 = "other".to_string();
    assert_eq!(validate_controls(&runs), Err(ReportError::DifferentControls { run: "small".to_string() }));
}

#[test]
fn unpaired_initial_weights_are_refused() {
    let mut runs = paired();
    runs[3].initial_weights_sha256 = "fresh".to_string();
    assert_eq!(
        validate_controls(&runs),
        Err(ReportError::UnpairedInitialWeights { run: "small".to_string(), seed: 42 })
    );
}

#[test]
fn seed_missing_a_run_is_refused() {
    let runs = vec![
        controls("broad", 73, "w73"),
        controls("broad", 11, "w11"),
        controls("small", 11, "w11"),
        controls("broad", 42, "w42"),
    ];
    assert_eq!(validate_controls(&runs), Err(ReportError::IncompleteSeed { seed: 42 }));
}

#[test]
fn runs_are_ordered_by_name_then_seed() {
    let runs = vec![
        controls("small", 42, "a"),
        controls("broad", 42, "b"),
        controls("small", 11, "c"),
        controls("broad", 11, "d"),
        controls("Zeta", 5, "e"),
    ];
    assert_eq!(report_order(&runs), vec![4, 3, 1, 2, 0]);
}

#[test]
fn equal_runs_keep_their_order() {
    let runs = vec![controls("a", 1, "x"), controls("a", 1, "y"), controls("a", 0, "z")];
    assert_eq!(report_order(&runs), vec![2, 0, 1]);
}

#[test]
fn prefix_sorts_before_longer_name() {
    let runs = vec![controls("broad-20x", 1, "x"), controls("broad", 1, "y"), controls("λ", 1, "z")];
    assert_eq!(report_order(&runs), vec![1, 0, 2]);
}

#[test]
fn runs_are_grouped_by_name() {
    let runs = vec![
        controls("small", 42, "a"),
        controls("broad", 42, "b"),
        controls("small", 11, "c"),
        controls("broad", 11, "d"),
    ];
    let groups = group_by_name(&runs);
    assert_eq!(groups.len(), 2);
    assert_eq!(groups[0].name, "broad");
    assert_eq!(groups[0].members, vec![1, 3]);
    assert_eq!(groups[1].name, "small");
    assert_eq!(groups[1].members, vec![0, 2]);
}

#[test]
fn markup_characters_are_escaped() {
    assert_eq!(escape("<a href=\"x\">&</a>"), "&lt;a href=&quot;x&quot;&gt;&amp;&lt;/a&gt;");
    assert_eq!(escape("plain λ text"), "plain λ text");
    assert_eq!(escape("&amp;"), "&amp;amp;");
}

#[test]
fn headline_compares_the_runs_with_the_largest_budget() {
    assert_eq!(headline_runs(&[640, 1280, 1280, 320]), vec![1, 2]);
    assert_eq!(headline_runs(&[5, 5, 5]), vec![0, 1, 2]);
    assert_eq!(headline_runs(&[0]), vec![0]);
    assert_eq!(headline_runs(&[]), Vec::<usize>::new());
}

#[test]
fn completed_runs_are_found_below_the_experiment_directory() {
    assert_eq!(entry_action(false, "summary.json", false), EntryAction::Skip);
    assert_eq!(entry_action(true, "report", true), EntryAction::Skip);
    assert_eq!(entry_action(true, "seed-42", true), EntryAction::Collect);
    assert_eq!(entry_action(true, "broad", false), EntryAction::Descend);
    assert_eq!(entry_action(true, "reports", false), EntryAction::Descend);
}

#[test]
fn control_verdict_does_not_depend_on_run_order() {
    let mut runs = paired();
    runs.reverse();
    assert_eq!(validate_controls(&runs), Ok(()));
    let mut bad = paired();
    bad[2].initial_weights_sha256 = "other".to_string();
    let mut reordered = bad.clone();
    reordered.rotate_left(2);
    assert!(validate_controls(&bad).is_err());
    assert!(validate_controls(&reordered).is_err());
}
