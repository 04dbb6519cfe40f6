use scalelab_rs::corpus::{is_allowed, normalize, normalize_with, prepare_corpora, strip_gutenberg, CorpusError};

#[test]
fn normalization_is_lowercase_and_stable() {
    assert_eq!(
        normalize("  Hello—WORLD!\r\n\r\n“Hi”  "),
        "hello-world!\n\n\"hi\"\n"
    );
}

#[test]
fn wrapper_is_removed() {
    let text = "header\n*** START OF THE PROJECT GUTENBERG EBOOK TEST ***\nBody\n*** END OF THE PROJECT GUTENBERG EBOOK TEST ***\nlicense";
    assert_eq!(strip_gutenberg(text).unwrap(), "Body\n");
}

#[test]
fn missing_start_marker_is_reported() {
    assert_eq!(strip_gutenberg("no markers here"), Err(CorpusError::MissingStartMarker));
}

#[test]
fn start_marker_without_line_break_is_reported() {
    let text = "x *** START OF THE PROJECT GUTENBERG EBOOK TEST ***";
    assert_eq!(strip_gutenberg(text), Err(CorpusError::MissingStartLine));
}

#[test]
fn missing_end_marker_is_reported() {
    let text = "*** START OF THE PROJECT GUTENBERG EBOOK TEST ***\nBody without end";
    assert_eq!(strip_gutenberg(text), Err(CorpusError::MissingEndMarker));
}

#[test]
fn end_marker_before_start_is_not_used() {
    let text = "*** END OF THE PROJECT GUTENBERG EBOOK A ***\n*** START OF THE PROJECT GUTENBERG EBOOK A ***\nBody\n*** END OF THE PROJECT GUTENBERG EBOOK A ***\n";
    assert_eq!(strip_gutenberg(text).unwrap(), "Body\n");
}

#[test]
fn uppercase_letters_are_lowered() {
    assert_eq!(normalize("ABC xyz"), "abc xyz\n");
}

#[test]
fn unicode_whitespace_becomes_one_space() {
    assert_eq!(normalize("a\u{2003}\u{2003}b"), "a b\n");
}

#[test]
fn ellipsis_and_quotes_are_replaced() {
    assert_eq!(normalize("Wait… ‘no’"), "wait... 'no'\n");
}

#[test]
fn at_most_two_line_breaks_in_a_row() {
    assert_eq!(normalize("a\n\n\n\nb"), "a\n\nb\n");
}

#[test]
fn spaces_before_a_line_break_are_dropped() {
    assert_eq!(normalize("a  \n b"), "a\nb\n");
}

#[test]
fn disallowed_characters_are_dropped() {
    assert_eq!(normalize("x#y_z*"), "xyz\n");
}

#[test]
fn empty_text_normalizes_to_one_line_break() {
    assert_eq!(normalize(""), "\n");
    assert_eq!(normalize(" \t\r\n "), "\n");
}

#[test]
fn normalized_text_has_only_kept_characters() {
    let out = normalize("The QUICK brown fox — jumps! ¿Qué? 42 {}[] «x»\r\n\tEnd");
    assert!(out.ends_with('\n'));
    assert!(out
        .chars()
        .all(|c| is_allowed(c) || c == ' ' || c == '\n'));
    assert!(!out.chars().any(|c| c.is_ascii_uppercase()));
}

#[test]
fn allowed_characters() {
    for c in ['a', 'z', '0', '9', '.', ',', ';', ':', '!', '?', '\'', '"', '-', '(', ')'] {
        assert!(is_allowed(c), "{c:?}");
    }
    for c in ['A', 'Z', ' ', '\n', '#', 'é', '_', '[', '{'] {
        assert!(!is_allowed(c), "{c:?}");
    }
}

fn book(body: &str) -> String {
    format!(
        "Header\n*** START OF THE PROJECT GUTENBERG EBOOK X ***\n{body}\n*** END OF THE PROJECT GUTENBERG EBOOK X ***\nLicence"
    )
}

#[test]
fn corpora_are_cut_from_the_broad_text() {
    let prepared = prepare_corpora(&book("Hello  World"), &book("Alice"), 5).unwrap();
    assert_eq!(prepared.broad, "hello world\n");
    assert_eq!(prepared.small, "hello");
    assert_eq!(prepared.validation, "alice\n");
    assert!(prepared.broad.starts_with(&prepared.small));
}

#[test]
fn small_corpus_may_be_the_whole_broad_corpus() {
    let prepared = prepare_corpora(&book("Ab"), &book("Cd"), 3).unwrap();
    assert_eq!(prepared.small, "ab\n");
}

#[test]
fn too_short_training_text_is_refused() {
    let result = prepare_corpora(&book("Hello"), &book("Alice"), 100);
    assert_eq!(result.err(), Some(CorpusError::TooFewCharacters { required: 100 }));
}

#[test]
fn identical_corpora_are_refused() {
    let result = prepare_corpora(&book("Same text"), &book("SAME   text"), 2);
    assert_eq!(result.err(), Some(CorpusError::IdenticalCorpora));
}

#[test]
fn unwrapped_training_book_is_refused() {
    let result = prepare_corpora("no wrapper", &book("Alice"), 2);
    assert_eq!(result.err(), Some(CorpusError::MissingStartMarker));
}

#[test]
fn spaces_are_single_and_never_touch_line_breaks() {
    assert_eq!(normalize("a  \t b \n  c"), "a b\nc\n");
}

#[test]
fn line_breaks_separated_by_spaces_are_kept() {
    let once = normalize("a\n \n \nb");
    assert_eq!(once, "a\n\n\nb\n");
    assert_eq!(normalize(&once), "a\n\nb\n");
}

#[test]
fn normalization_takes_the_given_lowercase_mappings() {
    let lowered = vec![vec!['h'], vec!['i'], vec![' '], vec!['x', 'y']];
    assert_eq!(normalize_with("HI Z", &lowered), "hi xy\n");
    let unchanged = vec![vec!['H'], vec!['I'], vec![' '], vec!['Z']];
    assert_eq!(normalize_with("HI Z", &unchanged), "\n");
    let std_lowered: Vec<Vec<char>> = "Hello—WORLD!".chars().map(|c| c.to_lowercase().collect()).collect();
    assert_eq!(normalize_with("Hello—WORLD!", &std_lowered), normalize("Hello—WORLD!"));
}
