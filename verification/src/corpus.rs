//! Turning two raw Project Gutenberg books into controlled training and
//! validation corpora: the wrapper is stripped, the text normalized, and the
//! small corpus cut as a prefix of the broad one.
use vstd::prelude::*;
use crate::text::{unicode_whitespace, is_whitespace, chars_of, string_from_chars, same_chars, find_from, first_match, occurs_at, lemma_first_match};

verus! {

/// Line that opens the body of a Project Gutenberg ebook.
pub const START_MARKER: &'static str = "*** START OF THE PROJECT GUTENBERG EBOOK";

/// Line that closes the body of a Project Gutenberg ebook.
pub const END_MARKER: &'static str = "*** END OF THE PROJECT GUTENBERG EBOOK";

/// Why raw books could not be turned into corpora.
#[derive(Debug, Clone, Copy, PartialEq, Eq, Structural)]
pub enum CorpusError {
    /// The start marker does not occur in the text.
    MissingStartMarker,
    /// No line break follows the start marker.
    MissingStartLine,
    /// The end marker does not occur after the start line.
    MissingEndMarker,
    /// The normalized training text has fewer characters than the small corpus needs.
    TooFewCharacters { required: usize },
    /// The normalized training and validation texts are identical.
    IdenticalCorpora,
}

// ---------------------------------------------------------------------------
// Wrapper removal

/// What `strip_gutenberg` gives for a text: the part after the line holding the
/// first start marker and before the first end marker that follows it.
pub open spec fn spec_strip_gutenberg(t: Seq<char>) -> Result<Seq<char>, CorpusError> {
    match first_match(t, START_MARKER@, 0) {
        None => Err(CorpusError::MissingStartMarker),
        Some(start) => match first_match(t, seq!['\n'], start) {
            None => Err(CorpusError::MissingStartLine),
            Some(newline) => match first_match(t, END_MARKER@, newline + 1) {
                None => Err(CorpusError::MissingEndMarker),
                Some(end) => Ok(t.subrange(newline + 1, end)),
            },
        },
    }
}

/// Whether an executable result carries the text or the error of a specified one.
pub open spec fn text_result_is(r: Result<String, CorpusError>, s: Result<Seq<char>, CorpusError>) -> bool {
    match (r, s) {
        (Ok(a), Ok(b)) => a@ == b,
        (Err(a), Err(b)) => a == b,
        _ => false,
    }
}

/// Removes the Project Gutenberg header and licence around the body of a book.
pub fn strip_gutenberg(text: &str) -> (res: Result<String, CorpusError>)
    ensures
        text_result_is(res, spec_strip_gutenberg(text@)),
{
    let t = chars_of(text);
    let start_marker = chars_of(START_MARKER);
    let end_marker = chars_of(END_MARKER);
    let newline = vec!['\n'];
    assert(newline@ =~= seq!['\n']);
    let _len = t.len();
    let start = match find_from(&t, &start_marker, 0) {
        Some(i) => i,
        None => return Err(CorpusError::MissingStartMarker),
    };
    proof {
        lemma_first_match(t@, start_marker@, 0);
    }
    let line_end = match find_from(&t, &newline, start) {
        Some(i) => i,
        None => return Err(CorpusError::MissingStartLine),
    };
    proof {
        lemma_first_match(t@, newline@, start as int);
    }
    let body_start = line_end + 1;
    let end = match find_from(&t, &end_marker, body_start) {
        Some(i) => i,
        None => return Err(CorpusError::MissingEndMarker),
    };
    proof {
        lemma_first_match(t@, end_marker@, body_start as int);
    }
    Ok(string_from_chars(&t.as_slice()[body_start..end]))
}

// ---------------------------------------------------------------------------
// Normalization

/// Characters kept by normalization besides spaces and line breaks: ASCII
/// lowercase letters, digits and a few punctuation marks.
pub open spec fn allowed_char(c: char) -> bool {
    ||| ('a' <= c && c <= 'z')
    ||| ('0' <= c && c <= '9')
    ||| c == '.' || c == ',' || c == ';' || c == ':' || c == '!' || c == '?'
    ||| c == '\'' || c == '"' || c == '-' || c == '(' || c == ')'
}

/// Whether normalization keeps `character`.
pub fn is_allowed(character: char) -> (res: bool)
    ensures
        res == allowed_char(character),
{
    ('a' <= character && character <= 'z') || ('0' <= character && character <= '9')
        || matches!(character, '.' | ',' | ';' | ':' | '!' | '?' | '\'' | '"' | '-' | '(' | ')')
}

/// What `char::to_lowercase` yields for a character.
pub uninterp spec fn lowercase_of(c: char) -> Seq<char>;


/// The lowercase mapping of `c`, from `char::to_lowercase`.
#[verifier::external_body]
fn lowercase(c: char) -> (res: Vec<char>)
    ensures
        res@ == lowercase_of(c),
{
    c.to_lowercase().collect()
}


/// Typographic characters that normalization replaces by plain ones; empty
/// where a character is not replaced.
pub open spec fn replacement(c: char) -> Seq<char> {
    if c == '\u{2018}' || c == '\u{2019}' || c == '\u{201a}' {
        seq!['\'']
    } else if c == '\u{201c}' || c == '\u{201d}' || c == '\u{201e}' {
        seq!['"']
    } else if c == '\u{2014}' || c == '\u{2013}' {
        seq!['-']
    } else if c == '\u{2026}' {
        seq!['.', '.', '.']
    } else if c == '\u{a0}' || c == '\t' || c == '\r' {
        seq![' ']
    } else {
        seq![]
    }
}

/// The characters that one input character stands for before filtering, given
/// its lowercase mapping: its replacement, or else the mapping.
pub open spec fn expansion(c: char, lowered: Seq<char>) -> Seq<char> {
    if replacement(c).len() == 0 {
        lowered
    } else {
        replacement(c)
    }
}

/// The lowercase mapping of each character of a text.
pub open spec fn lowercase_mappings(text: Seq<char>) -> Seq<Seq<char>> {
    text.map_values(|c: char| lowercase_of(c))
}

/// The views of a list of character vectors.
pub open spec fn char_vec_views(v: Seq<Vec<char>>) -> Seq<Seq<char>> {
    v.map_values(|x: Vec<char>| x@)
}

fn replacement_chars(c: char) -> (res: Vec<char>)
    ensures
        res@ == replacement(c),
{
    let res = match c {
        '\u{2018}' | '\u{2019}' | '\u{201a}' => vec!['\''],
        '\u{201c}' | '\u{201d}' | '\u{201e}' => vec!['"'],
        '\u{2014}' | '\u{2013}' => vec!['-'],
        '\u{2026}' => vec!['.', '.', '.'],
        '\u{a0}' | '\t' | '\r' => vec![' '],
        _ => Vec::new(),
    };
    assert(res@ =~= replacement(c));
    res
}

/// `s` without its trailing spaces.
pub open spec fn trim_trailing_spaces(s: Seq<char>) -> Seq<char>
    decreases s.len(),
{
    if s.len() > 0 && s.last() == ' ' {
        trim_trailing_spaces(s.drop_last())
    } else {
        s
    }
}

/// Whether `s` ends with a line break.
pub open spec fn ends_with_newline(s: Seq<char>) -> bool {
    s.len() > 0 && s.last() == '\n'
}

/// The normalizer's state: the output so far, whether the last character seen
/// was whitespace, and how many line breaks came in a row.
pub type NormalizeState = (Seq<char>, bool, nat);

/// One character after expansion fed to the normalizer.
pub open spec fn feed_char(st: NormalizeState, ch: char) -> NormalizeState {
    let (out, previous_space, newlines) = st;
    if ch == '\n' {
        let kept = trim_trailing_spaces(out);
        (if newlines < 2 { kept.push('\n') } else { kept }, false, newlines + 1)
    } else if unicode_whitespace(ch) {
        (
            if !previous_space && !ends_with_newline(out) { out.push(' ') } else { out },
            true,
            0,
        )
    } else if allowed_char(ch) {
        (out.push(ch), false, 0)
    } else {
        st
    }
}

/// Several characters fed in order.
pub open spec fn feed_chars(st: NormalizeState, chars: Seq<char>) -> NormalizeState
    decreases chars.len(),
{
    if chars.len() == 0 {
        st
    } else {
        feed_char(feed_chars(st, chars.drop_last()), chars.last())
    }
}

/// The normalizer's state after the whole text, the lowercase mapping of the
/// character at each position being given at that position of `lowered`.
pub open spec fn scan_text(text: Seq<char>, lowered: Seq<Seq<char>>) -> NormalizeState
    decreases text.len(),
{
    if text.len() == 0 {
        (Seq::<char>::empty(), false, 0)
    } else {
        feed_chars(scan_text(text.drop_last(), lowered), expansion(text.last(), lowered[text.len() - 1]))
    }
}

/// `s` without leading whitespace.
pub open spec fn trim_start(s: Seq<char>) -> Seq<char>
    decreases s.len(),
{
    if s.len() > 0 && unicode_whitespace(s[0]) {
        trim_start(s.drop_first())
    } else {
        s
    }
}

/// `s` without trailing whitespace.
pub open spec fn trim_end(s: Seq<char>) -> Seq<char>
    decreases s.len(),
{
    if s.len() > 0 && unicode_whitespace(s.last()) {
        trim_end(s.drop_last())
    } else {
        s
    }
}

/// The normalized form of a text given the lowercase mapping of each of its
/// characters: the scanned output, trimmed, with one final line break.
pub open spec fn spec_normalize_with(text: Seq<char>, lowered: Seq<Seq<char>>) -> Seq<char> {
    trim_end(trim_start(scan_text(text, lowered).0)).push('\n')
}

/// The normalized form of a text, with std's lowercase mapping.
pub open spec fn spec_normalize(text: Seq<char>) -> Seq<char> {
    spec_normalize_with(text, lowercase_mappings(text))
}

/// A character that may appear in normalized text.
pub open spec fn normalized_char(c: char) -> bool {
    allowed_char(c) || c == ' ' || c == '\n'
}

proof fn lemma_trim_trailing_spaces_alphabet(s: Seq<char>)
    requires
        forall|i: int| 0 <= i < s.len() ==> normalized_char(#[trigger] s[i]),
    ensures
        trim_trailing_spaces(s).len() <= s.len(),
        trim_trailing_spaces(s) == s.subrange(0, trim_trailing_spaces(s).len() as int),
        forall|i: int| 0 <= i < trim_trailing_spaces(s).len() ==> normalized_char(#[trigger] trim_trailing_spaces(s)[i]),
    decreases s.len(),
{
    if s.len() > 0 && s.last() == ' ' {
        lemma_trim_trailing_spaces_alphabet(s.drop_last());
        let t = trim_trailing_spaces(s.drop_last());
        assert(s.drop_last().subrange(0, t.len() as int) =~= s.subrange(0, t.len() as int));
    } else {
        assert(s.subrange(0, s.len() as int) =~= s);
    }
}

proof fn lemma_feed_chars_alphabet(st: NormalizeState, chars: Seq<char>)
    requires
        forall|i: int| 0 <= i < st.0.len() ==> normalized_char(#[trigger] st.0[i]),
    ensures
        forall|i: int| 0 <= i < feed_chars(st, chars).0.len() ==> normalized_char(#[trigger] feed_chars(st, chars).0[i]),
    decreases chars.len(),
{
    if chars.len() > 0 {
        lemma_feed_chars_alphabet(st, chars.drop_last());
        let prev = feed_chars(st, chars.drop_last());
        let ch = chars.last();
        if ch == '\n' {
            lemma_trim_trailing_spaces_alphabet(prev.0);
        }
        let next = feed_char(prev, ch);
        assert forall|i: int| 0 <= i < next.0.len() implies normalized_char(#[trigger] next.0[i]) by {
            if ch == '\n' {
                let kept = trim_trailing_spaces(prev.0);
                if i < kept.len() {
                    assert(normalized_char(kept[i]));
                }
            } else if i < prev.0.len() {
                assert(normalized_char(prev.0[i]));
            }
        }
    }
}

proof fn lemma_scan_alphabet(text: Seq<char>, lowered: Seq<Seq<char>>)
    ensures
        forall|i: int| 0 <= i < scan_text(text, lowered).0.len() ==> normalized_char(#[trigger] scan_text(text, lowered).0[i]),
    decreases text.len(),
{
    if text.len() > 0 {
        lemma_scan_alphabet(text.drop_last(), lowered);
        lemma_feed_chars_alphabet(scan_text(text.drop_last(), lowered), expansion(text.last(), lowered[text.len() - 1]));
    }
}

/// Trimming leading whitespace leaves a suffix of the text.
pub proof fn lemma_trim_start_is_suffix(s: Seq<char>)
    ensures
        trim_start(s).len() <= s.len(),
        trim_start(s) == s.subrange(s.len() - trim_start(s).len(), s.len() as int),
    decreases s.len(),
{
    if s.len() > 0 && unicode_whitespace(s[0]) {
        lemma_trim_start_is_suffix(s.drop_first());
        let t = trim_start(s.drop_first());
        assert(s.drop_first().subrange(s.len() - 1 - t.len(), s.len() - 1) =~= s.subrange(
            s.len() - t.len(),
            s.len() as int,
        ));
    } else {
        assert(s.subrange(0, s.len() as int) =~= s);
    }
}

/// Trimming trailing whitespace leaves a prefix of the text.
pub proof fn lemma_trim_end_is_prefix(s: Seq<char>)
    ensures
        trim_end(s).len() <= s.len(),
        trim_end(s) == s.subrange(0, trim_end(s).len() as int),
    decreases s.len(),
{
    if s.len() > 0 && unicode_whitespace(s.last()) {
        lemma_trim_end_is_prefix(s.drop_last());
        let t = trim_end(s.drop_last());
        assert(s.drop_last().subrange(0, t.len() as int) =~= s.subrange(0, t.len() as int));
    } else {
        assert(s.subrange(0, s.len() as int) =~= s);
    }
}

/// Normalized text holds only ASCII lowercase letters, digits, the kept
/// punctuation, spaces and line breaks (so in particular no uppercase letter),
/// and it ends with a line break, whatever the lowercase mappings are.
pub proof fn lemma_normalized_alphabet(text: Seq<char>, lowered: Seq<Seq<char>>)
    ensures
        forall|i: int| 0 <= i < spec_normalize_with(text, lowered).len() ==> normalized_char(#[trigger] spec_normalize_with(text, lowered)[i]),
        spec_normalize_with(text, lowered).len() > 0,
        spec_normalize_with(text, lowered).last() == '\n',
{
    let out = scan_text(text, lowered).0;
    lemma_scan_alphabet(text, lowered);
    lemma_trim_start_is_suffix(out);
    let a = trim_start(out);
    lemma_trim_end_is_prefix(a);
    let b = trim_end(a);
    assert forall|i: int| 0 <= i < b.len() implies normalized_char(#[trigger] b[i]) by {
        assert(b[i] == a[i]);
        assert(a[i] == out[out.len() - a.len() + i]);
    }
    let r = spec_normalize_with(text, lowered);
    assert forall|i: int| 0 <= i < r.len() implies normalized_char(#[trigger] r[i]) by {
        if i < b.len() {
            assert(r[i] == b[i]);
        }
    }
}

/// Two neighbouring characters that normalized text never holds: two spaces,
/// or a space next to a line break.
pub open spec fn loose_pair(a: char, b: char) -> bool {
    (a == ' ' && b == ' ') || (a == ' ' && b == '\n') || (a == '\n' && b == ' ')
}

/// Spaces in `s` come one at a time and never touch a line break.
pub open spec fn spaces_collapsed(s: Seq<char>) -> bool {
    forall|i: int, j: int| 0 <= i && j == i + 1 && j < s.len() ==> !loose_pair(#[trigger] s[i], #[trigger] s[j])
}

/// The normalizer's state keeps its output's spaces collapsed, and unless the
/// last character seen was whitespace, the output does not end with a space.
spec fn scan_spacing(st: NormalizeState) -> bool {
    &&& spaces_collapsed(st.0)
    &&& !st.1 ==> (st.0.len() == 0 || st.0.last() != ' ')
}

proof fn lemma_collapsed_subrange(s: Seq<char>, a: int, b: int)
    requires
        spaces_collapsed(s),
        0 <= a <= b <= s.len(),
    ensures
        spaces_collapsed(s.subrange(a, b)),
{
    let t = s.subrange(a, b);
    assert forall|i: int, j: int| 0 <= i && j == i + 1 && j < t.len() implies !loose_pair(#[trigger] t[i], #[trigger] t[j]) by {
        assert(t[i] == s[a + i] && t[j] == s[a + j]);
    }
}

proof fn lemma_collapsed_push(s: Seq<char>, c: char)
    requires
        spaces_collapsed(s),
        s.len() == 0 || !loose_pair(s.last(), c),
    ensures
        spaces_collapsed(s.push(c)),
{
    let t = s.push(c);
    assert forall|i: int, j: int| 0 <= i && j == i + 1 && j < t.len() implies !loose_pair(#[trigger] t[i], #[trigger] t[j]) by {
        if j < s.len() {
            assert(t[i] == s[i] && t[j] == s[j]);
        } else {
            assert(t[i] == s.last());
        }
    }
}

/// Dropping trailing spaces leaves a prefix of the text that does not end with a space.
pub proof fn lemma_trim_trailing_spaces_prefix(s: Seq<char>)
    ensures
        trim_trailing_spaces(s).len() <= s.len(),
        trim_trailing_spaces(s) == s.subrange(0, trim_trailing_spaces(s).len() as int),
        trim_trailing_spaces(s).len() == 0 || trim_trailing_spaces(s).last() != ' ',
    decreases s.len(),
{
    if s.len() > 0 && s.last() == ' ' {
        lemma_trim_trailing_spaces_prefix(s.drop_last());
        let t = trim_trailing_spaces(s.drop_last());
        assert(s.drop_last().subrange(0, t.len() as int) =~= s.subrange(0, t.len() as int));
    } else {
        assert(s.subrange(0, s.len() as int) =~= s);
    }
}

proof fn lemma_feed_char_spacing(st: NormalizeState, ch: char)
    requires
        scan_spacing(st),
    ensures
        scan_spacing(feed_char(st, ch)),
{
    let out = st.0;
    if ch == '\n' {
        lemma_trim_trailing_spaces_prefix(out);
        let kept = trim_trailing_spaces(out);
        lemma_collapsed_subrange(out, 0, kept.len() as int);
        if st.2 < 2 {
            lemma_collapsed_push(kept, '\n');
        }
    } else if unicode_whitespace(ch) {
        if !st.1 && !ends_with_newline(out) {
            lemma_collapsed_push(out, ' ');
        }
    } else if allowed_char(ch) {
        lemma_collapsed_push(out, ch);
    }
}

proof fn lemma_feed_chars_spacing(st: NormalizeState, chars: Seq<char>)
    requires
        scan_spacing(st),
    ensures
        scan_spacing(feed_chars(st, chars)),
    decreases chars.len(),
{
    if chars.len() > 0 {
        lemma_feed_chars_spacing(st, chars.drop_last());
        lemma_feed_char_spacing(feed_chars(st, chars.drop_last()), chars.last());
    }
}

proof fn lemma_scan_spacing(text: Seq<char>, lowered: Seq<Seq<char>>)
    ensures
        scan_spacing(scan_text(text, lowered)),
    decreases text.len(),
{
    if text.len() > 0 {
        lemma_scan_spacing(text.drop_last(), lowered);
        lemma_feed_chars_spacing(scan_text(text.drop_last(), lowered), expansion(text.last(), lowered[text.len() - 1]));
    }
}

/// After leading whitespace is trimmed, the text is empty or starts with a non-whitespace character.
pub proof fn lemma_trim_start_first(s: Seq<char>)
    ensures
        trim_start(s).len() == 0 || !unicode_whitespace(trim_start(s)[0]),
    decreases s.len(),
{
    if s.len() > 0 && unicode_whitespace(s[0]) {
        lemma_trim_start_first(s.drop_first());
    }
}

/// After trailing whitespace is trimmed, the text is empty or ends with a non-whitespace character.
pub proof fn lemma_trim_end_last(s: Seq<char>)
    ensures
        trim_end(s).len() == 0 || !unicode_whitespace(trim_end(s).last()),
    decreases s.len(),
{
    if s.len() > 0 && unicode_whitespace(s.last()) {
        lemma_trim_end_last(s.drop_last());
    }
}

/// Normalized text holds single spaces that never touch a line break, and it
/// starts with neither a space nor a line break unless it is one line break,
/// whatever the lowercase mappings are.
pub proof fn lemma_normalized_spacing(text: Seq<char>, lowered: Seq<Seq<char>>)
    ensures
        spaces_collapsed(spec_normalize_with(text, lowered)),
        spec_normalize_with(text, lowered).len() > 1 ==> spec_normalize_with(text, lowered)[0] != ' ' && spec_normalize_with(text, lowered)[0] != '\n',
{
    let out = scan_text(text, lowered).0;
    lemma_scan_spacing(text, lowered);
    lemma_trim_start_is_suffix(out);
    let a = trim_start(out);
    lemma_collapsed_subrange(out, out.len() - a.len(), out.len() as int);
    lemma_trim_end_is_prefix(a);
    let b = trim_end(a);
    lemma_collapsed_subrange(a, 0, b.len() as int);
    lemma_trim_end_last(a);
    lemma_trim_start_first(out);
    lemma_collapsed_push(b, '\n');
    if b.len() > 0 {
        assert(b[0] == a[0]);
    }
}

/// Normalizes a text, given the lowercase mapping of each of its characters
/// (`lowered[i]` for `text[i]`): lowercases it, replaces typographic quotes, dashes, ellipses and odd
/// spaces, and keeps only ASCII letters, digits, selected punctuation, single
/// spaces (none next to a line break) and line breaks, at most two of each run
/// of consecutive input line breaks; then trims it and ends it with one line
/// break.
pub fn normalize_with(text: &str, lowered: &[Vec<char>]) -> (res: String)
    requires
        lowered@.len() == text@.len(),
    ensures
        res@ == spec_normalize_with(text@, char_vec_views(lowered@)),
        forall|i: int| 0 <= i < res@.len() ==> normalized_char(#[trigger] res@[i]),
        spaces_collapsed(res@),
        res@.last() == '\n',
{
    let input = chars_of(text);
    let mut output: Vec<char> = Vec::new();
    let mut previous_space = false;
    let mut consecutive_newlines: usize = 0;
    let ghost mut newlines_seen: nat = 0;
    let mut k: usize = 0;
    while k < input.len()
        invariant
            k <= input@.len(),
            input@ == text@,
            lowered@.len() == input@.len(),
            scan_text(input@.take(k as int), char_vec_views(lowered@)) == (output@, previous_space, newlines_seen),
            consecutive_newlines as nat == (if newlines_seen < 2 { newlines_seen } else { 2 }),
        decreases input@.len() - k,
    {
        let read = input[k];
        let replaced = replacement_chars(read);
        let characters: &[char] = if replaced.len() == 0 {
            lowered[k].as_slice()
        } else {
            replaced.as_slice()
        };
        let ghost before: NormalizeState = (output@, previous_space, newlines_seen);
        let mut j: usize = 0;
        while j < characters.len()
            invariant
                j <= characters@.len(),
                characters@ == expansion(read, char_vec_views(lowered@)[k as int]),
                feed_chars(before, characters@.take(j as int)) == (output@, previous_space, newlines_seen),
                consecutive_newlines as nat == (if newlines_seen < 2 { newlines_seen } else { 2 }),
            decreases characters@.len() - j,
        {
            let character = characters[j];
            let ghost st: NormalizeState = (output@, previous_space, newlines_seen);
            if character == '\n' {
                while output.len() > 0 && output[output.len() - 1] == ' '
                    invariant
                        trim_trailing_spaces(output@) == trim_trailing_spaces(st.0),
                    decreases output@.len(),
                {
                    output.pop();
                }
                assert(trim_trailing_spaces(output@) == output@);
                if consecutive_newlines < 2 {
                    output.push('\n');
                    consecutive_newlines = consecutive_newlines + 1;
                }
                proof {
                    newlines_seen = newlines_seen + 1;
                }
                previous_space = false;
            } else if is_whitespace(character) {
                if !previous_space && !(output.len() > 0 && output[output.len() - 1] == '\n') {
                    output.push(' ');
                }
                previous_space = true;
                consecutive_newlines = 0;
                proof {
                    newlines_seen = 0;
                }
            } else if is_allowed(character) {
                output.push(character);
                previous_space = false;
                consecutive_newlines = 0;
                proof {
                    newlines_seen = 0;
                }
            }
            assert(characters@.take(j + 1).drop_last() =~= characters@.take(j as int));
            j = j + 1;
        }
        assert(characters@.take(j as int) =~= characters@);
        assert(input@.take(k + 1).drop_last() =~= input@.take(k as int));
        k = k + 1;
    }
    assert(input@.take(k as int) =~= text@);
    // Trim leading and trailing whitespace.
    let n = output.len();
    assert(output@.subrange(0, n as int) =~= output@);
    let mut first: usize = 0;
    while first < n && is_whitespace(output[first])
        invariant
            n == output@.len(),
            first <= n,
            trim_start(output@.subrange(first as int, n as int)) == trim_start(output@),
        decreases n - first,
    {
        assert(output@.subrange(first as int, n as int).drop_first() =~= output@.subrange(first + 1, n as int));
        first = first + 1;
    }
    assert(output@.subrange(first as int, n as int) == trim_start(output@.subrange(first as int, n as int)));
    let mut last: usize = n;
    while last > first && is_whitespace(output[last - 1])
        invariant
            n == output@.len(),
            first <= last <= n,
            trim_end(output@.subrange(first as int, last as int)) == trim_end(trim_start(output@)),
        decreases last - first,
    {
        assert(output@.subrange(first as int, last as int).drop_last() =~= output@.subrange(first as int, last - 1));
        last = last - 1;
    }
    let mut result: Vec<char> = Vec::new();
    let mut i: usize = first;
    while i < last
        invariant
            first <= i <= last <= n,
            n == output@.len(),
            result@ == output@.subrange(first as int, i as int),
        decreases last - i,
    {
        result.push(output[i]);
        i = i + 1;
        assert(result@ =~= output@.subrange(first as int, i as int));
    }
    result.push('\n');
    proof {
        lemma_normalized_alphabet(text@, char_vec_views(lowered@));
        lemma_normalized_spacing(text@, char_vec_views(lowered@));
    }
    string_from_chars(result.as_slice())
}

/// The normalizer's state depends only on what each input character stands for.
proof fn lemma_scan_same_expansions(a: Seq<char>, la: Seq<Seq<char>>, b: Seq<char>, lb: Seq<Seq<char>>)
    requires
        a.len() == b.len(),
        la.len() >= a.len(),
        lb.len() >= b.len(),
        forall|i: int| 0 <= i < a.len() ==> #[trigger] expansion(a[i], la[i]) == expansion(b[i], lb[i]),
    ensures
        scan_text(a, la) == scan_text(b, lb),
    decreases a.len(),
{
    if a.len() > 0 {
        lemma_scan_same_expansions(a.drop_last(), la, b.drop_last(), lb);
        assert(expansion(a[a.len() - 1], la[a.len() - 1]) == expansion(b[b.len() - 1], lb[b.len() - 1]));
    }
}

/// A typographic dash (U+2014 or U+2013) normalizes exactly as a hyphen: in any
/// text, whatever the dash's own lowercase mapping, putting `-` in its place
/// leaves the normalized text unchanged.
pub proof fn lemma_dash_normalizes_as_hyphen(
    x: Seq<char>,
    y: Seq<char>,
    lx: Seq<Seq<char>>,
    ly: Seq<Seq<char>>,
    d: char,
    m: Seq<char>,
)
    requires
        d == '\u{2014}' || d == '\u{2013}',
        lx.len() == x.len(),
        ly.len() == y.len(),
    ensures
        spec_normalize_with(x.push(d) + y, lx.push(m) + ly) == spec_normalize_with(x.push('-') + y, lx.push(seq!['-']) + ly),
{
    let a = x.push(d) + y;
    let b = x.push('-') + y;
    let la = lx.push(m) + ly;
    let lb = lx.push(seq!['-']) + ly;
    assert forall|i: int| 0 <= i < a.len() implies #[trigger] expansion(a[i], la[i]) == expansion(b[i], lb[i]) by {
        if i < x.len() {
            assert(a[i] == x[i] && b[i] == x[i] && la[i] == lx[i] && lb[i] == lx[i]);
        } else if i == x.len() {
            assert(a[i] == d && b[i] == '-' && lb[i] == seq!['-']);
            assert(expansion(a[i], la[i]) =~= seq!['-']);
            assert(expansion(b[i], lb[i]) =~= seq!['-']);
        } else {
            assert(a[i] == y[i - x.len() - 1] && b[i] == y[i - x.len() - 1]);
            assert(la[i] == ly[i - x.len() - 1] && lb[i] == ly[i - x.len() - 1]);
        }
    }
    lemma_scan_same_expansions(a, la, b, lb);
}

proof fn lemma_trim_trailing_keeps(s: Seq<char>, j: int)
    requires
        0 <= j < s.len(),
        s[j] != ' ',
    ensures
        j < trim_trailing_spaces(s).len() <= s.len(),
        trim_trailing_spaces(s) == s.subrange(0, trim_trailing_spaces(s).len() as int),
    decreases s.len(),
{
    lemma_trim_trailing_spaces_prefix(s);
    if s.len() > 0 && s.last() == ' ' {
        assert(j < s.len() - 1);
        assert(s.drop_last()[j] == s[j]);
        lemma_trim_trailing_keeps(s.drop_last(), j);
    }
}

proof fn lemma_trim_end_keeps(s: Seq<char>, j: int)
    requires
        0 <= j < s.len(),
        !unicode_whitespace(s[j]),
    ensures
        trim_end(s).len() > j,
    decreases s.len(),
{
    if s.len() > 0 && unicode_whitespace(s.last()) {
        assert(s.drop_last()[j] == s[j]);
        lemma_trim_end_keeps(s.drop_last(), j);
    }
}

/// Leading whitespace is the same for two texts that agree on a prefix holding
/// something other than whitespace.
proof fn lemma_trim_start_common_prefix(s: Seq<char>, u: Seq<char>)
    requires
        u.len() <= s.len(),
        s.take(u.len() as int) == u,
        trim_start(u).len() > 0,
    ensures
        trim_start(s) == s.skip(u.len() - trim_start(u).len()),
        trim_start(u) == u.skip(u.len() - trim_start(u).len()),
    decreases u.len(),
{
    lemma_trim_start_is_suffix(u);
    assert(u[0] == s[0]);
    if unicode_whitespace(u[0]) {
        assert(s.drop_first().take(u.len() - 1) =~= u.drop_first());
        assert(trim_start(u) == trim_start(u.drop_first()));
        lemma_trim_start_is_suffix(u.drop_first());
        lemma_trim_start_common_prefix(s.drop_first(), u.drop_first());
        assert(s.drop_first().skip(u.len() - 1 - trim_start(u).len()) =~= s.skip(u.len() - trim_start(u).len()));
        assert(u.drop_first().skip(u.len() - 1 - trim_start(u).len()) =~= u.skip(u.len() - trim_start(u).len()));
    } else {
        assert(s.skip(0) =~= s);
        assert(u.skip(0) =~= u);
    }
}

/// Feeding more characters never changes output that ends with something other than a space.
proof fn lemma_feed_keeps_prefix(st: NormalizeState, chars: Seq<char>, p: Seq<char>)
    requires
        p.len() > 0,
        p.last() != ' ',
        p.len() <= st.0.len(),
        st.0.take(p.len() as int) == p,
    ensures
        p.len() <= feed_chars(st, chars).0.len(),
        feed_chars(st, chars).0.take(p.len() as int) == p,
    decreases chars.len(),
{
    if chars.len() > 0 {
        lemma_feed_keeps_prefix(st, chars.drop_last(), p);
        let prev = feed_chars(st, chars.drop_last());
        let ch = chars.last();
        let out = prev.0;
        assert(out[p.len() - 1] == p.last()) by {
            assert(out.take(p.len() as int)[p.len() - 1] == out[p.len() - 1]);
        }
        if ch == '\n' {
            lemma_trim_trailing_keeps(out, p.len() - 1);
            let kept = trim_trailing_spaces(out);
            assert(kept.len() >= p.len());
            assert(kept == out.subrange(0, kept.len() as int));
            assert(kept.len() <= out.len());
            assert forall|i: int| 0 <= i < p.len() implies kept[i] == out[i] by {
                assert(out.subrange(0, kept.len() as int)[i] == out[i]);
            }
            assert(kept.take(p.len() as int) =~= out.take(p.len() as int));
            assert(kept.push('\n').take(p.len() as int) =~= kept.take(p.len() as int));
        } else {
            assert(out.push(' ').take(p.len() as int) =~= out.take(p.len() as int));
            assert(out.push(ch).take(p.len() as int) =~= out.take(p.len() as int));
        }
    }
}

/// The normalizer's output for a text, a dash and more is its output for the
/// text followed by `-`, and then whatever the rest adds.
proof fn lemma_scan_dash_prefix(x: Seq<char>, d: char, y: Seq<char>, l: Seq<Seq<char>>)
    requires
        d == '\u{2014}' || d == '\u{2013}',
        l.len() >= x.len() + 1 + y.len(),
    ensures
        scan_text(x, l).0.len() + 1 <= scan_text(x.push(d) + y, l).0.len(),
        scan_text(x.push(d) + y, l).0.take(scan_text(x, l).0.len() as int + 1) == scan_text(x, l).0.push('-'),
    decreases y.len(),
{
    let st = scan_text(x, l);
    if y.len() == 0 {
        assert(x.push(d) + y =~= x.push(d));
        assert(x.push(d).drop_last() =~= x);
        assert(expansion(d, l[x.len() as int]) =~= seq!['-']);
        reveal_with_fuel(feed_chars, 2);
        assert(seq!['-'].drop_last() =~= Seq::<char>::empty());
        assert(st.0.push('-').take(st.0.len() as int + 1) =~= st.0.push('-'));
    } else {
        lemma_scan_dash_prefix(x, d, y.drop_last(), l);
        let whole = x.push(d) + y;
        assert(whole.drop_last() =~= x.push(d) + y.drop_last());
        lemma_feed_keeps_prefix(
            scan_text(x.push(d) + y.drop_last(), l),
            expansion(whole.last(), l[whole.len() - 1]),
            st.0.push('-'),
        );
    }
}

/// A typographic dash (U+2014 or U+2013) right after a letter or digit comes
/// out as `-` at that place: the normalized text of `x`, dash, `y` is the
/// normalized text of `x` without its final line break, then `-`, then more.
pub proof fn lemma_dash_becomes_hyphen(
    x: Seq<char>,
    y: Seq<char>,
    lx: Seq<Seq<char>>,
    ly: Seq<Seq<char>>,
    d: char,
    m: Seq<char>,
)
    requires
        d == '\u{2014}' || d == '\u{2013}',
        lx.len() == x.len(),
        ly.len() == y.len(),
        x.len() > 0,
        ('a' <= x.last() && x.last() <= 'z') || ('0' <= x.last() && x.last() <= '9'),
        lx.last() == seq![x.last()],
    ensures
        ({
            let before = spec_normalize_with(x, lx);
            let after = spec_normalize_with(x.push(d) + y, lx.push(m) + ly);
            &&& before.len() <= after.len()
            &&& after.take(before.len() - 1) == before.take(before.len() - 1)
            &&& after[before.len() - 1] == '-'
        }),
{
    let l = lx.push(m) + ly;
    let full = x.push(d) + y;
    // The scan of `x` is the same under both lists of mappings.
    assert forall|i: int| 0 <= i < x.len() implies #[trigger] expansion(x[i], lx[i]) == expansion(x[i], l[i]) by {
        assert(l[i] == lx[i]);
    }
    lemma_scan_same_expansions(x, lx, x, l);
    let o = scan_text(x, lx).0;
    // It ends with the letter or digit.
    let c = x.last();
    assert(x.drop_last().push(c) =~= x);
    assert(expansion(c, lx[x.len() - 1]) =~= seq![c]);
    reveal_with_fuel(feed_chars, 2);
    assert(seq![c].drop_last() =~= Seq::<char>::empty());
    assert(o.len() > 0 && o.last() == c);
    lemma_scan_dash_prefix(x, d, y, l);
    let f = scan_text(full, l).0;
    // Leading whitespace.
    lemma_trim_start_is_suffix(o);
    let a = trim_start(o);
    assert(a.len() > 0) by {
        if a.len() == 0 {
            lemma_trim_start_all(o);
        }
    }
    assert(f.take(o.len() as int) =~= o) by {
        assert(f.take(o.len() as int + 1).take(o.len() as int) =~= f.take(o.len() as int));
        assert(o.push('-').take(o.len() as int) =~= o);
    }
    lemma_trim_start_common_prefix(f, o);
    let t = o.len() - a.len();
    let g = trim_start(f);
    let j = o.len() - t;
    assert(g == f.skip(t));
    assert(f[o.len() as int] == '-') by {
        assert(f.take(o.len() as int + 1)[o.len() as int] == f[o.len() as int]);
    }
    assert(g[j] == '-');
    // Trailing whitespace.
    lemma_trim_end_is_prefix(g);
    lemma_trim_end_keeps(g, j);
    let h = trim_end(g);
    assert(h[j] == g[j]);
    assert(a.last() == c);
    assert(trim_end(a) == a);
    let before = spec_normalize_with(x, lx);
    let after = spec_normalize_with(full, l);
    assert(before == a.push('\n'));
    assert(after == h.push('\n'));
    assert(before.len() - 1 == j);
    assert forall|i: int| 0 <= i < j implies after[i] == before[i] by {
        assert(after[i] == h[i] && h[i] == g[i] && g[i] == f[t + i]);
        assert(before[i] == a[i] && a[i] == o[t + i]);
        assert(f.take(o.len() as int)[t + i] == o[t + i]);
    }
    assert(after.take(before.len() - 1) =~= before.take(before.len() - 1));
}

/// Trimming leading whitespace leaves nothing only of a text that is all whitespace.
proof fn lemma_trim_start_all(s: Seq<char>)
    requires
        trim_start(s).len() == 0,
    ensures
        forall|i: int| 0 <= i < s.len() ==> unicode_whitespace(#[trigger] s[i]),
    decreases s.len(),
{
    if s.len() > 0 {
        assert(unicode_whitespace(s[0]));
        lemma_trim_start_all(s.drop_first());
        assert forall|i: int| 0 <= i < s.len() implies unicode_whitespace(#[trigger] s[i]) by {
            if i > 0 {
                assert(s[i] == s.drop_first()[i - 1]);
            }
        }
    }
}

/// Lowercases a text, replaces typographic quotes, dashes, ellipses and odd
/// spaces, and keeps only ASCII letters, digits, selected punctuation, single
/// spaces (none next to a line break) and line breaks, at most two of each run
/// of consecutive input line breaks; then trims it and ends it with one line
/// break.
pub fn normalize(text: &str) -> (res: String)
    ensures
        res@ == spec_normalize(text@),
        forall|i: int| 0 <= i < res@.len() ==> normalized_char(#[trigger] res@[i]),
        spaces_collapsed(res@),
        res@.last() == '\n',
{
    let input = chars_of(text);
    let mut lowered: Vec<Vec<char>> = Vec::new();
    let mut k: usize = 0;
    while k < input.len()
        invariant
            k <= input@.len(),
            input@ == text@,
            lowered@.len() == k,
            char_vec_views(lowered@) == lowercase_mappings(input@.take(k as int)),
        decreases input@.len() - k,
    {
        let ghost prev = lowered@;
        let mapped = lowercase(input[k]);
        lowered.push(mapped);
        assert forall|i: int| 0 <= i < k + 1 implies #[trigger] char_vec_views(lowered@)[i] == lowercase_mappings(
            input@.take(k + 1),
        )[i] by {
            if i < k {
                assert(lowered@[i] == prev[i]);
                assert(char_vec_views(prev)[i] == lowercase_mappings(input@.take(k as int))[i]);
            }
        }
        k = k + 1;
        assert(char_vec_views(lowered@) =~= lowercase_mappings(input@.take(k as int)));
    }
    assert(input@.take(k as int) =~= text@);
    normalize_with(text, lowered.as_slice())
}

// ---------------------------------------------------------------------------
// Corpus preparation

/// The three corpora cut from two raw books.
pub struct PreparedCorpora {
    /// The first characters of the broad corpus.
    pub small: String,
    /// The whole normalized training book.
    pub broad: String,
    /// The whole normalized validation book.
    pub validation: String,
}

/// What `prepare_corpora` gives: the small, broad and validation corpora, or the first error.
pub open spec fn spec_prepare_corpora(train_raw: Seq<char>, validation_raw: Seq<char>, small_tokens: nat)
    -> Result<(Seq<char>, Seq<char>, Seq<char>), CorpusError>
{
    match spec_strip_gutenberg(train_raw) {
        Err(e) => Err(e),
        Ok(train_body) => {
            let broad = spec_normalize(train_body);
            match spec_strip_gutenberg(validation_raw) {
                Err(e) => Err(e),
                Ok(validation_body) => {
                    let validation = spec_normalize(validation_body);
                    if broad.len() < small_tokens {
                        Err(CorpusError::TooFewCharacters { required: small_tokens as usize })
                    } else if broad == validation {
                        Err(CorpusError::IdenticalCorpora)
                    } else {
                        Ok((broad.take(small_tokens as int), broad, validation))
                    }
                },
            }
        },
    }
}

/// Strips and normalizes a training and a validation book, and cuts the small
/// corpus as the first `small_tokens` characters of the broad one.
pub fn prepare_corpora(train_raw: &str, validation_raw: &str, small_tokens: usize)
    -> (res: Result<PreparedCorpora, CorpusError>)
    ensures
        match (res, spec_prepare_corpora(train_raw@, validation_raw@, small_tokens as nat)) {
            (Ok(c), Ok((small, broad, validation))) => c.small@ == small && c.broad@ == broad
                && c.validation@ == validation,
            (Err(a), Err(b)) => a == b,
            _ => false,
        },
        res matches Ok(c) ==> {
            &&& c.small@.len() == small_tokens
            &&& c.small@.is_prefix_of(c.broad@)
            &&& c.broad@ != c.validation@
        },
{
    let train_body = match strip_gutenberg(train_raw) {
        Ok(body) => body,
        Err(e) => return Err(e),
    };
    let broad = normalize(train_body.as_str());
    let validation_body = match strip_gutenberg(validation_raw) {
        Ok(body) => body,
        Err(e) => return Err(e),
    };
    let validation = normalize(validation_body.as_str());
    let broad_chars = chars_of(broad.as_str());
    let validation_chars = chars_of(validation.as_str());
    if broad_chars.len() < small_tokens {
        return Err(CorpusError::TooFewCharacters { required: small_tokens });
    }
    if same_chars(broad_chars.as_slice(), validation_chars.as_slice()) {
        return Err(CorpusError::IdenticalCorpora);
    }
    let small = string_from_chars(&broad_chars.as_slice()[0..small_tokens]);
    assert(small@.is_prefix_of(broad@));
    Ok(PreparedCorpora { small, broad, validation })
}

} // verus!
