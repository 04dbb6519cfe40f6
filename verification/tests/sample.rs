use scalelab_rs::data::{CharTokenizer, TokenizerError};
use scalelab_rs::sample::{Generation, SampleError};

#[test]
fn generation_appends_picked_tokens() {
    let tokenizer = CharTokenizer::train("abc");
    let mut generation = Generation::start(&tokenizer, "ab", 3, 2).unwrap();
    assert!(generation.wants_token());
    assert_eq!(generation.window(), vec![0, 1]);
    generation.accept(2);
    assert_eq!(generation.window(), vec![1, 2]);
    generation.accept(0);
    generation.accept(0);
    assert!(!generation.wants_token());
    assert_eq!(generation.finish(&tokenizer).unwrap(), "abcaa");
}

#[test]
fn window_is_whole_sequence_when_short() {
    let tokenizer = CharTokenizer::train("abc");
    let generation = Generation::start(&tokenizer, "c", 1, 8).unwrap();
    assert_eq!(generation.window(), vec![2]);
}

#[test]
fn empty_prompt_is_refused() {
    let tokenizer = CharTokenizer::train("abc");
    assert_eq!(Generation::start(&tokenizer, "", 1, 2).err(), Some(SampleError::EmptyPrompt));
}

#[test]
fn prompt_outside_vocabulary_is_refused() {
    let tokenizer = CharTokenizer::train("abc");
    assert_eq!(
        Generation::start(&tokenizer, "abz", 1, 2).err(),
        Some(SampleError::Tokenizer(TokenizerError::UnknownCharacter('z')))
    );
}

#[test]
fn picked_token_outside_vocabulary_fails_decoding() {
    let tokenizer = CharTokenizer::train("abc");
    let mut generation = Generation::start(&tokenizer, "a", 1, 2).unwrap();
    generation.accept(9);
    assert_eq!(generation.finish(&tokenizer), Err(SampleError::Tokenizer(TokenizerError::UnknownTokenId(9))));
}
