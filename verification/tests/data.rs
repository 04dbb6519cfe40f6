use rand::rngs::StdRng;
use rand::SeedableRng;
use scalelab_rs::sampler::WindowSampler;
use scalelab_rs::data::{batch_from_starts, random_batch, BatchError, CharTokenizer, TokenDataset, TokenizerError};

#[test]
fn tokenizer_round_trips_unicode() {
    let text = "hello, λ!";
    let tokenizer = CharTokenizer::train(text);
    let ids = tokenizer.encode(text).unwrap();
    assert_eq!(tokenizer.decode(&ids).unwrap(), text);
}

#[test]
fn vocabulary_is_sorted_and_distinct() {
    let tokenizer = CharTokenizer::train("banana");
    assert_eq!(tokenizer.vocabulary(), vec!['a', 'b', 'n']);
    assert_eq!(tokenizer.vocab_size(), 3);
    assert_eq!(tokenizer.encode("nab").unwrap(), vec![2, 0, 1]);
}

#[test]
fn vocabulary_orders_by_code_point() {
    let tokenizer = CharTokenizer::train("λb A!");
    assert_eq!(tokenizer.vocabulary(), vec![' ', '!', 'A', 'b', 'λ']);
}

#[test]
fn unknown_character_is_reported() {
    let tokenizer = CharTokenizer::train("ab");
    assert_eq!(tokenizer.encode("abcd"), Err(TokenizerError::UnknownCharacter('c')));
}

#[test]
fn unknown_token_id_is_reported() {
    let tokenizer = CharTokenizer::train("ab");
    assert_eq!(tokenizer.decode(&[0, 5, 7]), Err(TokenizerError::UnknownTokenId(5)));
}

#[test]
fn empty_text_encodes_to_nothing() {
    let tokenizer = CharTokenizer::train("");
    assert_eq!(tokenizer.vocab_size(), 0);
    assert_eq!(tokenizer.encode("").unwrap(), Vec::<u32>::new());
    assert_eq!(tokenizer.decode(&[]).unwrap(), "");
}

#[test]
fn restored_vocabulary_needs_its_index_rebuilt() {
    let mut tokenizer = CharTokenizer::from_vocabulary(vec!['x', 'y']);
    assert_eq!(tokenizer.encode("x"), Err(TokenizerError::UnknownCharacter('x')));
    assert_eq!(tokenizer.decode(&[1, 0]).unwrap(), "yx");
    tokenizer.rebuild_index();
    assert_eq!(tokenizer.encode("yx").unwrap(), vec![1, 0]);
}

#[test]
fn repeated_vocabulary_entry_maps_to_its_last_position() {
    let mut tokenizer = CharTokenizer::from_vocabulary(vec!['a', 'b', 'a']);
    tokenizer.rebuild_index();
    assert_eq!(tokenizer.encode("ab").unwrap(), vec![2, 1]);
    assert_eq!(tokenizer.decode(&[2, 1]).unwrap(), "ab");
}

#[test]
fn observed_token_types_counts_distinct_ids() {
    let tokenizer = CharTokenizer::train("abc");
    assert_eq!(tokenizer.observed_token_types(&[3, 1, 3, 2, 1]), 3);
    assert_eq!(tokenizer.observed_token_types(&[]), 0);
}

#[test]
fn dataset_split_keeps_every_token() {
    let dataset = TokenDataset::from_tokens(vec![1, 2, 3, 4], 3);
    assert_eq!(dataset.train, vec![1, 2, 3]);
    assert_eq!(dataset.validation, vec![4]);
    let all_train = TokenDataset::from_tokens(vec![5, 6], 2);
    assert_eq!(all_train.train, vec![5, 6]);
    assert!(all_train.validation.is_empty());
}

#[test]
fn batches_are_shifted_by_one_token() {
    let tokens: Vec<u32> = (0..20).collect();
    let mut rng = WindowSampler::new(StdRng::seed_from_u64(7));
    let (x, y) = random_batch(&tokens, 3, 4, &mut rng).unwrap();
    assert_eq!(x.len(), 12);
    assert_eq!(y.len(), 12);
    for (input, target) in x.chunks(4).zip(y.chunks(4)) {
        assert_eq!(&input[1..], &target[..target.len() - 1]);
    }
}

#[test]
fn batch_rows_are_windows_of_the_stream() {
    let tokens: Vec<u32> = (100..110).collect();
    let mut rng = WindowSampler::new(StdRng::seed_from_u64(11));
    let (x, y) = random_batch(&tokens, 5, 3, &mut rng).unwrap();
    for (input, target) in x.chunks(3).zip(y.chunks(3)) {
        let start = (input[0] - 100) as usize;
        assert!(start <= tokens.len() - 4);
        assert_eq!(input, &tokens[start..start + 3]);
        assert_eq!(target, &tokens[start + 1..start + 4]);
    }
}

#[test]
fn batch_needs_more_tokens_than_the_context() {
    let tokens: Vec<u32> = vec![1, 2, 3, 4];
    let mut rng = WindowSampler::new(StdRng::seed_from_u64(1));
    assert_eq!(
        random_batch(&tokens, 2, 4, &mut rng),
        Err(BatchError::TooFewTokens { available: 4, context_length: 4 })
    );
    let (x, y) = random_batch(&tokens, 2, 3, &mut rng).unwrap();
    assert_eq!(x, vec![1, 2, 3, 1, 2, 3]);
    assert_eq!(y, vec![2, 3, 4, 2, 3, 4]);
}

#[test]
fn batch_from_given_starts() {
    let tokens: Vec<u32> = (0..10).collect();
    let (x, y) = batch_from_starts(&tokens, &[0, 5], 3);
    assert_eq!(x, vec![0, 1, 2, 5, 6, 7]);
    assert_eq!(y, vec![1, 2, 3, 6, 7, 8]);
}

#[test]
fn decoded_ids_encode_back_to_themselves() {
    let tokenizer = CharTokenizer::train("the cat sat");
    let ids = vec![5, 0, 1, 4, 3, 0];
    let text = tokenizer.decode(&ids).unwrap();
    assert_eq!(text, "s ahe ");
    assert_eq!(tokenizer.encode(&text).unwrap(), ids);
}

#[test]
fn restored_tokenizer_matches_the_trained_one() {
    let trained = CharTokenizer::train("hello, λ!");
    let mut restored = CharTokenizer::from_vocabulary(trained.vocabulary());
    restored.rebuild_index();
    assert_eq!(restored.vocabulary(), trained.vocabulary());
    let text = "λ, hello";
    assert_eq!(restored.encode(text), trained.encode(text));
    assert_eq!(restored.decode(&[0, 1, 2, 3]), trained.decode(&[0, 1, 2, 3]));
}

#[test]
fn window_starts_are_drawn_over_the_whole_range() {
    let tokens: Vec<u32> = (0..100).collect();
    let mut rng = WindowSampler::new(StdRng::seed_from_u64(3));
    let (x, _) = random_batch(&tokens, 64, 4, &mut rng).unwrap();
    let starts: Vec<u32> = x.chunks(4).map(|row| row[0]).collect();
    assert!(starts.iter().all(|&start| start <= 95));
    assert!(starts.iter().any(|&start| start != starts[0]));
    let mut again = WindowSampler::new(StdRng::seed_from_u64(3));
    assert_eq!(random_batch(&tokens, 64, 4, &mut again).unwrap().0, x);
}

#[test]
fn failed_batch_leaves_the_generator_untouched() {
    let tokens: Vec<u32> = (0..50).collect();
    let mut rng = WindowSampler::new(StdRng::seed_from_u64(9));
    assert!(random_batch(&tokens, 2, 50, &mut rng).is_err());
    let (x, y) = random_batch(&tokens, 2, 2, &mut rng).unwrap();
    assert_eq!((x.len(), y.len()), (4, 4));
    let mut fresh = WindowSampler::new(StdRng::seed_from_u64(9));
    assert_eq!(random_batch(&tokens, 2, 2, &mut fresh).unwrap().0, x);
}

#[test]
fn each_row_takes_one_draw() {
    let tokens: Vec<u32> = (0..1000).collect();
    let mut split = WindowSampler::new(StdRng::seed_from_u64(5));
    let (mut first, _) = random_batch(&tokens, 2, 3, &mut split).unwrap();
    let (second, _) = random_batch(&tokens, 3, 3, &mut split).unwrap();
    first.extend(second);
    let mut whole = WindowSampler::new(StdRng::seed_from_u64(5));
    assert_eq!(random_batch(&tokens, 5, 3, &mut whole).unwrap().0, first);
}

#[test]
fn tokenizer_depends_only_on_the_characters_seen() {
    let a = CharTokenizer::train("abracadabra");
    let b = CharTokenizer::train("dcbar");
    assert_eq!(a.vocabulary(), b.vocabulary());
    assert_eq!(a.encode("cabd"), b.encode("cabd"));
    assert_eq!(a.encode("cabz"), b.encode("cabz"));
    assert_eq!(a.decode(&[4, 0, 9]), b.decode(&[4, 0, 9]));
}
