use scalelab_rs::model::{causal_mask_values, initializer_for, seed_from_digest, ParameterInit};
use sha2::{Digest, Sha256};

#[test]
fn causal_mask_hides_future_positions() {
    let mask: Vec<Vec<u8>> = causal_mask_values(3).chunks(3).map(|row| row.to_vec()).collect();
    assert_eq!(mask, vec![vec![1, 0, 0], vec![1, 1, 0], vec![1, 1, 1]]);
}

#[test]
fn empty_and_single_masks() {
    assert!(causal_mask_values(0).is_empty());
    assert_eq!(causal_mask_values(1), vec![1]);
}

#[test]
fn biases_start_at_zero() {
    assert_eq!(initializer_for("block-0.attention.qkv.bias", 42), ParameterInit::Zeros);
    assert_eq!(initializer_for("final_norm.bias", 42), ParameterInit::Zeros);
}

#[test]
fn normalization_weights_start_at_one() {
    assert_eq!(initializer_for("final_norm.weight", 42), ParameterInit::Ones);
    assert_eq!(initializer_for("block-1.feed_forward_norm.weight", 7), ParameterInit::Ones);
}

fn name_seed(name: &str) -> u64 {
    let digest = Sha256::digest(name.as_bytes());
    u64::from_le_bytes(digest[..8].try_into().unwrap())
}

#[test]
fn other_weights_get_a_seed_from_their_name() {
    let expected = 42 ^ name_seed("lm_head.weight");
    assert_eq!(initializer_for("lm_head.weight", 42), ParameterInit::Normal { seed: expected });
    let a = initializer_for("block-0.attention.qkv.weight", 42);
    let b = initializer_for("block-0.attention.qkv.weight", 42);
    let c = initializer_for("block-0.attention.qkv.weight", 43);
    assert_eq!(a, b);
    assert_ne!(a, c);
    assert_ne!(initializer_for("token_embedding.weight", 42), initializer_for("position_embedding.weight", 42));
}

#[test]
fn named_initialization_is_reproducible_from_seed() {
    let names = ["token_embedding.weight", "block-0.attention.qkv.weight", "block-1.feed_forward.up.weight"];
    let build = |seed: u64| names.iter().map(|name| initializer_for(name, seed)).collect::<Vec<_>>();
    let first = build(42);
    let second = build(42);
    let third = build(43);
    assert_eq!(first, second);
    assert!(first.iter().zip(third.iter()).all(|(a, b)| a != b));
}

#[test]
fn different_seeds_give_drawn_parameters_different_generators() {
    for name in ["lm_head.weight", "token_embedding.weight", "block-0.feed_forward.down.weight"] {
        for (a, b) in [(42u64, 43u64), (0, 1), (7, u64::MAX)] {
            assert_ne!(initializer_for(name, a), initializer_for(name, b));
        }
    }
    assert_eq!(initializer_for("final_norm.weight", 1), initializer_for("final_norm.weight", 2));
}

#[test]
fn generator_seed_reads_the_digest_little_endian() {
    let mut digest = vec![0u8; 32];
    digest[0] = 1;
    assert_eq!(seed_from_digest(2, &digest), 3);
    digest[7] = 0x80;
    assert_eq!(seed_from_digest(0, &digest), 0x8000_0000_0000_0001);
    let full = Sha256::digest("lm_head.weight".as_bytes()).to_vec();
    assert_eq!(ParameterInit::Normal { seed: seed_from_digest(42, &full) }, initializer_for("lm_head.weight", 42));
}
