//! Tests of the public call surface against the real vocabulary
//! artifacts.
use bpe_tokenizer::errors::TokenizeError;
use bpe_tokenizer::registry::Registry;
use bpe_tokenizer::tokenize;
use bpe_tokenizer::tokenize_cached;
use bpe_tokenizer::get_available_tokenizers;
use bpe_tokenizer::variant::{TokenizerName, Variant};

#[test]
fn empty_text_gives_empty_tokens() {
    let r = tokenize("", "cl100k_base").expect("empty text is not an error");
    assert!(r.is_empty());
    let r = tokenize("", "gpt2").expect("empty text is not an error");
    assert!(r.is_empty());
}

#[test]
fn unknown_name_is_rejected() {
    let r = tokenize("anything", "not_a_real_tokenizer");
    assert!(matches!(r, Err(TokenizeError::UnknownTokenizer)));
}

#[test]
fn available_names_are_the_six_documented() {
    let names = get_available_tokenizers();
    assert_eq!(
        names,
        vec![
            "o200k_harmony".to_string(),
            "o200k_base".to_string(),
            "cl100k_base".to_string(),
            "p50k_base".to_string(),
            "p50k_edit".to_string(),
            "r50k_base".to_string(),
        ]
    );
    assert!(!names.iter().any(|n| n == "gpt2"));
}

#[test]
fn hello_world_concatenates_back() {
    let toks = tokenize("hello world", "cl100k_base").expect("tokenizes");
    assert!(!toks.is_empty());
    let concat: String = toks.iter().map(|t| t.text.as_str()).collect();
    assert_eq!(concat, "hello world");
}

#[test]
fn alias_matches_canonical_name() {
    let a = tokenize("hi there", "gpt2").expect("tokenizes");
    let b = tokenize("hi there", "r50k_base").expect("tokenizes");
    let a_ids: Vec<usize> = a.iter().map(|t| t.id).collect();
    let b_ids: Vec<usize> = b.iter().map(|t| t.id).collect();
    assert_eq!(a_ids, b_ids);
    assert!(!a_ids.is_empty());
}

#[test]
fn resolve_is_idempotent() {
    let mut reg = Registry::new();
    assert!(reg.resolve(TokenizerName::R50kBase).is_ok());
    assert!(reg.resolve(TokenizerName::R50kBase).is_ok());
    let first = tokenize_cached(&mut reg, "same text", "r50k_base").expect("tokenizes");
    let second = tokenize_cached(&mut reg, "same text", "r50k_base").expect("tokenizes");
    let f: Vec<usize> = first.iter().map(|t| t.id).collect();
    let s: Vec<usize> = second.iter().map(|t| t.id).collect();
    assert_eq!(f, s);
}

#[test]
fn tokenize_is_reproducible() {
    let a = tokenize("to be or not to be", "r50k_base").expect("tokenizes");
    let b = tokenize("to be or not to be", "r50k_base").expect("tokenizes");
    assert_eq!(a.len(), b.len());
    for (x, y) in a.iter().zip(b.iter()) {
        assert_eq!(x.id, y.id);
        assert_eq!(x.text, y.text);
    }
}

#[test]
fn real_vocabulary_round_trips() {
    let v = Variant::load(TokenizerName::R50kBase).expect("artifact loads");
    let input = "The quick brown fox jumps over 13 lazy dogs.".as_bytes().to_vec();
    let ids = v.encode_bytes(&input).expect("encodable");
    assert_eq!(v.decode_to_bytes(&ids).unwrap(), input);
    assert_eq!(v.decode(&ids).unwrap(), "The quick brown fox jumps over 13 lazy dogs.");
}

#[test]
fn special_literal_maps_to_reserved_id() {
    let toks = tokenize("a<|endoftext|>b", "r50k_base").expect("tokenizes");
    let concat: String = toks.iter().map(|t| t.text.as_str()).collect();
    assert_eq!(concat, "a<|endoftext|>b");
    assert!(toks.iter().any(|t| t.id == 50256));
}

#[test]
fn per_token_decode_is_stricter_than_whole_sequence_decode() {
    let v = Variant::load(TokenizerName::R50kBase).expect("artifact loads");
    let input = "\u{10FFFF}".as_bytes().to_vec();
    let ids = v.encode_bytes(&input).expect("encodable");
    assert!(ids.len() > 1);
    // decoding the whole id sequence recovers the code point
    assert_eq!(v.decode_to_bytes(&ids).unwrap(), input);
    // decoding token by token cannot: each token's bytes alone are ill-formed
    let r = tokenize("\u{10FFFF}", "r50k_base");
    assert!(matches!(r, Err(TokenizeError::DecodeInvalidUtf8)));
}

#[test]
fn p50k_base_concatenates_back() {
    let toks = tokenize("fn main() {}", "p50k_base").expect("tokenizes");
    assert!(!toks.is_empty());
    let concat: String = toks.iter().map(|t| t.text.as_str()).collect();
    assert_eq!(concat, "fn main() {}");
}
