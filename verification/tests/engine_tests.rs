//! Engine-level tests on small hand-built vocabularies: merge order,
//! tie-breaks, round trips, and each error.
use bpe_tokenizer::bpe::encode_chunk;
use bpe_tokenizer::errors::TokenizeError;
use bpe_tokenizer::pretok::pre_tokenize;
use bpe_tokenizer::variant::Variant;
use bpe_tokenizer::vocab::Vocabulary;

fn vocab_of(entries: Vec<(u32, &[u8])>) -> Vocabulary {
    let owned: Vec<(u32, Vec<u8>)> = entries.into_iter().map(|(id, b)| (id, b.to_vec())).collect();
    Vocabulary::new(owned).expect("distinct ids")
}

#[test]
fn rejects_duplicate_ids() {
    let owned: Vec<(u32, Vec<u8>)> = vec![(0, b"a".to_vec()), (0, b"b".to_vec())];
    assert!(Vocabulary::new(owned).is_none());
}

#[test]
fn merges_up_to_longest_entry() {
    let v = vocab_of(vec![(0, b"a"), (1, b"b"), (2, b"c"), (3, b"ab"), (4, b"abc")]);
    let ids = encode_chunk(&v, &b"abc".to_vec()).expect("encodable");
    assert_eq!(ids, vec![4]);
}

#[test]
fn tie_break_takes_leftmost_pair() {
    let v = vocab_of(vec![(0, b"aa"), (1, b"a")]);
    // both adjacent pairs rank equally; the leftmost merges first
    assert_eq!(encode_chunk(&v, &b"aaa".to_vec()).unwrap(), vec![0, 1]);
    assert_eq!(encode_chunk(&v, &b"aaaa".to_vec()).unwrap(), vec![0, 0]);
}

#[test]
fn lower_rank_merges_first() {
    // "bc" has a lower id than "ab", so it merges first and "ab" never forms
    let v = vocab_of(vec![(0, b"bc"), (1, b"ab"), (2, b"a"), (3, b"b"), (4, b"c")]);
    assert_eq!(encode_chunk(&v, &b"abc".to_vec()).unwrap(), vec![2, 0]);
}

#[test]
fn missing_byte_is_an_encoding_error() {
    let v = vocab_of(vec![(0, b"a")]);
    assert_eq!(encode_chunk(&v, &b"b".to_vec()), Err(TokenizeError::Encoding));
}

#[test]
fn unknown_id_fails_decode() {
    let v = Variant::from_vocab(vocab_of(vec![(0, b"a")]));
    assert_eq!(v.decode(&vec![99]), Err(TokenizeError::DecodeUnknownId));
}

#[test]
fn ill_formed_bytes_fail_decode() {
    let v = Variant::from_vocab(vocab_of(vec![(0, b"a"), (1, &[0xFF])]));
    assert_eq!(v.decode(&vec![1]), Err(TokenizeError::DecodeInvalidUtf8));
    assert_eq!(v.decode(&vec![0]).unwrap(), "a");
}

#[test]
fn encode_then_decode_is_identity() {
    let v = Variant::from_vocab(vocab_of(vec![
        (0, b"a"),
        (1, b"b"),
        (2, b" "),
        (3, b"ab"),
    ]));
    let input = b"ab ab ba".to_vec();
    let ids = v.encode_bytes(&input).expect("encodable");
    assert_eq!(v.decode_to_bytes(&ids).unwrap(), input);
    assert_eq!(v.decode(&ids).unwrap(), "ab ab ba");
}

#[test]
fn token_bytes_concatenate_to_input() {
    let v = Variant::from_vocab(vocab_of(vec![
        (0, b"a"),
        (1, b"b"),
        (2, b" "),
        (3, b"ab"),
    ]));
    let input = b"ab ab".to_vec();
    let toks = v.tokenize_bytes(&input).expect("encodable");
    let concat: Vec<u8> = toks.iter().flat_map(|t| t.1.iter().copied()).collect();
    assert_eq!(concat, input);
    assert_eq!(toks.iter().map(|t| t.0).collect::<Vec<u32>>(), vec![3, 2, 3]);
}

#[test]
fn special_tokens_bypass_merging() {
    let vocab = vocab_of(vec![(0, b"a"), (1, b"b"), (7, b"<x>")]);
    let v = Variant::with_specials(vocab, vec![(7, b"<x>".to_vec())]).expect("specials agree");
    let ids = v.encode_with_specials(&b"a<x>b".to_vec()).unwrap();
    assert_eq!(ids, vec![0, 7, 1]);
    assert_eq!(v.decode(&ids).unwrap(), "a<x>b");
}

#[test]
fn first_listed_special_wins_at_a_position() {
    let vocab = vocab_of(vec![(0, b"y"), (7, b"<x>"), (8, b"<x>y")]);
    let specials = vec![(7, b"<x>".to_vec()), (8, b"<x>y".to_vec())];
    let v = Variant::with_specials(vocab, specials).expect("specials agree");
    assert_eq!(v.encode_with_specials(&b"<x>y".to_vec()).unwrap(), vec![7, 0]);
}

#[test]
fn disagreeing_specials_are_refused() {
    let vocab = vocab_of(vec![(0, b"a")]);
    assert!(Variant::with_specials(vocab, vec![(0, b"b".to_vec())]).is_none());
    let vocab = vocab_of(vec![(0, b"a")]);
    assert!(Variant::with_specials(vocab, vec![(1, b"a".to_vec())]).is_none());
    let vocab = vocab_of(vec![(0, b"a")]);
    assert!(Variant::with_specials(vocab, vec![(0, Vec::new())]).is_none());
}

#[test]
fn encoding_is_reproducible() {
    let v = vocab_of(vec![(0, b"a"), (1, b"b"), (2, b"ab"), (3, b"ba")]);
    let first = encode_chunk(&v, &b"abab".to_vec()).unwrap();
    let second = encode_chunk(&v, &b"abab".to_vec()).unwrap();
    assert_eq!(first, second);
}

#[test]
fn chunks_reassemble_the_input() {
    let input = b"hello world42!x".to_vec();
    let chunks = pre_tokenize(&input);
    let expected: Vec<&[u8]> = vec![b"hello", b" ", b"world", b"42", b"!", b"x"];
    assert_eq!(chunks.len(), expected.len());
    for (c, e) in chunks.iter().zip(expected.iter()) {
        assert_eq!(c.as_slice(), *e);
    }
    let concat: Vec<u8> = chunks.iter().flat_map(|c| c.iter().copied()).collect();
    assert_eq!(concat, input);
}

#[test]
fn chunking_keeps_code_points_whole() {
    let input = "h\u{e9}llo 42".as_bytes().to_vec();
    let chunks = pre_tokenize(&input);
    let concat: Vec<u8> = chunks.iter().flat_map(|c| c.iter().copied()).collect();
    assert_eq!(concat, input);
    // no chunk after the first starts inside a multi-byte code point
    for c in chunks.iter().skip(1) {
        assert!(!(0x80..0xC0).contains(&c[0]));
    }
    assert_eq!(chunks[1], "\u{e9}".as_bytes().to_vec());
}

#[test]
fn empty_input_has_no_chunks() {
    let chunks = pre_tokenize(&Vec::new());
    assert!(chunks.is_empty());
}
