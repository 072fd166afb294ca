use llm_base::embedded::{EmbeddedTokenizer, TokenizationError, BOS_TOKEN_ID};
use llm_base::facade::{HuggingFaceTokenizer, ModelTokenizer, Prompt};

fn sample_vocab() -> EmbeddedTokenizer<f32> {
    // ids 0 and 1 are fillers so that real tokens avoid the sentinel id and
    // the reserved beginning-of-sequence id.
    let mut v = EmbeddedTokenizer::new();
    v.push_token(0, b"<pad>".to_vec(), 0.0);
    v.push_token(1, b"<s>".to_vec(), 0.0);
    v.push_token(2, b"a".to_vec(), 0.1);
    v.push_token(3, b"b".to_vec(), 0.2);
    v.push_token(4, b"ab".to_vec(), 0.3);
    v
}

#[test]
fn push_token_builds_parallel_indexes() {
    let v = sample_vocab();
    assert_eq!(v.len(), 5);
    assert!(!v.is_empty());
    assert_eq!(v.max_token_length, 5);
    assert_eq!(v.token(2), b"a".to_vec());
    assert_eq!(v.token(4), b"ab".to_vec());
    assert_eq!(v.id_to_token_score.len(), 5);
}

#[test]
fn id_looks_tokens_up_and_latest_duplicate_wins() {
    let mut v = sample_vocab();
    assert_eq!(v.id(b"ab"), Some(4));
    assert_eq!(v.id(b"zz"), None);
    v.push_token(5, b"a".to_vec(), 0.9);
    assert_eq!(v.id(b"a"), Some(5));
}

#[test]
fn tokenize_prefers_longer_match() {
    // "ab" as one token scores 4; "a"+"b" scores 1+1=2.
    let v = sample_vocab();
    let r = v.tokenize("ab", false).unwrap();
    assert_eq!(r, vec![(b"ab".to_vec(), 4)]);
}

#[test]
fn tokenize_round_trips_through_decode() {
    let v = sample_vocab();
    let pairs = v.tokenize("abab", false).unwrap();
    let ids: Vec<u32> = pairs.iter().map(|(_, id)| *id).collect();
    assert_eq!(v.decode(ids, false), b"abab".to_vec());
}

#[test]
fn tokenize_inserts_bos_pair() {
    let v = sample_vocab();
    let pairs = v.tokenize("ab", true).unwrap();
    assert_eq!(pairs[0], (Vec::new(), BOS_TOKEN_ID));
    assert_eq!(pairs.len(), 2);
    assert_eq!(pairs[1], (b"ab".to_vec(), 4));
}

#[test]
fn tokenize_fails_on_uncovered_text() {
    let v = sample_vocab();
    match v.tokenize("c", false) {
        Err(TokenizationError::TokenizationFailed { .. }) => {},
        other => panic!("expected failed tokenization, got {:?}", other),
    }
}

#[test]
fn tokenize_handles_multibyte_text() {
    let mut v = EmbeddedTokenizer::new();
    v.push_token(0, b"<pad>".to_vec(), 0.0);
    v.push_token(1, b"<s>".to_vec(), 0.0);
    v.push_token(2, "\u{e9}".as_bytes().to_vec(), 0.0);
    let pairs = v.tokenize("\u{e9}", false).unwrap();
    assert_eq!(pairs, vec![("\u{e9}".as_bytes().to_vec(), 2)]);
    assert_eq!(pairs[0].0.len(), 2);
}

#[test]
fn decode_skips_special_tokens_when_asked() {
    let v = sample_vocab();
    assert_eq!(v.decode(vec![1, 4], true), b"ab".to_vec());
    assert_eq!(v.decode(vec![1, 4], false), b"<s>ab".to_vec());
}

#[test]
fn facade_dispatches_to_embedded() {
    let t: ModelTokenizer<f32> = ModelTokenizer::Embedded(sample_vocab());
    assert_eq!(t.len(), 5);
    assert!(!t.is_empty());
    assert_eq!(t.id(b"ab"), Some(4));
    assert_eq!(t.token(4), b"ab".to_vec());
    let pairs = t.tokenize("ab", false).unwrap();
    assert_eq!(pairs, vec![(b"ab".to_vec(), 4)]);
    assert_eq!(t.decode(vec![2, 3], false), b"ab".to_vec());
}

#[test]
fn prompt_text_resolves_to_ids() {
    let t: ModelTokenizer<f32> = ModelTokenizer::Embedded(sample_vocab());
    let ids = Prompt::Text("abab").to_tokens(&t, false).unwrap();
    assert_eq!(ids, vec![4, 4]);
    let ids = Prompt::Text("ab").to_tokens(&t, true).unwrap();
    assert_eq!(ids, vec![BOS_TOKEN_ID, 4]);
}

#[test]
fn prompt_tokens_pass_through_when_valid() {
    let t: ModelTokenizer<f32> = ModelTokenizer::Embedded(sample_vocab());
    let ids = [2u32, 3, 4];
    assert_eq!(Prompt::Tokens(&ids).to_tokens(&t, false).unwrap(), vec![2, 3, 4]);
}

#[test]
fn prompt_reports_first_empty_token_id() {
    let mut v = sample_vocab();
    v.push_token(5, Vec::new(), 0.0);
    let t: ModelTokenizer<f32> = ModelTokenizer::Embedded(v);
    let ids = [2u32, 5, 3];
    match Prompt::Tokens(&ids).to_tokens(&t, false) {
        Err(TokenizationError::InvalidTokenId(5)) => {},
        other => panic!("expected invalid token id 5, got {:?}", other),
    }
}

#[test]
fn prompt_default_is_empty_text() {
    let p = Prompt::default();
    assert_eq!(p, Prompt::Text(""));
}

fn word_level_backend() -> tokenizers::Tokenizer {
    let mut vocab = std::collections::HashMap::new();
    vocab.insert("<unk>".to_string(), 0u32);
    vocab.insert("hello".to_string(), 1u32);
    vocab.insert("world".to_string(), 2u32);
    let model = tokenizers::models::wordlevel::WordLevel::builder()
        .vocab(vocab)
        .unk_token("<unk>".to_string())
        .build()
        .unwrap();
    let mut t = tokenizers::Tokenizer::new(model);
    t.with_pre_tokenizer(tokenizers::pre_tokenizers::whitespace::Whitespace::default());
    t
}

#[test]
fn hugging_face_adapter_answers_through_backend() {
    let t: ModelTokenizer<f32> =
        ModelTokenizer::HuggingFace(HuggingFaceTokenizer::new(word_level_backend()));
    assert_eq!(t.len(), 3);
    assert!(!t.is_empty());
    assert_eq!(t.id(b"hello"), Some(1));
    assert_eq!(t.id(b"absent"), None);
    let pairs = t.tokenize("hello world", false).unwrap();
    let ids: Vec<u32> = pairs.iter().map(|(_, id)| *id).collect();
    assert_eq!(ids, vec![1, 2]);
    assert_eq!(pairs[0].0, b"hello".to_vec());
    let decoded = t.decode(vec![1, 2], false);
    assert_eq!(decoded, b"hello world".to_vec());
}

#[test]
fn zip_pairs_pairs_up_to_the_shorter_list() {
    let tokens = vec![b"he".to_vec(), b"llo".to_vec(), b"!".to_vec()];
    let ids = vec![7u32, 9];
    let pairs = llm_base::facade::zip_pairs(tokens, ids);
    assert_eq!(pairs, vec![(b"he".to_vec(), 7), (b"llo".to_vec(), 9)]);
}
