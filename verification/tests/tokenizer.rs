use aegis::gguf::parser::GgufParser;
use aegis::tokenizer::bpe::BpeTokenizer;
use aegis::tokenizer::merges::reconstruct_merges_from_scores;
use aegis::tokenizer::vocab::{parse_byte_token, read_vocab, vocab_entries, GgufVocab, TokenizerError};
use aegis::tokenizer::{with_bos, AegisTokenizer, BOS_TOKEN_ID, EOS_TOKEN_ID, UNK_TOKEN_ID};

fn strings(v: &[&str]) -> Vec<String> {
    v.iter().map(|s| s.to_string()).collect()
}

fn bits(v: &[f32]) -> Vec<u32> {
    v.iter().map(|x| x.to_bits()).collect()
}

#[test]
fn whitespace_tokenizer_round_trip() {
    let mut t = BpeTokenizer::new();
    assert_eq!(t.load_vocabulary_lines(&strings(&["<unk>", "hello", "world"])), 3);
    assert_eq!(t.encode("hello  world\tfoo\n"), vec![1, 2, 0]);
    assert_eq!(t.encode(""), Vec::<u32>::new());
    assert_eq!(t.decode(&[1, 2, 9, 0]), "hello world <unk>");
    assert_eq!(t.decode(&[]), "");
}

#[test]
fn whitespace_tokenizer_trims_the_end_and_keeps_the_last_duplicate() {
    let mut t = BpeTokenizer::new();
    t.load_vocabulary_lines(&strings(&["x", "tail  ", "x"]));
    assert_eq!(t.decode(&[1]), "tail");
    // A repeated line maps to its later id.
    assert_eq!(t.encode("x"), vec![2]);
    assert_eq!(t.decode(&[0, 2]), "x x");
}

#[test]
fn byte_tokens() {
    assert_eq!(parse_byte_token("<0x0A>"), Some(10));
    assert_eq!(parse_byte_token("<0xff>"), Some(255));
    assert_eq!(parse_byte_token("<0x00FF>"), Some(255));
    assert_eq!(parse_byte_token("<0x+1F>"), Some(31));
    assert_eq!(parse_byte_token("<0x100>"), None);
    assert_eq!(parse_byte_token("<0x>"), None);
    assert_eq!(parse_byte_token("<0x+>"), None);
    assert_eq!(parse_byte_token("<0xG1>"), None);
    assert_eq!(parse_byte_token("<0x-1>"), None);
    assert_eq!(parse_byte_token("0x0A"), None);
    assert_eq!(parse_byte_token("<0x0A"), None);
}

#[test]
fn merges_from_scores_rank_by_score_then_vocabulary_order() {
    let tokens = strings(&["<unk>", "a", "b", "c", "ab", "bc", "abc", "<ab>", "cab"]);
    let scores = bits(&[0.0, 0.0, 0.0, 0.0, -3.0, -1.0, -1.0, 5.0, -0.0]);
    let m = reconstruct_merges_from_scores(&tokens, &scores);
    let m: Vec<(&str, &str)> = m.iter().map(|(l, r)| (l.as_str(), r.as_str())).collect();
    // "cab" (score -0.0 = 0.0) first, then "bc" and "abc" (equal scores, vocabulary
    // order), then "ab".  "abc" splits at its first point: "a" + "bc".  The
    // bracketed "<ab>" and single characters give no merge.
    assert_eq!(m, vec![("c", "ab"), ("b", "c"), ("a", "bc"), ("a", "b")]);
}

#[test]
fn merges_need_both_halves_in_the_vocabulary() {
    let tokens = strings(&["x", "xyz", "yz"]);
    let m = reconstruct_merges_from_scores(&tokens, &bits(&[0.0, 1.0, 2.0]));
    // "yz" has no split into tokens; "xyz" is "x" + "yz".
    assert_eq!(m, vec![("x".to_string(), "yz".to_string())]);
}

#[test]
fn vocab_entries_keep_the_last_position_of_a_text() {
    let e = vocab_entries(&strings(&["a", "b", "a", "c"]));
    assert_eq!(e, vec![("b".to_string(), 1), ("a".to_string(), 2), ("c".to_string(), 3)]);
}

fn vocab() -> GgufVocab {
    GgufVocab {
        tokens: strings(&["<unk>", "<s>", "</s>", "\u{2581}", "h", "i", "\u{2581}h", "\u{2581}hi"]),
        scores: bits(&[0.0, 0.0, 0.0, -5.0, -5.0, -5.0, -1.0, -2.0]),
        token_types: vec![2, 3, 3, 1, 1, 1, 1, 1],
    }
}

#[test]
fn vocabulary_readiness() {
    assert!(vocab().ready());
    let mut short = vocab();
    short.scores.pop();
    assert!(!short.ready());
    let mut nan = vocab();
    nan.scores[4] = f32::NAN.to_bits();
    assert!(!nan.ready());
    let tiny = GgufVocab { tokens: strings(&["a", "b"]), scores: vec![0, 0], token_types: vec![1, 1] };
    assert!(!tiny.ready());
}

#[test]
fn tokenizer_encodes_with_the_recovered_merges() {
    let t = AegisTokenizer::from_vocab(vocab());
    assert_eq!(t.vocab_size, 8);
    // "hi" is pre-tokenized to "\u{2581}hi", merged in two steps.
    assert_eq!(t.encode("hi").unwrap(), vec![BOS_TOKEN_ID, 7]);
    // No merge joins "\u{2581}" and "i".
    assert_eq!(t.encode("ih").unwrap(), vec![BOS_TOKEN_ID, 3, 5, 4]);
}

#[test]
fn tokenizer_decodes() {
    let t = AegisTokenizer::from_vocab(vocab());
    assert_eq!(t.decode_token(7), "\u{2581}hi");
    assert_eq!(t.decode_token(8), "<unk>");
    assert_eq!(t.decode_sequence(&[7]).unwrap(), "hi");
    assert_eq!(t.decode_sequence(&[BOS_TOKEN_ID, 7, EOS_TOKEN_ID]).unwrap(), "hi");
    assert!(t.is_eos(EOS_TOKEN_ID));
    assert!(!t.is_eos(UNK_TOKEN_ID));
    let shown = t.step_texts(&vec![(5, 7), (6, 3), (9, 42)]);
    assert_eq!(shown, vec![(5, "hi".to_string()), (6, String::new()), (9, "<unk>".to_string())]);
}

#[test]
fn begin_token_in_front() {
    assert_eq!(with_bos(Some(vec![5, 6])), Ok(vec![1, 5, 6]));
    assert_eq!(with_bos(Some(vec![])), Ok(vec![1]));
    assert_eq!(with_bos(None), Err(TokenizerError::Encode));
}

fn put_u32(b: &mut Vec<u8>, x: u32) {
    b.extend_from_slice(&x.to_le_bytes());
}

fn put_u64(b: &mut Vec<u8>, x: u64) {
    b.extend_from_slice(&x.to_le_bytes());
}

fn put_str(b: &mut Vec<u8>, s: &str) {
    put_u64(b, s.len() as u64);
    b.extend_from_slice(s.as_bytes());
}

fn vocab_file(with_scores: bool) -> Vec<u8> {
    let v = vocab();
    let mut b = Vec::new();
    b.extend_from_slice(b"GGUF");
    put_u32(&mut b, 3);
    put_u64(&mut b, 0);
    put_u64(&mut b, if with_scores { 2 } else { 1 });
    put_str(&mut b, "tokenizer.ggml.tokens");
    put_u32(&mut b, 9);
    put_u32(&mut b, 8);
    put_u64(&mut b, v.tokens.len() as u64);
    for t in &v.tokens {
        put_str(&mut b, t);
    }
    if with_scores {
        put_str(&mut b, "tokenizer.ggml.scores");
        put_u32(&mut b, 9);
        put_u32(&mut b, 6);
        put_u64(&mut b, v.scores.len() as u64);
        for s in &v.scores {
            put_u32(&mut b, *s);
        }
    }
    b
}

#[test]
fn vocabulary_from_metadata() {
    let p = GgufParser::open(&vocab_file(true)).unwrap();
    let v = read_vocab(&p.header).unwrap();
    assert_eq!(v.tokens, vocab().tokens);
    assert_eq!(v.scores, vocab().scores);
    // Without a type array every token is normal.
    assert_eq!(v.token_types, vec![1; 8]);
    let t = AegisTokenizer::from_gguf(&p).unwrap();
    assert_eq!(t.encode("hi").unwrap(), vec![BOS_TOKEN_ID, 7]);
}

#[test]
fn vocabulary_without_scores_scores_zero() {
    let p = GgufParser::open(&vocab_file(false)).unwrap();
    let v = read_vocab(&p.header).unwrap();
    assert_eq!(v.scores, vec![0u32; 8]);
}

#[test]
fn missing_token_array() {
    let mut b = Vec::new();
    b.extend_from_slice(b"GGUF");
    put_u32(&mut b, 3);
    put_u64(&mut b, 0);
    put_u64(&mut b, 0);
    let p = GgufParser::open(&b).unwrap();
    assert_eq!(read_vocab(&p.header).err(), Some(TokenizerError::MissingTokens));
    assert_eq!(AegisTokenizer::from_gguf(&p).err(), Some(TokenizerError::MissingTokens));
}

#[test]
fn whitespace_tokenizer_decodes_what_it_encoded() {
    let mut t = BpeTokenizer::new();
    t.load_vocabulary_lines(&strings(&["hello", "world", "foo"]));
    let ids = t.encode("  hello \n world\t\tfoo ");
    assert_eq!(ids, vec![0, 1, 2]);
    assert_eq!(t.decode(&ids), "hello world foo");
}

#[test]
fn whitespace_round_trip_with_repeated_and_spaced_lines() {
    let mut t = BpeTokenizer::new();
    t.load_vocabulary_lines(&strings(&["a b", "cat", "dog", "cat", ""]));
    let ids = t.encode(" cat  dog cat\n");
    assert_eq!(ids, vec![3, 2, 3]);
    assert_eq!(t.decode(&ids), "cat dog cat");
}
