use rusticsearch::ngram::{Edge, NGramTokenizer};
use rusticsearch::term::{Term, Token};

fn tok(s: &str, position: u32) -> Token {
    Token { term: Term::Str(s.to_string()), position }
}

#[test]
fn test_ngram_tokenizer() {
    let input = "hello".to_string();
    let mut tokenizer = NGramTokenizer::new(&input, 2, 3, Edge::Neither);
    let tokens = tokenizer.collect_all();

    assert_eq!(tokens, vec![
        tok("he", 1),
        tok("hel", 1),
        tok("el", 1),
        tok("ell", 1),
        tok("ll", 1),
        tok("llo", 1),
        tok("lo", 1),
    ]);
}

#[test]
fn test_edgengram_tokenizer() {
    let input = "hello world".to_string();
    let mut tokenizer = NGramTokenizer::new(&input, 2, 3, Edge::Left);
    let tokens = tokenizer.collect_all();

    assert_eq!(tokens, vec![tok("he", 1), tok("hel", 1), tok("wo", 2), tok("wor", 2)]);
}

#[test]
fn test_edgengram_tokenizer_max_size() {
    let input = "hello".to_string();
    let mut tokenizer = NGramTokenizer::new(&input, 2, 1000, Edge::Left);
    let tokens = tokenizer.collect_all();

    assert_eq!(tokens, vec![tok("he", 1), tok("hel", 1), tok("hell", 1), tok("hello", 1)]);
}

#[test]
fn test_edgengram_tokenizer_right() {
    let input = "hello world".to_string();
    let mut tokenizer = NGramTokenizer::new(&input, 2, 3, Edge::Right);
    let tokens = tokenizer.collect_all();

    assert_eq!(tokens, vec![tok("lo", 1), tok("llo", 1), tok("ld", 2), tok("rld", 2)]);
}

#[test]
fn test_ngram_tokenizer_next_hands_tokens_out_in_order() {
    let input = "hi".to_string();
    let mut tokenizer = NGramTokenizer::new(&input, 1, 2, Edge::Left);
    assert_eq!(tokenizer.next(), Some(tok("h", 1)));
    assert_eq!(tokenizer.next(), Some(tok("hi", 1)));
    assert_eq!(tokenizer.next(), None);
}
