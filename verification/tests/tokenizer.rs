use news_bayes::tokenizer::{chars_of, tokenize};

fn toks(s: &str) -> Vec<String> {
    let chars: Vec<char> = s.chars().collect();
    tokenize(&chars).into_iter().map(|t| t.into_iter().collect()).collect()
}

#[test]
fn tokenize_hello_world() {
    assert_eq!(toks("Hello, World!"), vec!["hello".to_string(), "world".to_string()]);
}

#[test]
fn tokenize_empty_input() {
    assert_eq!(toks(""), Vec::<String>::new());
}

#[test]
fn tokenize_separators_only() {
    assert_eq!(toks(" ,.!?39 -- \t"), Vec::<String>::new());
}

#[test]
fn tokenize_digits_split_words() {
    assert_eq!(toks("abc123def"), vec!["abc".to_string(), "def".to_string()]);
}

#[test]
fn tokenize_case_normalized_duplicates_kept() {
    assert_eq!(
        toks("The the THE"),
        vec!["the".to_string(), "the".to_string(), "the".to_string()]
    );
}

#[test]
fn tokenize_tokens_nonempty_lowercase() {
    for t in toks("A quick-Brown FOX; jumps 42 times over LAZY dogs!") {
        assert!(!t.is_empty());
        assert!(t.chars().all(|c| c.is_ascii_lowercase()));
    }
}

#[test]
fn chars_of_roundtrip() {
    let v = chars_of("aB c!");
    assert_eq!(v, vec!['a', 'B', ' ', 'c', '!']);
}
