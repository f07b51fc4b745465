use hashline::index::token::{tokenize_line, TokenIndex};

#[test]
fn test_tokenize_line() {
    let tokens = tokenize_line(b"fn main() {");
    let token_strs: Vec<&str> = tokens.iter().map(|t| t.as_ref()).collect();
    assert!(token_strs.contains(&"fn"));
    assert!(token_strs.contains(&"main"));
}

#[test]
fn test_token_index_build() {
    let content = "fn main() {\n  hello world\n}";
    let offsets = vec![0, 12, 25];
    let index = TokenIndex::build(content, &offsets);
    assert!(index.token_count() > 0);
    assert!(index.lookup("fn").is_some());
    assert!(index.lookup("hello").is_some());
}

#[test]
fn test_bitwise_and() {
    let content = "a b c\na b d\n";
    let offsets = vec![0, 6, 13];
    let index = TokenIndex::build(content, &offsets);
    let a = index.lookup("a").unwrap();
    let b = index.lookup("b").unwrap();
    let result = index.bitwise_and(&[a, b]);
    let ones: Vec<_> = result.ones().collect();
    assert_eq!(ones, vec![0, 1]);
}

#[test]
fn tokenize_line_lowercases_and_trims_punctuation() {
    let tokens = tokenize_line(b"  Foo.Bar, _x_ ..end.. ?? ");
    assert_eq!(tokens, vec!["foo.bar".to_string(), "_x_".to_string(), "end".to_string()]);
}

#[test]
fn token_index_maps_tokens_to_their_lines() {
    let content = "let x = 1;\nlet y = x;\nfn f() {}";
    let offsets = vec![0, 11, 22, 31];
    let index = TokenIndex::build(content, &offsets);
    assert_eq!(index.line_count(), 3);
    let let_lines: Vec<_> = index.lookup("let").unwrap().ones().collect();
    assert_eq!(let_lines, vec![0, 1]);
    let x_lines: Vec<_> = index.lookup("x").unwrap().ones().collect();
    assert_eq!(x_lines, vec![0, 1]);
    let fn_lines: Vec<_> = index.lookup("fn").unwrap().ones().collect();
    assert_eq!(fn_lines, vec![2]);
    assert!(index.lookup("Let").is_none());
    // let, x, 1, y, fn, f
    assert_eq!(index.token_count(), 6);
}

#[test]
fn bitwise_and_of_no_sets_is_empty_with_the_index_length() {
    let index = TokenIndex::build("a\nb\n", &[0, 2, 4]);
    let r = index.bitwise_and(&[]);
    assert_eq!(r.len(), 2);
    assert_eq!(r.ones().count(), 0);
}
