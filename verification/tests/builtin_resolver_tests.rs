use hashline::builtin_resolver::{
    resolve_brace_block, resolve_indent_block, resolve_ruby_block, BlockResolver,
    BlockResolverRequest, BuiltinBlockResolver,
};
use hashline::document::LineEntry;


fn entries_from(text: &str) -> Vec<LineEntry> {
    if text.is_empty() {
        return Vec::new();
    }
    text.split('\n')
        .map(|s| LineEntry {
            content: s.to_string(),
            short_hash: hashline::hash::short_hash_value(s),
        })
        .collect()
}

#[test]
fn builtin_resolver_test_brace_pairs_simple() {
    let e = entries_from(
        "fn hello() {\n    let x = 1;\n    if true {\n        println!(\"ok\");\n    }\n}\n",
    );
    let inner = resolve_brace_block(&e, 2, "rs");
    assert_eq!(inner, Some((2, 4)));
    let outer = resolve_brace_block(&e, 0, "rs");
    assert_eq!(outer, Some((0, 5)));
}

#[test]
fn test_indent_block_python_body() {
    let e = entries_from(
        "def hello():\n    x = 1\n    if True:\n        print('ok')\n    return x\n",
    );
    // Anchor on "    if True:" (index 2) — scans backward to "def hello():" (0)
    let actual = resolve_indent_block(&e, 2);
    assert!(actual.is_some());
    let (s, e_idx) = actual.unwrap();
    assert_eq!(s, 0, "should start at 'def hello():'");
    // The trailing \n creates an empty entry at index 5; since no
    // de-indent is found before it, end stays at entries.len()-1.
    assert_eq!(e_idx, 5, "should include trailing empty entry");
}

#[test]
fn test_indent_block_python_deeply_nested() {
    let e = entries_from(
        "def hello():\n    x = 1\n    if True:\n        print('ok')\n    return x\n",
    );
    // Anchor on "        print('ok')" (index 3) — scans backward to "    if True:" (2)
    let actual = resolve_indent_block(&e, 3);
    assert!(actual.is_some());
    let (s, e_idx) = actual.unwrap();
    assert_eq!(s, 2, "should start at '    if True:'");
    assert_eq!(e_idx, 3, "should end at '        print(\"ok\")'");
}

#[test]
fn builtin_resolver_test_ruby_block() {
    let e = entries_from("def hello\n  x = 1\n  if true\n    puts 'ok'\n  end\nend\n");
    let actual = resolve_ruby_block(&e, 1);
    assert!(actual.is_some());
    let (s, e_idx) = actual.unwrap();
    assert_eq!(s, 0);
    assert_eq!(e_idx, 5);
}

#[test]
fn test_builtin_resolver_basic() {
    let resolver = BuiltinBlockResolver;
    let request = BlockResolverRequest {
        path: "test.rs".into(),
        text: "fn a() {}\nfn b() {\n    let x = 1;\n}".into(),
        line: 3,
    };
    let span = resolver.resolve(&request).unwrap();
    assert_eq!(span.start, 1);
    assert_eq!(span.end, 3);
}

#[test]
fn test_resolver_unknown_language_fallback() {
    let resolver = BuiltinBlockResolver;
    let request = BlockResolverRequest {
        path: "test.txt".into(),
        text: "header\n    body\n    more\nfooter\n".into(),
        line: 2,
    };
    let span = resolver.resolve(&request);
    assert!(span.is_some());
}

#[test]
fn test_resolver_out_of_range_returns_none() {
    let resolver = BuiltinBlockResolver;
    let request = BlockResolverRequest {
        path: "test.rs".into(),
        text: "fn a() {}".into(),
        line: 999,
    };
    assert!(resolver.resolve(&request).is_none());
}
