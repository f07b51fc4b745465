use hashline::document::Document;
use hashline::find_block::{find_block_payload, find_brace_block, find_brace_pairs};
use hashline::hash::format_short_hash;


fn anchor_for(line: usize, content: &str) -> String {
    let doc = Document::from_str("_temp", content).unwrap();
    let hash = format_short_hash(doc.lines[line.saturating_sub(1)].short_hash);
    format!("{line}:{hash}")
}

#[test]
fn find_block_test_brace_pairs_simple() {
    let content =
        "fn hello() {\n    let x = 1;\n    if true {\n        println!(\"ok\");\n    }\n}\n";
    let doc = Document::from_str("test.rs", content).unwrap();
    let pairs = find_brace_pairs(&doc, "rs");
    assert_eq!(pairs.len(), 2, "expected 2 brace pairs, got {pairs:?}");
    // Inner if-block pair: { at line 2 (0-indexed), } at line 4
    assert_eq!(pairs[0], (2, 4));
    // Outer function pair: { at line 0, } at line 5
    assert_eq!(pairs[1], (0, 5));
}

#[test]
fn test_brace_pairs_go_block() {
    let content = "func main() {\n\tif true {\n\t\tfmt.Println(\"ok\")\n\t}\n}\n";
    let doc = Document::from_str("test.go", content).unwrap();
    let pairs = find_brace_pairs(&doc, "go");
    assert_eq!(pairs.len(), 2, "expected 2 brace pairs, got {pairs:?}");
    assert_eq!(pairs[0], (1, 3));
    assert_eq!(pairs[1], (0, 4));
}

#[test]
fn test_brace_pairs_with_block_comment() {
    let content = "fn hello() {\n    /* {\n}\n*/\n    let x = 1;\n}\n";
    let doc = Document::from_str("test.rs", content).unwrap();
    let pairs = find_brace_pairs(&doc, "rs");
    // Pairs should be: (0, 5) for function, no pair for the brace inside comment
    assert_eq!(pairs.len(), 1, "expected 1 brace pair, got {pairs:?}");
    assert_eq!(pairs[0], (0, 5));
}

#[test]
fn test_find_brace_block_resolve() {
    let content =
        "fn hello() {\n    let x = 1;\n    if true {\n        println!(\"ok\");\n    }\n}\n";
    let doc = Document::from_str("test.rs", content).unwrap();
    // Anchor at line 3 (1-indexed) = "    if true {" (0-indexed 2)
    // Should find the if-block: start=2, end=4
    let (s, e) = find_brace_block(&doc, 2, "rs").unwrap();
    assert_eq!(s, 2, "expected start=2 (if-block)");
    assert_eq!(e, 4, "expected end=4 (if-block)");
}

#[test]
fn test_brace_block_rust_function() {
    let content =
        "fn hello() {\n    let x = 1;\n    if true {\n        println!(\"ok\");\n    }\n}\n";
    let doc = Document::from_str("test.rs", content).unwrap();
    let payload = find_block_payload(&doc, &anchor_for(3, content)).unwrap();
    assert_eq!(payload.language.as_deref(), Some("Rust"));
    // The if-block: lines 3..5
    assert_eq!(payload.block_lines.len(), 3);
    assert!(payload.block_lines[0].content.contains("if true"));
    assert_eq!(payload.block_lines[2].content, "    }");
}

#[test]
fn test_brace_block_rust_outer_function() {
    let content =
        "fn hello() {\n    let x = 1;\n    if true {\n        println!(\"ok\");\n    }\n}\n";
    let doc = Document::from_str("test.rs", content).unwrap();
    let payload = find_block_payload(&doc, &anchor_for(2, content)).unwrap();
    // The function block: lines 1..6
    assert_eq!(payload.block_lines.len(), 6);
    assert!(payload.block_lines[0].content.contains("fn hello()"));
    assert_eq!(payload.block_lines[5].content, "}");
}

#[test]
fn test_python_block() {
    let content = "def hello():\n    x = 1\n    if True:\n        print('ok')\n    return x\n";
    let doc = Document::from_str("test.py", content).unwrap();
    let payload = find_block_payload(&doc, &anchor_for(4, content)).unwrap();
    assert_eq!(payload.language.as_deref(), Some("Python"));
    // The enclosing block for the print line is the if-block:
    // "    if True:" + "        print('ok')" = 2 lines
    assert_eq!(payload.block_lines.len(), 2);
    assert_eq!(payload.block_lines[0].n, 3);
    assert!(payload.block_lines[0].content.contains("if True"));
}

#[test]
fn test_python_outer_block() {
    let content = "def hello():\n    x = 1\n    if True:\n        print('ok')\n    return x\n";
    let doc = Document::from_str("test.py", content).unwrap();
    let payload = find_block_payload(&doc, &anchor_for(2, content)).unwrap();
    assert_eq!(payload.block_lines.len(), 5);
    assert!(payload.block_lines[0].content.contains("def hello()"));
    assert_eq!(payload.block_lines[4].content, "    return x");
}

#[test]
fn test_error_missing_anchor() {
    let doc = Document::from_str("test.rs", "fn a() {}\n").unwrap();
    let result = find_block_payload(&doc, "99:ff");
    assert!(result.is_err());
}

#[test]
fn test_error_unbalanced_block() {
    let doc = Document::from_str("test.rs", "fn a() {\n  x\n").unwrap();
    let result = find_block_payload(&doc, "1:ff");
    assert!(result.is_err());
}

#[test]
fn test_brace_detection_skips_strings() {
    let content = "fn hello() {\n    let s = \"{\";\n}\n";
    let doc = Document::from_str("test.rs", content).unwrap();
    let payload = find_block_payload(&doc, &anchor_for(2, content)).unwrap();
    assert_eq!(payload.block_lines.len(), 3);
    assert_eq!(payload.block_lines[2].content, "}");
}

#[test]
fn find_block_test_ruby_block() {
    let content = "def hello\n  x = 1\n  if true\n    puts 'ok'\n  end\nend\n";
    let doc = Document::from_str("test.rb", content).unwrap();
    let payload = find_block_payload(&doc, &anchor_for(2, content)).unwrap();
    assert_eq!(payload.language.as_deref(), Some("Ruby"));
    assert_eq!(payload.block_lines.len(), 6);
    assert!(payload.block_lines[0].content.contains("def hello"));
    assert_eq!(payload.block_lines[5].content, "end");
}

#[test]
fn test_brace_block_skips_block_comment() {
    let content = "fn hello() {\n    /* {\n}\n*/\n    let x = 1;\n}\n";
    let doc = Document::from_str("test.rs", content).unwrap();
    let payload = find_block_payload(&doc, &anchor_for(5, content)).unwrap();
    assert_eq!(payload.block_lines.len(), 6);
    assert_eq!(payload.block_lines[5].content, "}");
}

#[test]
fn test_js_block() {
    let content =
        "function foo() {\n  let x = 1;\n  if (true) {\n    console.log('ok');\n  }\n}\n";
    let doc = Document::from_str("test.js", content).unwrap();
    let payload = find_block_payload(&doc, &anchor_for(4, content)).unwrap();
    assert_eq!(payload.language.as_deref(), Some("JavaScript"));
    assert_eq!(payload.block_lines.len(), 3);
    assert!(payload.block_lines[0].content.contains("if (true)"));
}

#[test]
fn test_go_block() {
    let content = "func main() {\n\tif true {\n\t\tfmt.Println(\"ok\")\n\t}\n}\n";
    let doc = Document::from_str("test.go", content).unwrap();
    let payload = find_block_payload(&doc, &anchor_for(3, content)).unwrap();
    assert_eq!(payload.language.as_deref(), Some("Go"));
    assert_eq!(payload.block_lines.len(), 3);
    assert!(payload.block_lines[0].content.contains("if true"));
}

#[test]
fn test_inline_block() {
    let content = "fn simple() { let x = 1; }\n";
    let doc = Document::from_str("test.rs", content).unwrap();
    let payload = find_block_payload(&doc, &anchor_for(1, content)).unwrap();
    assert_eq!(payload.block_lines.len(), 1);
    assert!(payload.block_lines[0].content.contains("fn simple()"));
}

#[test]
fn block_rules_follow_the_extension_of_a_path_with_directories() {
    let content = "def hello():\n    x = 1\n    if True:\n        print('ok')\n    return x\n";
    let doc = Document::from_str("src/pkg/test.py", content).unwrap();
    let payload = find_block_payload(&doc, &anchor_for(4, content)).unwrap();
    assert_eq!(payload.file, "src/pkg/test.py");
    assert_eq!(payload.language.as_deref(), Some("Python"));
    assert_eq!(payload.block_lines.len(), 2);
}
