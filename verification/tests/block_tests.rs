use hashline::block::{has_block_edit, lower_block_edits, resolve_block_edits};
use hashline::builtin_resolver::{BlockResolver, BlockResolverRequest, BlockSpan, BuiltinBlockResolver};
use hashline::edit::{Anchor, BlockMode, Cursor, Edit, InsertMode};

fn block(line: usize, body: &[&str], mode: Option<BlockMode>, line_num: usize) -> Edit {
    Edit::Block {
        anchor: Anchor { line },
        payloads: body.iter().map(|s| s.to_string()).collect(),
        line_num,
        mode,
        expected_hash: None,
    }
}

fn plain_delete(line: usize) -> Edit {
    Edit::Delete { anchor: Anchor { line }, line_num: 1, index: 7, expected_hash: Some(3) }
}

#[test]
fn has_block_edit_finds_block_edits_only() {
    assert!(!has_block_edit(&[plain_delete(1)]));
    assert!(has_block_edit(&[plain_delete(1), block(2, &[], None, 2)]));
    assert!(!has_block_edit(&[]));
}

#[test]
fn non_block_edits_pass_through() {
    let edits = vec![plain_delete(4)];
    let out = resolve_block_edits(&edits, "a\nb", "x.rs", None).unwrap();
    assert_eq!(out, edits);
}

#[test]
fn replace_block_becomes_replacement_inserts_and_deletes() {
    let edits = vec![block(1, &["x", "y"], None, 5)];
    let out = lower_block_edits(&edits, &[Some(BlockSpan { start: 1, end: 3 })], true).unwrap();
    let expected = vec![
        Edit::Insert {
            cursor: Cursor::BeforeAnchor(Anchor { line: 1 }),
            text: "x".to_string(),
            line_num: 5,
            index: 0,
            mode: Some(InsertMode::Replacement),
            block_start: None,
            expected_hash: None,
        },
        Edit::Insert {
            cursor: Cursor::BeforeAnchor(Anchor { line: 1 }),
            text: "y".to_string(),
            line_num: 5,
            index: 1,
            mode: Some(InsertMode::Replacement),
            block_start: None,
            expected_hash: None,
        },
        Edit::Delete { anchor: Anchor { line: 1 }, line_num: 5, index: 2, expected_hash: None },
        Edit::Delete { anchor: Anchor { line: 2 }, line_num: 5, index: 3, expected_hash: None },
        Edit::Delete { anchor: Anchor { line: 3 }, line_num: 5, index: 4, expected_hash: None },
    ];
    assert_eq!(out, expected);
}

#[test]
fn insert_after_block_lands_after_the_end() {
    let edits = vec![block(2, &["z"], Some(BlockMode::InsertAfter), 9)];
    let out = lower_block_edits(&edits, &[Some(BlockSpan { start: 2, end: 6 })], true).unwrap();
    assert_eq!(
        out,
        vec![Edit::Insert {
            cursor: Cursor::AfterAnchor(Anchor { line: 6 }),
            text: "z".to_string(),
            line_num: 9,
            index: 0,
            mode: None,
            block_start: Some(2),
            expected_hash: None,
        }]
    );
}

#[test]
fn unresolved_insert_after_degrades_to_plain_insert() {
    let edits = vec![block(4, &["z"], Some(BlockMode::InsertAfter), 2)];
    let out = resolve_block_edits(&edits, "a\nb", "x.rs", None).unwrap();
    assert_eq!(
        out,
        vec![Edit::Insert {
            cursor: Cursor::AfterAnchor(Anchor { line: 4 }),
            text: "z".to_string(),
            line_num: 2,
            index: 0,
            mode: None,
            block_start: None,
            expected_hash: None,
        }]
    );
}

#[test]
fn replace_without_resolver_is_refused() {
    let err = resolve_block_edits(&[block(1, &["x"], None, 3)], "a", "x.rs", None).unwrap_err();
    assert_eq!(
        err,
        "line 3: SWAP.BLK/DEL.BLK/INS.BLK.POST are not available here (no block resolver configured). Use a concrete line range."
    );
}

#[test]
fn unresolvable_delete_is_refused() {
    let r = BuiltinBlockResolver::new();
    let err = resolve_block_edits(&[block(1, &[], None, 2)], "}\n", "x.rs", Some(&r as &dyn BlockResolver)).unwrap_err();
    assert_eq!(
        err,
        "line 2: cannot resolve block anchor for `delete` on line 1 \u{2014} unsupported language, blank/closer line, or parse error. Use a concrete line range."
    );
}

#[test]
fn single_line_block_is_refused() {
    let err = lower_block_edits(&[block(4, &["x"], None, 6)], &[Some(BlockSpan { start: 3, end: 3 })], true).unwrap_err();
    assert_eq!(
        err,
        "line 6: `replace` resolved a single-line block (line 3) \u{2014} line 6 is a bare statement, not the opening line of a multi-line construct. Use a concrete line range instead."
    );
}

#[test]
fn builtin_resolver_lowers_a_rust_function() {
    let text = "fn a() {\n    x();\n}\n";
    let r = BuiltinBlockResolver::new();
    let out = resolve_block_edits(&[block(1, &[], None, 1)], text, "src/a.rs", Some(&r as &dyn BlockResolver)).unwrap();
    assert_eq!(
        out,
        vec![
            Edit::Delete { anchor: Anchor { line: 0 }, line_num: 1, index: 0, expected_hash: None },
            Edit::Delete { anchor: Anchor { line: 1 }, line_num: 1, index: 1, expected_hash: None },
            Edit::Delete { anchor: Anchor { line: 2 }, line_num: 1, index: 2, expected_hash: None },
        ]
    );
}

struct Recorder {
    asked: std::cell::RefCell<Vec<(String, String, usize)>>,
    span: Option<BlockSpan>,
}

impl BlockResolver for Recorder {
    fn resolve(&self, request: &BlockResolverRequest) -> Option<BlockSpan> {
        self.asked.borrow_mut().push((request.path.clone(), request.text.clone(), request.line));
        self.span
    }
}

#[test]
fn resolver_is_asked_about_the_anchor_line() {
    let rec = Recorder { asked: std::cell::RefCell::new(Vec::new()), span: Some(BlockSpan { start: 1, end: 2 }) };
    let text = "a\nb {\nc\n}";
    let out = resolve_block_edits(&[block(2, &[], None, 7)], text, "dir/f.rs", Some(&rec as &dyn BlockResolver)).unwrap();
    assert_eq!(*rec.asked.borrow(), vec![("dir/f.rs".to_string(), text.to_string(), 2)]);
    assert_eq!(
        out,
        vec![
            Edit::Delete { anchor: Anchor { line: 1 }, line_num: 7, index: 0, expected_hash: None },
            Edit::Delete { anchor: Anchor { line: 2 }, line_num: 7, index: 1, expected_hash: None },
        ]
    );
}
