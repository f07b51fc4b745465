//! The edits that a patch is made of, after parsing: inserts at a cursor,
//! deletes of one anchored line, and block edits whose span is resolved
//! against the file's text.

use vstd::prelude::*;
use crate::apply::strings_view;

verus! {

/// A 1-based line of the snapshot that the patch was written against.
#[derive(Clone, Copy, Debug, PartialEq, Eq, Structural)]
pub struct Anchor {
    pub line: usize,
}

/// Where an insert lands.
#[derive(Clone, Copy, Debug, PartialEq, Eq, Structural)]
pub enum Cursor {
    BeforeAnchor(Anchor),
    AfterAnchor(Anchor),
    Bof,
    Eof,
}

/// An insert that is the new body of a replaced range (`SWAP`).
#[derive(Clone, Copy, Debug, PartialEq, Eq, Structural)]
pub enum InsertMode {
    Replacement,
}

/// Where a block insert lands relative to the resolved block.
#[derive(Clone, Copy, Debug, PartialEq, Eq, Structural)]
pub enum BlockMode {
    InsertAfter,
    InsertBefore,
}

/// One parsed edit. `line_num` is the patch line it came from; `index`
/// numbers the edits; `expected_hash` is the short hash the anchor line
/// must still have.
#[derive(Clone, Debug, PartialEq, Eq)]
pub enum Edit {
    Insert {
        cursor: Cursor,
        text: String,
        line_num: usize,
        index: usize,
        mode: Option<InsertMode>,
        block_start: Option<usize>,
        expected_hash: Option<u8>,
    },
    Delete {
        anchor: Anchor,
        line_num: usize,
        index: usize,
        expected_hash: Option<u8>,
    },
    Block {
        anchor: Anchor,
        payloads: Vec<String>,
        line_num: usize,
        mode: Option<BlockMode>,
        expected_hash: Option<u8>,
    },
}

/// An edit with its texts as character sequences.
pub enum EditV {
    Insert {
        cursor: Cursor,
        text: Seq<char>,
        line_num: usize,
        index: usize,
        mode: Option<InsertMode>,
        block_start: Option<usize>,
        expected_hash: Option<u8>,
    },
    Delete { anchor: Anchor, line_num: usize, index: usize, expected_hash: Option<u8> },
    Block {
        anchor: Anchor,
        payloads: Seq<Seq<char>>,
        line_num: usize,
        mode: Option<BlockMode>,
        expected_hash: Option<u8>,
    },
}

impl View for Edit {
    type V = EditV;

    open spec fn view(&self) -> EditV {
        match self {
            Edit::Insert { cursor, text, line_num, index, mode, block_start, expected_hash } => EditV::Insert {
                cursor: *cursor,
                text: text@,
                line_num: *line_num,
                index: *index,
                mode: *mode,
                block_start: *block_start,
                expected_hash: *expected_hash,
            },
            Edit::Delete { anchor, line_num, index, expected_hash } => EditV::Delete {
                anchor: *anchor,
                line_num: *line_num,
                index: *index,
                expected_hash: *expected_hash,
            },
            Edit::Block { anchor, payloads, line_num, mode, expected_hash } => EditV::Block {
                anchor: *anchor,
                payloads: strings_view(payloads@),
                line_num: *line_num,
                mode: *mode,
                expected_hash: *expected_hash,
            },
        }
    }
}

/// The views of a sequence of edits.
pub open spec fn edits_view(s: Seq<Edit>) -> Seq<EditV> {
    Seq::new(s.len(), |i: int| s[i]@)
}

/// Copies a list of strings.
pub fn copy_strings(v: &Vec<String>) -> (r: Vec<String>)
    ensures
        strings_view(r@) == strings_view(v@),
{
    let mut r: Vec<String> = Vec::new();
    let mut i: usize = 0;
    while i < v.len()
        invariant
            i <= v@.len(),
            strings_view(r@) == strings_view(v@).take(i as int),
        decreases v@.len() - i,
    {
        let ghost before = r@;
        r.push(v[i].clone());
        proof {
            assert(strings_view(r@) =~= strings_view(before).push(v@[i as int]@));
            assert(strings_view(v@).take(i + 1) =~= strings_view(v@).take(i as int).push(v@[i as int]@));
        }
        i = i + 1;
    }
    assert(strings_view(v@).take(i as int) =~= strings_view(v@));
    r
}

impl Edit {
    /// A copy of the edit with the same view.
    pub fn copy(&self) -> (r: Edit)
        ensures
            r@ == self@,
    {
        match self {
            Edit::Insert { cursor, text, line_num, index, mode, block_start, expected_hash } => Edit::Insert {
                cursor: *cursor,
                text: text.clone(),
                line_num: *line_num,
                index: *index,
                mode: *mode,
                block_start: *block_start,
                expected_hash: *expected_hash,
            },
            Edit::Delete { anchor, line_num, index, expected_hash } => Edit::Delete {
                anchor: *anchor,
                line_num: *line_num,
                index: *index,
                expected_hash: *expected_hash,
            },
            Edit::Block { anchor, payloads, line_num, mode, expected_hash } => Edit::Block {
                anchor: *anchor,
                payloads: copy_strings(payloads),
                line_num: *line_num,
                mode: *mode,
                expected_hash: *expected_hash,
            },
        }
    }
}

} // verus!
