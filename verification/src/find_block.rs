//! `find-block`: the structural block around an anchored line of a
//! document, with its lines, hashes and language.

use vstd::prelude::*;
use crate::text::{owned, str_eq, string_of, chars_of};
use crate::document::{Document, LineEntry, entry_contents, record_ok};
use crate::error::HashlineError;
use crate::hash::{hex2, format_short_hash};
use crate::anchor::{
    Anchor, parse_anchor, anchor_spec, resolve_entries, resolve_index, resolve_error, entry_hashes,
    resolved_as,
};
use crate::apply::strings_view;
use crate::block_scan::{
    brace_pairs, brace_pairs_spec, enclosing_pair, innermost_pair, pairs_view, lead_ws, leading_ws,
    dedent_end, header_at_or_before, find_dedent_end, find_header_before, ruby_block_spec, ruby_block,
};
use crate::builtin_resolver::{brace_ext, language_name, language_for_extension, str_extension, simple_path, file_extension};
use crate::text::trim;

verus! {

/// The block found around an anchor.
#[derive(Clone, Debug, PartialEq, Eq)]
pub struct FindBlockPayload {
    pub file: String,
    pub line_count: usize,
    pub language: Option<String>,
    pub block_lines: Vec<IndexLineView>,
}

/// One line of the block: its 1-based number, short hash and text.
#[derive(Clone, Debug, PartialEq, Eq)]
pub struct IndexLineView {
    pub n: usize,
    pub hash: String,
    pub content: String,
}

/// The document's lines as strings.
fn doc_strings(doc: &Document) -> (r: Vec<String>)
    ensures
        strings_view(r@) == doc.contents(),
{
    let mut r: Vec<String> = Vec::new();
    let mut i: usize = 0;
    while i < doc.lines.len()
        invariant
            i <= doc.lines@.len(),
            strings_view(r@) == doc.contents().take(i as int),
        decreases doc.lines@.len() - i,
    {
        let ghost before = r@;
        let x = owned(&*doc.lines[i].content);
        r.push(x);
        proof {
            assert(strings_view(r@) =~= strings_view(before).push(x@));
            assert(doc.contents().take(i + 1) =~= doc.contents().take(i as int).push(doc.lines@[i as int].content@));
        }
        i = i + 1;
    }
    assert(doc.contents().take(i as int) =~= doc.contents());
    r
}

/// The document's lines as entries, each with its recorded hash.
fn doc_entries(doc: &Document) -> (r: Vec<LineEntry>)
    ensures
        entry_contents(r@) == doc.contents(),
        entry_hashes(r@) == Seq::new(doc.lines@.len(), |i: int| doc.lines@[i].short_hash),
{
    let mut r: Vec<LineEntry> = Vec::new();
    let mut i: usize = 0;
    while i < doc.lines.len()
        invariant
            i <= doc.lines@.len(),
            entry_contents(r@) == doc.contents().take(i as int),
            entry_hashes(r@) == Seq::new(doc.lines@.len(), |k: int| doc.lines@[k].short_hash).take(i as int),
        decreases doc.lines@.len() - i,
    {
        let ghost before = r@;
        let x = owned(&*doc.lines[i].content);
        let h = doc.lines[i].short_hash;
        let ghost xv = x@;
        r.push(LineEntry { content: x, short_hash: h });
        proof {
            assert(entry_contents(r@) =~= entry_contents(before).push(xv));
            assert(entry_hashes(r@) =~= entry_hashes(before).push(h));
            assert(doc.contents().take(i + 1) =~= doc.contents().take(i as int).push(doc.lines@[i as int].content@));
            assert(Seq::new(doc.lines@.len(), |k: int| doc.lines@[k].short_hash).take(i + 1) =~= Seq::new(
                doc.lines@.len(),
                |k: int| doc.lines@[k].short_hash,
            ).take(i as int).push(h));
        }
        i = i + 1;
    }
    assert(doc.contents().take(i as int) =~= doc.contents());
    assert(Seq::new(doc.lines@.len(), |k: int| doc.lines@[k].short_hash).take(i as int) =~= Seq::new(
        doc.lines@.len(),
        |k: int| doc.lines@[k].short_hash,
    ));
    r
}

/// The matched `{`/`}` line pairs of the document, in the order they close.
pub fn find_brace_pairs(doc: &Document, ext: &str) -> (r: Vec<(usize, usize)>)
    ensures
        pairs_view(r@) == brace_pairs_spec(doc.contents(), ext@),
{
    let lines = doc_strings(doc);
    brace_pairs(lines.as_slice(), ext)
}

/// The innermost brace pair around `anchor_index`, or `UnbalancedBlock`.
pub fn find_brace_block(doc: &Document, anchor_index: usize, ext: &str) -> (r: Result<(usize, usize), HashlineError>)
    requires
        anchor_index < usize::MAX,
    ensures
        match r {
            Ok(p) => enclosing_pair(brace_pairs_spec(doc.contents(), ext@), anchor_index as int) == Some(
                (p.0 as int, p.1 as int),
            ),
            Err(e) => enclosing_pair(brace_pairs_spec(doc.contents(), ext@), anchor_index as int) is None
                && e == (HashlineError::UnbalancedBlock { line_no: (anchor_index + 1) as usize }),
        },
{
    let pairs = find_brace_pairs(doc, ext);
    match innermost_pair(&pairs, anchor_index) {
        Some(p) => Ok(p),
        None => Err(HashlineError::UnbalancedBlock { line_no: anchor_index + 1 }),
    }
}

/// The indentation block around line `a`: from the nearest less-indented
/// non-blank line above to the line before the next code line (not blank,
/// not a `#` comment, or with `slashes` not a `//` comment) indented no
/// deeper than that header.
pub open spec fn header_block_spec(c: Seq<Seq<char>>, a: int, slashes: bool) -> Option<(int, int)> {
    let s = header_at_or_before(c, a - 1, lead_ws(c[a]));
    if s < 0 {
        None
    } else {
        Some((s, dedent_end(c, s + 1, lead_ws(c[s]), slashes)))
    }
}

/// The header block around `anchor_index`.
fn header_block(doc: &Document, anchor_index: usize, slashes: bool) -> (r: Option<(usize, usize)>)
    requires
        anchor_index < doc.lines@.len(),
    ensures
        match r {
            Some(p) => header_block_spec(doc.contents(), anchor_index as int, slashes) == Some(
                (p.0 as int, p.1 as int),
            ),
            None => header_block_spec(doc.contents(), anchor_index as int, slashes) is None,
        },
{
    let lines = doc_strings(doc);
    let anchor_indent = leading_ws(lines[anchor_index].as_str());
    let start = match find_header_before(lines.as_slice(), anchor_index, anchor_indent) {
        Some(s) => s,
        None => {
            return None;
        },
    };
    let start_indent = leading_ws(lines[start].as_str());
    let end = find_dedent_end(lines.as_slice(), start + 1, start_indent, slashes);
    Some((start, end))
}

/// The indentation block around `anchor_index` (`#` and `//` comments do
/// not end it), or `UnbalancedBlock`.
pub fn find_indent_block(doc: &Document, anchor_index: usize) -> (r: Result<(usize, usize), HashlineError>)
    requires
        anchor_index < doc.lines@.len(),
    ensures
        match r {
            Ok(p) => header_block_spec(doc.contents(), anchor_index as int, true) == Some((p.0 as int, p.1 as int)),
            Err(e) => header_block_spec(doc.contents(), anchor_index as int, true) is None && e
                == (HashlineError::UnbalancedBlock { line_no: (anchor_index + 1) as usize }),
        },
{
    let _n = doc.lines.len();
    match header_block(doc, anchor_index, true) {
        Some(p) => Ok(p),
        None => Err(HashlineError::UnbalancedBlock { line_no: anchor_index + 1 }),
    }
}

/// The Python block around `anchor_index` (`#` comments do not end it),
/// labelled Python, or `UnbalancedBlock`.
pub fn find_python_block(doc: &Document, anchor_index: usize) -> (r: Result<(Option<String>, usize, usize), HashlineError>)
    requires
        anchor_index < doc.lines@.len(),
    ensures
        match r {
            Ok((lang, s, e)) => header_block_spec(doc.contents(), anchor_index as int, false) == Some(
                (s as int, e as int),
            ) && lang_view(lang) == Some("Python"@),
            Err(e) => header_block_spec(doc.contents(), anchor_index as int, false) is None && e
                == (HashlineError::UnbalancedBlock { line_no: (anchor_index + 1) as usize }),
        },
{
    let _n = doc.lines.len();
    match header_block(doc, anchor_index, false) {
        Some((s, e)) => Ok((Some(owned("Python")), s, e)),
        None => Err(HashlineError::UnbalancedBlock { line_no: anchor_index + 1 }),
    }
}

/// The Ruby block around `anchor_index`, labelled Ruby, or
/// `UnbalancedBlock`.
pub fn find_ruby_block(doc: &Document, anchor_index: usize) -> (r: Result<(Option<String>, usize, usize), HashlineError>)
    requires
        anchor_index < doc.lines@.len(),
    ensures
        match r {
            Ok((lang, s, e)) => ruby_block_spec(doc.contents(), anchor_index as int, true) == Some(
                (s as int, e as int),
            ) && lang_view(lang) == Some("Ruby"@),
            Err(e) => ruby_block_spec(doc.contents(), anchor_index as int, true) is None && e
                == (HashlineError::UnbalancedBlock { line_no: (anchor_index + 1) as usize }),
        },
{
    let _n = doc.lines.len();
    let lines = doc_strings(doc);
    match ruby_block(lines.as_slice(), anchor_index, true) {
        Some((s, e)) => Ok((Some(owned("Ruby")), s, e)),
        None => Err(HashlineError::UnbalancedBlock { line_no: anchor_index + 1 }),
    }
}

/// The block `find-block` reports around line `a` of `c` for extension
/// `ext`, with its language: Python and Verse by indentation, Ruby by
/// `end`, brace languages by braces, anything else by indentation and
/// then braces (labelled Unknown). `None` when there is no block in range.
pub open spec fn find_block_spec(c: Seq<Seq<char>>, a: int, ext: Seq<char>) -> Option<(Option<Seq<char>>, int, int)> {
    let found: Option<(Option<Seq<char>>, int, int)> = if ext == "py"@ || ext == "verse"@ {
        match header_block_spec(c, a, false) {
            Some((s, e)) => Some((Some("Python"@), s, e)),
            None => None,
        }
    } else if ext == "rb"@ {
        match ruby_block_spec(c, a, true) {
            Some((s, e)) => Some((Some("Ruby"@), s, e)),
            None => None,
        }
    } else if brace_ext(ext) {
        match enclosing_pair(brace_pairs_spec(c, ext), a) {
            Some((s, e)) => Some((language_name(ext), s, e)),
            None => None,
        }
    } else {
        match header_block_spec(c, a, true) {
            Some((s, e)) => Some((Some("Unknown"@), s, e)),
            None => match enclosing_pair(brace_pairs_spec(c, ext), a) {
                Some((s, e)) => Some((Some("Unknown"@), s, e)),
                None => None,
            },
        }
    };
    match found {
        Some((l, s, e)) => if s < c.len() && e < c.len() && s <= e {
            found
        } else {
            None
        },
        None => None,
    }
}

/// The language as text, if any.
pub open spec fn lang_view(l: Option<String>) -> Option<Seq<char>> {
    match l {
        Some(s) => Some(s@),
        None => None,
    }
}

/// The block lines `s..=e` of the document, shown with number and hash.
pub open spec fn block_view_ok(doc: Document, s: int, e: int, v: Seq<IndexLineView>) -> bool {
    &&& v.len() == e - s + 1
    &&& forall|k: int| 0 <= k < v.len() ==> {
        &&& (#[trigger] v[k]).n == s + k + 1
        &&& v[k].hash@ == hex2(doc.lines@[s + k].short_hash)
        &&& v[k].content@ == doc.lines@[s + k].content@
    }
}

/// The block around `anchor_index` for extension `ext` (see
/// [`find_block_spec`]), or `UnbalancedBlock`.
fn block_for_extension(doc: &Document, anchor_index: usize, ext: &str) -> (r: Result<(Option<String>, usize, usize), HashlineError>)
    requires
        anchor_index < doc.lines@.len(),
    ensures
        match r {
            Ok((l, s, e)) => find_block_spec(doc.contents(), anchor_index as int, ext@) == Some(
                (lang_view(l), s as int, e as int),
            ),
            Err(err) => find_block_spec(doc.contents(), anchor_index as int, ext@) is None && err
                == (HashlineError::UnbalancedBlock { line_no: (anchor_index + 1) as usize }),
        },
{
    let _n = doc.lines.len();
    let found = if str_eq(ext, "py") || str_eq(ext, "verse") {
        find_python_block(doc, anchor_index)
    } else if str_eq(ext, "rb") {
        find_ruby_block(doc, anchor_index)
    } else if crate::builtin_resolver::is_brace_ext(ext) {
        match find_brace_block(doc, anchor_index, ext) {
            Ok((s, e)) => Ok((language_for_extension(ext), s, e)),
            Err(err) => Err(err),
        }
    } else {
        match find_indent_block(doc, anchor_index) {
            Ok((s, e)) => Ok((Some(owned("Unknown")), s, e)),
            Err(_) => match find_brace_block(doc, anchor_index, ext) {
                Ok((s, e)) => Ok((Some(owned("Unknown")), s, e)),
                Err(err) => Err(err),
            },
        }
    };
    match found {
        Ok((l, s, e)) => {
            if s >= doc.lines.len() || e >= doc.lines.len() || s > e {
                Err(HashlineError::UnbalancedBlock { line_no: anchor_index + 1 })
            } else {
                Ok((l, s, e))
            }
        },
        Err(err) => Err(err),
    }
}

/// The lines `s..=e` of the document as shown in the payload.
fn block_lines(doc: &Document, s: usize, e: usize) -> (v: Vec<IndexLineView>)
    requires
        s <= e < doc.lines@.len(),
    ensures
        block_view_ok(*doc, s as int, e as int, v@),
{
    let mut v: Vec<IndexLineView> = Vec::new();
    let mut i: usize = s;
    while i <= e
        invariant
            s <= i <= e + 1,
            e < doc.lines@.len(),
            v@.len() == i - s,
            forall|k: int| 0 <= k < v@.len() ==> {
                &&& (#[trigger] v@[k]).n == s + k + 1
                &&& v@[k].hash@ == hex2(doc.lines@[s + k].short_hash)
                &&& v@[k].content@ == doc.lines@[s + k].content@
            },
        decreases e + 1 - i,
    {
        let _n = doc.lines.len();
        v.push(IndexLineView {
            n: i + 1,
            hash: format_short_hash(doc.lines[i].short_hash),
            content: owned(&*doc.lines[i].content),
        });
        i = i + 1;
    }
    v
}

/// What `find-block` gives for a document whose path has extension `ext`
/// and reads as `file`.
pub open spec fn payload_outcome(doc: Document, anchor: Seq<char>, ext: Seq<char>, file: Seq<char>, r: Result<
    FindBlockPayload,
    HashlineError,
>) -> bool {
    let c = doc.contents();
    let h = Seq::new(doc.lines@.len(), |i: int| doc.lines@[i].short_hash);
    match anchor_spec(anchor) {
        None => (r matches Err(e) && e is InvalidAnchor),
        Some(a) => match resolve_index(a, h) {
            None => (r matches Err(e) && resolve_error(a, c, h, e)),
            Some(i) => match find_block_spec(c, i, ext) {
                None => r == Err::<FindBlockPayload, HashlineError>(
                    HashlineError::UnbalancedBlock { line_no: (i + 1) as usize },
                ),
                Some((l, s, e)) => (r matches Ok(p) && p.file@ == file && p.line_count == c.len() && lang_view(
                    p.language,
                ) == l && block_view_ok(doc, s, e, p.block_lines@)),
            },
        },
    }
}

/// `find-block` for a document whose path has extension `ext` and reads as
/// `file`: parses and resolves the anchor, finds the block around it (see
/// [`find_block_spec`]) and lists its lines.
pub fn find_block_payload_for(doc: &Document, anchor_str: &str, ext: &str, file: String) -> (r: Result<FindBlockPayload, HashlineError>)
    ensures
        payload_outcome(*doc, anchor_str@, ext@, file@, r),
{
    let entries = doc_entries(doc);
    let parsed = parse_anchor(anchor_str)?;
    let resolved = resolve_entries(&parsed, entries.as_slice(), owned(file.as_str()))?;
    let anchor_index = resolved.index;
    proof {
        assert(entry_hashes(entries@) =~= Seq::new(doc.lines@.len(), |i: int| doc.lines@[i].short_hash));
        crate::anchor::lemma_resolve_in_range(parsed, entry_hashes(entries@));
    }
    let (language, s, e) = block_for_extension(doc, anchor_index, ext)?;
    let lines = block_lines(doc, s, e);
    Ok(FindBlockPayload { file, line_count: doc.len(), language, block_lines: lines })
}

/// `find-block` on a document: see [`find_block_payload_for`], with the
/// extension of the document's path and the path as the file shown.
pub fn find_block_payload(doc: &Document, anchor_str: &str) -> (r: Result<FindBlockPayload, HashlineError>)
    ensures
        exists|ext: Seq<char>|
            (simple_path(doc.path@) ==> ext == file_extension(doc.path@)) && #[trigger] payload_outcome(
                *doc,
                anchor_str@,
                ext,
                doc.path@,
                r,
            ),
        simple_path(doc.path@) ==> payload_outcome(*doc, anchor_str@, file_extension(doc.path@), doc.path@, r),
{
    let ext = str_extension(doc.path.as_str());
    let file = owned(doc.path.as_str());
    let ghost ev = ext@;
    let r = find_block_payload_for(doc, anchor_str, ext.as_str(), file);
    assert(payload_outcome(*doc, anchor_str@, ev, doc.path@, r));
    r
}

} // verus!
