//! The built-in block resolver: brace matching for C-family languages,
//! indentation for Python and Verse, `end` balancing for Ruby, and for
//! other files braces first, then indentation.

use vstd::prelude::*;
use crate::text::{chars_of, split_chars, str_eq, owned, lines_view, join_lines, join_seq};
use crate::document::{LineEntry, entry_contents, text_lines};
use crate::hash::short_hash_value;
use crate::error::HashlineError;
use crate::apply::strings_view;
use crate::block_scan::{
    brace_pairs, brace_pairs_spec, enclosing_pair, innermost_pair, pairs_view, lead_ws, leading_ws,
    dedent_end, header_at_or_before, find_dedent_end, find_header_before, ruby_block_spec, ruby_block,
};

verus! {

/// A block as 0-based first and last line.
#[derive(Clone, Copy, Debug, PartialEq, Eq, Structural)]
pub struct BlockSpan {
    pub start: usize,
    pub end: usize,
}

/// What a resolver is asked: the file's path and text, and the 1-based line
/// the block must contain.
#[derive(Clone, Debug)]
pub struct BlockResolverRequest {
    pub path: String,
    pub text: String,
    pub line: usize,
}

/// Finds the syntactic block around a line. Users may plug in their own
/// (for instance one backed by a real parser).
pub trait BlockResolver {
    /// `r` is an answer this resolver may give for 1-based `line` of `text`,
    /// the contents of the file at `path`. A resolver that states nothing of
    /// its answers may give any.
    closed spec fn answers(&self, path: Seq<char>, text: Seq<char>, line: usize, r: Option<BlockSpan>) -> bool {
        true
    }

    /// The block around the request's line, if the resolver finds one.
    fn resolve(&self, request: &BlockResolverRequest) -> (r: Option<BlockSpan>)
        ensures
            self.answers(request.path@, request.text@, request.line, r),
    ;
}

/// The heuristic resolver.
#[derive(Clone, Copy, Debug)]
pub struct BuiltinBlockResolver;

impl BuiltinBlockResolver {
    /// The resolver; it holds no state.
    pub fn new() -> (r: BuiltinBlockResolver) {
        BuiltinBlockResolver
    }
}

impl Default for BuiltinBlockResolver {
    fn default() -> (r: BuiltinBlockResolver) {
        BuiltinBlockResolver
    }
}

/// The index of the last `/` of `s`, or -1 when there is none.
pub open spec fn last_slash(s: Seq<char>) -> int
    decreases s.len(),
{
    if s.len() == 0 {
        -1
    } else if s.last() == '/' {
        s.len() - 1
    } else {
        last_slash(s.drop_last())
    }
}

/// The last `/`-separated part of path text `s`.
pub open spec fn path_name(s: Seq<char>) -> Seq<char> {
    s.skip(last_slash(s) + 1)
}

/// Path text whose file name is plainly its last `/`-separated part on
/// every platform: no `\` and no `:` (which could start a prefix or
/// separate parts), not ending in `/`, and a last part other than `.` and
/// `..`.
pub open spec fn simple_path(s: Seq<char>) -> bool {
    &&& forall|i: int| 0 <= i < s.len() ==> #[trigger] s[i] != '\\' && s[i] != ':'
    &&& !(s.len() > 0 && s.last() == '/')
    &&& path_name(s) != seq!['.']
    &&& path_name(s) != seq!['.', '.']
}

/// The extension of the file a simple path names.
pub open spec fn file_extension(s: Seq<char>) -> Seq<char> {
    name_extension(path_name(s))
}

/// The index of the last `.` of `s`, or -1 when there is none.
pub open spec fn last_dot(s: Seq<char>) -> int
    decreases s.len(),
{
    if s.len() == 0 {
        -1
    } else if s.last() == '.' {
        s.len() - 1
    } else {
        last_dot(s.drop_last())
    }
}

/// The extension of file name `s`: what follows its last `.`, unless that
/// `.` is the first character (or there is none), when it is empty.
pub open spec fn name_extension(s: Seq<char>) -> Seq<char> {
    if last_dot(s) > 0 {
        s.skip(last_dot(s) + 1)
    } else {
        Seq::empty()
    }
}

/// Calls `Path::extension` on the path `s` names, taking a missing or
/// non-UTF-8 extension as empty. For a simple path (see [`simple_path`])
/// `std` documents the result: the file name is the last part, and its
/// extension is the text after the last `.`, none when the name starts
/// with its only `.`. Where a path has a prefix or a trailing `.` or `..`
/// part, what counts as the file name depends on the platform, so nothing
/// is stated for such paths.
#[verifier::external_body]
pub(crate) fn str_extension(s: &str) -> (r: String)
    ensures
        simple_path(s@) ==> r@ == file_extension(s@),
{
    match std::path::Path::new(s).extension() {
        Some(e) => e.to_str().unwrap_or("").to_string(),
        None => String::new(),
    }
}

/// Extensions whose blocks are found by braces alone.
pub open spec fn brace_ext(e: Seq<char>) -> bool {
    ||| e == "rs"@ ||| e == "js"@ ||| e == "ts"@ ||| e == "tsx"@ ||| e == "jsx"@ ||| e == "go"@
    ||| e == "java"@ ||| e == "c"@ ||| e == "cpp"@ ||| e == "h"@ ||| e == "hpp"@ ||| e == "cs"@
    ||| e == "kt"@ ||| e == "kts"@ ||| e == "swift"@ ||| e == "scala"@ ||| e == "dart"@
    ||| e == "zig"@ ||| e == "m"@ ||| e == "mm"@
}

/// Whether `e` is a brace-only extension.
pub fn is_brace_ext(e: &str) -> (r: bool)
    ensures
        r == brace_ext(e@),
{
    str_eq(e, "rs") || str_eq(e, "js") || str_eq(e, "ts") || str_eq(e, "tsx") || str_eq(e, "jsx")
        || str_eq(e, "go") || str_eq(e, "java") || str_eq(e, "c") || str_eq(e, "cpp") || str_eq(e, "h")
        || str_eq(e, "hpp") || str_eq(e, "cs") || str_eq(e, "kt") || str_eq(e, "kts") || str_eq(e, "swift")
        || str_eq(e, "scala") || str_eq(e, "dart") || str_eq(e, "zig") || str_eq(e, "m") || str_eq(e, "mm")
}

/// The innermost brace block around line `a` of `c`.
pub open spec fn brace_block_spec(c: Seq<Seq<char>>, a: int, ext: Seq<char>) -> Option<(int, int)> {
    enclosing_pair(brace_pairs_spec(c, ext), a)
}

/// The indentation block around line `a` of `c`: for an unindented line,
/// from it to the line before the next unindented code line; otherwise
/// from the nearest less-indented line above to the line before the next
/// code line indented no deeper than that header.
pub open spec fn indent_block_spec(c: Seq<Seq<char>>, a: int) -> Option<(int, int)> {
    let ai = lead_ws(c[a]);
    if ai == 0 {
        Some((a, dedent_end(c, a + 1, 0, true)))
    } else {
        let s = header_at_or_before(c, a - 1, ai);
        if s < 0 {
            None
        } else {
            Some((s, dedent_end(c, s + 1, lead_ws(c[s]), true)))
        }
    }
}

/// `a`, else `b`.
pub open spec fn or_else(a: Option<(int, int)>, b: Option<(int, int)>) -> Option<(int, int)> {
    if a is Some {
        a
    } else {
        b
    }
}

/// The block the built-in resolver finds around line `a` (0-based) of a
/// file with extension `ext`.
pub open spec fn builtin_block_spec(c: Seq<Seq<char>>, a: int, ext: Seq<char>) -> Option<(int, int)> {
    if a < 0 || a >= c.len() {
        None
    } else if ext == "py"@ || ext == "verse"@ {
        or_else(brace_block_spec(c, a, ext), indent_block_spec(c, a))
    } else if ext == "rb"@ {
        ruby_block_spec(c, a, false)
    } else if brace_ext(ext) {
        brace_block_spec(c, a, ext)
    } else {
        or_else(brace_block_spec(c, a, ext), indent_block_spec(c, a))
    }
}

/// The contents of the entries.
fn entry_strings(entries: &[LineEntry]) -> (r: Vec<String>)
    ensures
        strings_view(r@) == entry_contents(entries@),
{
    let mut r: Vec<String> = Vec::new();
    let mut i: usize = 0;
    while i < entries.len()
        invariant
            i <= entries@.len(),
            strings_view(r@) == entry_contents(entries@).take(i as int),
        decreases entries@.len() - i,
    {
        let ghost before = r@;
        let x = owned(entries[i].content.as_str());
        r.push(x);
        proof {
            assert(strings_view(r@) =~= strings_view(before).push(x@));
            assert(entry_contents(entries@).take(i + 1) =~= entry_contents(entries@).take(i as int).push(
                entries@[i as int].content@,
            ));
        }
        i = i + 1;
    }
    assert(entry_contents(entries@).take(i as int) =~= entry_contents(entries@));
    r
}

/// The innermost brace block around `anchor_idx` (see [`brace_block_spec`]).
pub fn resolve_brace_block(entries: &[LineEntry], anchor_idx: usize, ext: &str) -> (r: Option<(usize, usize)>)
    ensures
        match r {
            Some(p) => brace_block_spec(entry_contents(entries@), anchor_idx as int, ext@) == Some(
                (p.0 as int, p.1 as int),
            ),
            None => brace_block_spec(entry_contents(entries@), anchor_idx as int, ext@) is None,
        },
{
    let lines = entry_strings(entries);
    let pairs = brace_pairs(lines.as_slice(), ext);
    innermost_pair(&pairs, anchor_idx)
}

/// The indentation block around `anchor_idx` (see [`indent_block_spec`]).
pub fn resolve_indent_block(entries: &[LineEntry], anchor_idx: usize) -> (r: Option<(usize, usize)>)
    requires
        anchor_idx < entries@.len(),
    ensures
        match r {
            Some(p) => indent_block_spec(entry_contents(entries@), anchor_idx as int) == Some(
                (p.0 as int, p.1 as int),
            ),
            None => indent_block_spec(entry_contents(entries@), anchor_idx as int) is None,
        },
{
    let lines = entry_strings(entries);
    let ghost c = strings_view(lines@);
    let _n = lines.len();
    let anchor_indent = leading_ws(lines[anchor_idx].as_str());
    if anchor_indent == 0 {
        let end = find_dedent_end(lines.as_slice(), anchor_idx + 1, 0, true);
        Some((anchor_idx, end))
    } else {
        let start = match find_header_before(lines.as_slice(), anchor_idx, anchor_indent) {
            Some(s) => s,
            None => {
                return None;
            },
        };
        let start_indent = leading_ws(lines[start].as_str());
        let end = find_dedent_end(lines.as_slice(), start + 1, start_indent, true);
        Some((start, end))
    }
}

/// The Ruby block around `anchor_idx` (see [`ruby_block_spec`]).
pub fn resolve_ruby_block(entries: &[LineEntry], anchor_idx: usize) -> (r: Option<(usize, usize)>)
    requires
        anchor_idx < entries@.len(),
    ensures
        match r {
            Some(p) => ruby_block_spec(entry_contents(entries@), anchor_idx as int, false) == Some(
                (p.0 as int, p.1 as int),
            ),
            None => ruby_block_spec(entry_contents(entries@), anchor_idx as int, false) is None,
        },
{
    let lines = entry_strings(entries);
    ruby_block(lines.as_slice(), anchor_idx, false)
}

/// The lines of `text` as entries: none for empty text, else one per piece
/// between LFs.
fn text_to_entries(text: &str) -> (r: Vec<LineEntry>)
    ensures
        entry_contents(r@) == text_lines(text@),
{
    let cs = chars_of(text);
    let mut r: Vec<LineEntry> = Vec::new();
    if cs.len() == 0 {
        assert(entry_contents(r@) =~= text_lines(text@));
        return r;
    }
    let parts = split_chars(cs.as_slice(), '\n');
    let mut i: usize = 0;
    while i < parts.len()
        invariant
            i <= parts@.len(),
            lines_view(parts@) == text_lines(text@),
            entry_contents(r@) == text_lines(text@).take(i as int),
        decreases parts@.len() - i,
    {
        let s = crate::text::string_of(parts[i].as_slice());
        let h = short_hash_value(s.as_str());
        let ghost sv = s@;
        let ghost before = r@;
        r.push(LineEntry { content: s, short_hash: h });
        proof {
            assert(entry_contents(r@) =~= entry_contents(before).push(sv));
            assert(sv == lines_view(parts@)[i as int]);
            assert(text_lines(text@).take(i + 1) =~= text_lines(text@).take(i as int).push(sv));
        }
        i = i + 1;
    }
    assert(text_lines(text@).take(i as int) =~= text_lines(text@));
    r
}

/// `r` is the built-in resolver's answer for 1-based `line` of `text` in a
/// file with extension `ext`.
pub open spec fn builtin_answer(text: Seq<char>, line: int, ext: Seq<char>, r: Option<BlockSpan>) -> bool {
    match r {
        Some(b) => builtin_block_spec(text_lines(text), line - 1, ext) == Some((b.start as int, b.end as int)),
        None => builtin_block_spec(text_lines(text), line - 1, ext) is None,
    }
}

/// The block the built-in resolver finds around 1-based `line` of `text`,
/// for a file with extension `ext` (see [`builtin_block_spec`]).
pub fn resolve_with_extension(text: &str, line: usize, ext: &str) -> (r: Option<BlockSpan>)
    ensures
        builtin_answer(text@, line as int, ext@, r),
{
    let entries = text_to_entries(text);
    if line == 0 || line - 1 >= entries.len() {
        return None;
    }
    let a = line - 1;
    let result = if str_eq(ext, "py") || str_eq(ext, "verse") {
        match resolve_brace_block(entries.as_slice(), a, ext) {
            Some(p) => Some(p),
            None => resolve_indent_block(entries.as_slice(), a),
        }
    } else if str_eq(ext, "rb") {
        resolve_ruby_block(entries.as_slice(), a)
    } else if is_brace_ext(ext) {
        resolve_brace_block(entries.as_slice(), a, ext)
    } else {
        match resolve_brace_block(entries.as_slice(), a, ext) {
            Some(p) => Some(p),
            None => resolve_indent_block(entries.as_slice(), a),
        }
    };
    match result {
        Some((start, end)) => Some(BlockSpan { start, end }),
        None => None,
    }
}

impl BlockResolver for BuiltinBlockResolver {
    /// The answer for the path's extension (see [`builtin_answer`]); for a
    /// simple path that is [`file_extension`] of it.
    open spec fn answers(&self, path: Seq<char>, text: Seq<char>, line: usize, r: Option<BlockSpan>) -> bool {
        exists|ext: Seq<char>|
            (simple_path(path) ==> ext == file_extension(path)) && #[trigger] builtin_answer(text, line as int, ext, r)
    }

    /// The block around the request's line, by the rule for the path's
    /// extension (see [`builtin_block_spec`]).
    fn resolve(&self, request: &BlockResolverRequest) -> (r: Option<BlockSpan>)
        ensures
            simple_path(request.path@) ==> builtin_answer(
                request.text@,
                request.line as int,
                file_extension(request.path@),
                r,
            ),
    {
        let ext = str_extension(request.path.as_str());
        let r = resolve_with_extension(request.text.as_str(), request.line, ext.as_str());
        assert(builtin_answer(request.text@, request.line as int, ext@, r));
        r
    }
}

/// The language name for a file extension, if it is one the resolver knows.
pub open spec fn language_name(ext: Seq<char>) -> Option<Seq<char>> {
    if ext == "rs"@ { Some("Rust"@) }
    else if ext == "py"@ { Some("Python"@) }
    else if ext == "js"@ { Some("JavaScript"@) }
    else if ext == "ts"@ { Some("TypeScript"@) }
    else if ext == "tsx"@ { Some("TSX"@) }
    else if ext == "jsx"@ { Some("JSX"@) }
    else if ext == "go"@ { Some("Go"@) }
    else if ext == "rb"@ { Some("Ruby"@) }
    else if ext == "verse"@ { Some("Verse"@) }
    else if ext == "java"@ { Some("Java"@) }
    else if ext == "c"@ { Some("C"@) }
    else if ext == "cpp"@ || ext == "hpp"@ { Some("C++"@) }
    else if ext == "h"@ { Some("C/C++ Header"@) }
    else if ext == "cs"@ { Some("C#"@) }
    else if ext == "kt"@ || ext == "kts"@ { Some("Kotlin"@) }
    else if ext == "swift"@ { Some("Swift"@) }
    else if ext == "scala"@ { Some("Scala"@) }
    else if ext == "dart"@ { Some("Dart"@) }
    else if ext == "zig"@ { Some("Zig"@) }
    else if ext == "m"@ { Some("Objective-C"@) }
    else if ext == "mm"@ { Some("Objective-C++"@) }
    else { None }
}

/// The language name for a file extension (see [`language_name`]).
pub fn language_for_extension(ext: &str) -> (r: Option<String>)
    ensures
        match r {
            Some(s) => language_name(ext@) == Some(s@),
            None => language_name(ext@) is None,
        },
{
    let name: &str = if str_eq(ext, "rs") { "Rust" }
    else if str_eq(ext, "py") { "Python" }
    else if str_eq(ext, "js") { "JavaScript" }
    else if str_eq(ext, "ts") { "TypeScript" }
    else if str_eq(ext, "tsx") { "TSX" }
    else if str_eq(ext, "jsx") { "JSX" }
    else if str_eq(ext, "go") { "Go" }
    else if str_eq(ext, "rb") { "Ruby" }
    else if str_eq(ext, "verse") { "Verse" }
    else if str_eq(ext, "java") { "Java" }
    else if str_eq(ext, "c") { "C" }
    else if str_eq(ext, "cpp") || str_eq(ext, "hpp") { "C++" }
    else if str_eq(ext, "h") { "C/C++ Header" }
    else if str_eq(ext, "cs") { "C#" }
    else if str_eq(ext, "kt") || str_eq(ext, "kts") { "Kotlin" }
    else if str_eq(ext, "swift") { "Swift" }
    else if str_eq(ext, "scala") { "Scala" }
    else if str_eq(ext, "dart") { "Dart" }
    else if str_eq(ext, "zig") { "Zig" }
    else if str_eq(ext, "m") { "Objective-C" }
    else if str_eq(ext, "mm") { "Objective-C++" }
    else {
        return None;
    };
    Some(owned(name))
}

/// The entries' contents joined with LF.
fn join_contents(entries: &[LineEntry]) -> (r: String)
    ensures
        r@ == join_seq(entry_contents(entries@), seq!['\n']),
{
    let mut v: Vec<Vec<char>> = Vec::new();
    let mut i: usize = 0;
    while i < entries.len()
        invariant
            i <= entries@.len(),
            lines_view(v@) == entry_contents(entries@).take(i as int),
        decreases entries@.len() - i,
    {
        let ghost before = v@;
        let x = chars_of(entries[i].content.as_str());
        v.push(x);
        proof {
            assert(lines_view(v@) =~= lines_view(before).push(x@));
            assert(entry_contents(entries@).take(i + 1) =~= entry_contents(entries@).take(i as int).push(
                entries@[i as int].content@,
            ));
        }
        i = i + 1;
    }
    assert(entry_contents(entries@).take(i as int) =~= entry_contents(entries@));
    let mut sep: Vec<char> = Vec::new();
    sep.push('\n');
    assert(sep@ =~= seq!['\n']);
    join_lines(v.as_slice(), sep.as_slice())
}

/// How a resolver's answer is taken for a file of `n` lines with extension
/// `ext`: a span inside the file, start before end, gives the span and the
/// extension's language; anything else is `UnbalancedBlock` for the
/// anchor's 1-based line.
pub open spec fn span_answer(n: int, anchor_index: int, span: Option<BlockSpan>, ext: Seq<char>, r: Result<
    (Option<String>, usize, usize),
    HashlineError,
>) -> bool {
    let refused = r == Err::<(Option<String>, usize, usize), HashlineError>(
        HashlineError::UnbalancedBlock { line_no: (anchor_index + 1) as usize },
    );
    match span {
        None => refused,
        Some(sp) => if sp.start >= n || sp.end >= n || sp.start > sp.end {
            refused
        } else {
            r matches Ok((lang, s, e)) && s == sp.start && e == sp.end && match lang {
                Some(l) => language_name(ext) == Some(l@),
                None => language_name(ext) is None,
            }
        },
    }
}

/// Takes a resolver's answer for a file of `n` lines with extension `ext`
/// (see [`span_answer`]).
pub fn check_block_span(n: usize, anchor_index: usize, span: Option<BlockSpan>, ext: &str) -> (r: Result<
    (Option<String>, usize, usize),
    HashlineError,
>)
    requires
        anchor_index < usize::MAX,
    ensures
        span_answer(n as int, anchor_index as int, span, ext@, r),
{
    let sp = match span {
        Some(s) => s,
        None => {
            return Err(HashlineError::UnbalancedBlock { line_no: anchor_index + 1 });
        },
    };
    if sp.start >= n || sp.end >= n || sp.start > sp.end {
        return Err(HashlineError::UnbalancedBlock { line_no: anchor_index + 1 });
    }
    let language = language_for_extension(ext);
    Ok((language, sp.start, sp.end))
}

/// Asks `resolver` for the block around `anchor_index` (0-based), handing
/// it `path`, the entries' contents joined with LF and the 1-based line, and
/// takes the answer as [`check_block_span`] does, with the path's extension.
pub fn resolve_block_boundaries(
    entries: &[LineEntry],
    anchor_index: usize,
    path: &str,
    resolver: &dyn BlockResolver,
) -> (r: Result<(Option<String>, usize, usize), HashlineError>)
    requires
        anchor_index < usize::MAX,
    ensures
        exists|span: Option<BlockSpan>, ext: Seq<char>|
            #![trigger span_answer(entries@.len() as int, anchor_index as int, span, ext, r)]
            resolver.answers(
                path@,
                join_seq(entry_contents(entries@), seq!['\n']),
                (anchor_index + 1) as usize,
                span,
            ) && (simple_path(path@) ==> ext == file_extension(path@)) && span_answer(
                entries@.len() as int,
                anchor_index as int,
                span,
                ext,
                r,
            ),
{
    let text = join_contents(entries);
    let request = BlockResolverRequest { path: owned(path), text, line: anchor_index + 1 };
    let span = resolver.resolve(&request);
    let ext = str_extension(path);
    let r = check_block_span(entries.len(), anchor_index, span, ext.as_str());
    let ghost ev = ext@;
    assert(span_answer(entries@.len() as int, anchor_index as int, span, ev, r));
    r
}

} // verus!
