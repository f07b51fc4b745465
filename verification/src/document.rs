//! In-memory file content: the raw text, its LF-normalized form, and the
//! per-line entries (content plus short hash) that anchors resolve against.

use vstd::prelude::*;
use crate::text::{chars_of, split_chars, string_of, split_seq, lines_view, lemma_split_nonempty, join_seq, boxed_str, push_chars, owned};
use crate::hash::{short_hash_value, short_hash_spec};
use crate::normalize::{LineEnding, strip_bom, detect_line_ending, normalize_to_lf, normalize_spec, detect_spec};
use crate::error::HashlineError;

verus! {

#[verifier::external_type_specification]
#[verifier::external_body]
pub struct ExPathBuf(std::path::PathBuf);

pub assume_specification[ <std::path::PathBuf as Clone>::clone ](p: &std::path::PathBuf) -> std::path::PathBuf;

/// Calls `Path::display` and renders it with `to_string`; the rendering
/// (lossy for paths that are not UTF-8) is not described here.
#[verifier::external_body]
pub(crate) fn path_display(p: &std::path::PathBuf) -> String {
    p.display().to_string()
}

/// Line ending style of a file.
#[derive(Clone, Copy, Debug, PartialEq, Eq, Structural)]
pub enum NewlineStyle {
    Lf,
    Crlf,
}

impl NewlineStyle {
    /// The line separator as text.
    pub fn separator(self) -> (s: &'static str)
        ensures
            self == NewlineStyle::Lf ==> s@ == seq!['\n'],
            self == NewlineStyle::Crlf ==> s@ == seq!['\r', '\n'],
    {
        match self {
            NewlineStyle::Lf => {
                proof { reveal_strlit("\n"); }
                "\n"
            },
            NewlineStyle::Crlf => {
                proof { reveal_strlit("\r\n"); }
                "\r\n"
            },
        }
    }

    /// The style of a detected line ending.
    pub fn from_normalize(le: LineEnding) -> (s: NewlineStyle)
        ensures
            le == LineEnding::Lf ==> s == NewlineStyle::Lf,
            le == LineEnding::Crlf ==> s == NewlineStyle::Crlf,
    {
        match le {
            LineEnding::Lf => NewlineStyle::Lf,
            LineEnding::Crlf => NewlineStyle::Crlf,
        }
    }
}

/// One line and its short hash.
#[derive(Clone, Debug, PartialEq, Eq)]
pub struct LineEntry {
    pub content: String,
    pub short_hash: u8,
}

/// The contents of a sequence of entries.
pub open spec fn entry_contents(v: Seq<LineEntry>) -> Seq<Seq<char>> {
    Seq::new(v.len(), |i: int| v[i].content@)
}

/// Every entry carries the short hash of its own content.
pub open spec fn entries_hashed(v: Seq<LineEntry>) -> bool {
    forall|i: int| 0 <= i < v.len() ==> (#[trigger] v[i]).short_hash == short_hash_spec(v[i].content@)
}

/// The lines of LF text: none for empty text, else the pieces between LFs
/// (a trailing LF gives a final empty line).
pub open spec fn text_lines(s: Seq<char>) -> Seq<Seq<char>> {
    if s.len() == 0 {
        Seq::empty()
    } else {
        split_seq(s, '\n')
    }
}

/// The number of LFs in `s`.
pub open spec fn lf_count(s: Seq<char>) -> nat
    decreases s.len(),
{
    if s.len() == 0 {
        0
    } else {
        lf_count(s.drop_last()) + if s.last() == '\n' {
            1nat
        } else {
            0nat
        }
    }
}

proof fn lemma_lf_count_le(s: Seq<char>)
    ensures
        lf_count(s) <= s.len(),
    decreases s.len(),
{
    if s.len() > 0 {
        lemma_lf_count_le(s.drop_last());
    }
}

/// The number of lines of LF text, a trailing LF not starting another line.
pub open spec fn line_count_spec(s: Seq<char>) -> nat {
    if s.len() == 0 {
        0
    } else if s.last() == '\n' {
        lf_count(s)
    } else {
        lf_count(s) + 1
    }
}

/// Lightweight in-memory file content, normalized to LF and BOM-stripped.
#[derive(Clone, Debug, PartialEq, Eq)]
pub struct FileContent {
    pub path: std::path::PathBuf,
    /// Raw text as read from disk (before any normalization).
    pub raw: String,
    /// LF-normalized, BOM-stripped text.
    pub normalized: String,
    /// Detected line ending style from the raw content.
    pub newline: NewlineStyle,
    /// Whether the raw content ends with a newline.
    pub trailing_newline: bool,
    /// Content hash computed over the normalized text.
    pub hash: String,
}

/// The strings of `v` as character lines.
fn strings_of(v: &Vec<Vec<char>>) -> (r: Vec<String>)
    ensures
        r@.len() == v@.len(),
        forall|i: int| 0 <= i < v@.len() ==> (#[trigger] r@[i])@ == v@[i]@,
{
    let mut r: Vec<String> = Vec::new();
    let mut i: usize = 0;
    while i < v.len()
        invariant
            i <= v@.len(),
            r@.len() == i,
            forall|k: int| 0 <= k < i ==> (#[trigger] r@[k])@ == v@[k]@,
        decreases v@.len() - i,
    {
        r.push(string_of(v[i].as_slice()));
        i = i + 1;
    }
    r
}

/// The hashed lines of a text are its lines: what [`FileContent::lines`]
/// and [`FileContent::lines_with_hashes`] return agree in number and, line
/// by line, in content.
pub proof fn law_hashed_lines_are_the_lines(text: Seq<char>, lines: Seq<String>, entries: Seq<LineEntry>)
    requires
        lines.len() == text_lines(text).len(),
        forall|i: int| 0 <= i < lines.len() ==> (#[trigger] lines[i])@ == text_lines(text)[i],
        entry_contents(entries) == text_lines(text),
    ensures
        entries.len() == lines.len(),
        forall|i: int| 0 <= i < entries.len() ==> (#[trigger] entries[i]).content@ == lines[i]@,
{
    assert forall|i: int| 0 <= i < entries.len() implies (#[trigger] entries[i]).content@ == lines[i]@ by {
        assert(entry_contents(entries)[i] == entries[i].content@);
    }
}

impl FileContent {
    /// The lines of the normalized text (split on LF; empty text has none).
    pub fn lines(&self) -> (r: Vec<String>)
        ensures
            r@.len() == text_lines(self.normalized@).len(),
            forall|i: int| 0 <= i < r@.len() ==> (#[trigger] r@[i])@ == text_lines(self.normalized@)[i],
    {
        let cs = chars_of(self.normalized.as_str());
        if cs.len() == 0 {
            return Vec::new();
        }
        let parts = split_chars(cs.as_slice(), '\n');
        let r = strings_of(&parts);
        proof {
            assert forall|i: int| 0 <= i < r@.len() implies (#[trigger] r@[i])@ == text_lines(self.normalized@)[i] by {
                assert(lines_view(parts@)[i] == parts@[i]@);
            }
        }
        r
    }

    /// The lines with their short hashes; text ending in LF yields a final
    /// empty line.
    pub fn lines_with_hashes(&self) -> (r: Vec<LineEntry>)
        ensures
            entry_contents(r@) == text_lines(self.normalized@),
            entries_hashed(r@),
    {
        let lines = self.lines();
        let mut r: Vec<LineEntry> = Vec::new();
        let mut i: usize = 0;
        while i < lines.len()
            invariant
                i <= lines@.len(),
                lines@.len() == text_lines(self.normalized@).len(),
                forall|k: int| 0 <= k < lines@.len() ==> (#[trigger] lines@[k])@ == text_lines(self.normalized@)[k],
                r@.len() == i,
                forall|k: int| 0 <= k < i ==> (#[trigger] r@[k]).content@ == lines@[k]@,
                entries_hashed(r@),
            decreases lines@.len() - i,
        {
            let h = short_hash_value(lines[i].as_str());
            let content = lines[i].clone();
            r.push(LineEntry { content, short_hash: h });
            i = i + 1;
        }
        assert(entry_contents(r@) =~= text_lines(self.normalized@));
        r
    }

    /// The number of lines; a trailing LF does not start another line.
    pub fn len(&self) -> (n: usize)
        ensures
            n == line_count_spec(self.normalized@),
    {
        let cs = chars_of(self.normalized.as_str());
        if cs.len() == 0 {
            return 0;
        }
        let mut count: usize = 0;
        let mut i: usize = 0;
        while i < cs.len()
            invariant
                i <= cs@.len(),
                cs@ == self.normalized@,
                count == lf_count(cs@.take(i as int)),
                count <= i,
            decreases cs@.len() - i,
        {
            proof {
                assert(cs@.take(i + 1).drop_last() =~= cs@.take(i as int));
            }
            if cs[i] == '\n' {
                count = count + 1;
            }
            i = i + 1;
        }
        assert(cs@.take(i as int) =~= cs@);
        if cs[cs.len() - 1] == '\n' {
            count
        } else {
            proof { lemma_lf_count_le(cs@.drop_last()); }
            count + 1
        }
    }

    /// Whether the normalized text is empty.
    pub fn is_empty(&self) -> (b: bool)
        ensures
            b == (self.normalized@.len() == 0),
    {
        self.normalized.as_str().is_empty()
    }
}

/// One line of a document and its short hash.
#[derive(Debug)]
pub struct LineRecord {
    pub content: Box<str>,
    pub short_hash: u8,
}

/// The record's hash is the short hash of its content.
pub open spec fn record_ok(r: LineRecord) -> bool {
    r.short_hash == short_hash_spec(r.content@)
}

/// A record for `content` with its short hash.
pub fn new_line_record(content: &str) -> (r: LineRecord)
    ensures
        r.content@ == content@,
        record_ok(r),
{
    let h = short_hash_value(content);
    LineRecord { content: boxed_str(content), short_hash: h }
}

/// A document as a list of lines plus the line-ending shape it is written
/// with; its path is kept as the text it is shown as.
#[derive(Debug)]
pub struct Document {
    pub path: String,
    pub lines: Vec<LineRecord>,
    pub newline: NewlineStyle,
    pub trailing_newline: bool,
}

/// The lines of LF text as a document holds them: a trailing LF ends the
/// last line rather than starting an empty one.
pub open spec fn doc_lines_spec(n: Seq<char>) -> Seq<Seq<char>> {
    if n.len() == 0 {
        Seq::empty()
    } else if n.last() == '\n' {
        split_seq(n, '\n').drop_last()
    } else {
        split_seq(n, '\n')
    }
}

/// The text of a document with separator `sep`.
pub open spec fn render_spec(lines: Seq<Seq<char>>, sep: Seq<char>, trailing: bool) -> Seq<char> {
    if trailing && lines.len() > 0 {
        join_seq(lines, sep) + sep
    } else {
        join_seq(lines, sep)
    }
}

pub open spec fn sep_chars(n: NewlineStyle) -> Seq<char> {
    match n {
        NewlineStyle::Lf => seq!['\n'],
        NewlineStyle::Crlf => seq!['\r', '\n'],
    }
}

impl Document {
    /// The contents of the lines.
    pub open spec fn contents(&self) -> Seq<Seq<char>> {
        Seq::new(self.lines@.len(), |i: int| self.lines@[i].content@)
    }

    /// Every record carries the short hash of its content.
    pub open spec fn wf(&self) -> bool {
        forall|i: int| 0 <= i < self.lines@.len() ==> record_ok(#[trigger] self.lines@[i])
    }

    /// Reads `text` as a document: strips a BOM, remembers the first line
    /// ending and whether the text ends with one, and splits the LF form
    /// into lines.
    pub fn from_str(path: &str, text: &str) -> (r: Result<Document, HashlineError>)
        ensures
            r matches Ok(d) && d.path@ == path@ && d.wf() && d.contents() == doc_lines_spec(normalize_spec(
                if text@.len() > 0 && text@[0] == '\u{FEFF}' { text@.skip(1) } else { text@ },
            )) && d.trailing_newline == (normalize_spec(
                if text@.len() > 0 && text@[0] == '\u{FEFF}' { text@.skip(1) } else { text@ },
            ).len() > 0 && normalize_spec(
                if text@.len() > 0 && text@[0] == '\u{FEFF}' { text@.skip(1) } else { text@ },
            ).last() == '\n') && (d.newline == NewlineStyle::Crlf <==> detect_spec(
                if text@.len() > 0 && text@[0] == '\u{FEFF}' { text@.skip(1) } else { text@ },
            ) == LineEnding::Crlf),
    {
        let bom = strip_bom(text);
        let newline = NewlineStyle::from_normalize(detect_line_ending(bom.text.as_str()));
        let normalized = normalize_to_lf(bom.text.as_str());
        let cs = chars_of(normalized.as_str());
        let mut lines: Vec<LineRecord> = Vec::new();
        let mut trailing = false;
        if cs.len() > 0 {
            let mut parts = split_chars(cs.as_slice(), '\n');
            proof { lemma_split_nonempty(cs@, '\n'); }
            if cs[cs.len() - 1] == '\n' {
                trailing = true;
                parts.pop();
            }
            let mut i: usize = 0;
            while i < parts.len()
                invariant
                    i <= parts@.len(),
                    lines@.len() == i,
                    forall|k: int| 0 <= k < i ==> (#[trigger] lines@[k]).content@ == parts@[k]@,
                    forall|k: int| 0 <= k < i ==> record_ok(#[trigger] lines@[k]),
                decreases parts@.len() - i,
            {
                let s = string_of(parts[i].as_slice());
                lines.push(new_line_record(s.as_str()));
                i = i + 1;
            }
            proof {
                let d = doc_lines_spec(normalized@);
                assert(lines_view(parts@) =~= d);
                assert(Seq::new(lines@.len(), |k: int| lines@[k].content@) =~= d);
            }
        } else {
            assert(Seq::new(lines@.len(), |k: int| lines@[k].content@) =~= Seq::<Seq<char>>::empty());
        }
        let doc = Document { path: owned(path), lines, newline, trailing_newline: trailing };
        let ghost t = if text@.len() > 0 && text@[0] == '\u{FEFF}' { text@.skip(1) } else { text@ };
        assert(bom.text@ == t);
        assert(normalized@ == normalize_spec(t));
        assert(doc.contents() == doc_lines_spec(normalize_spec(t)));
        assert(doc.wf());
        Ok(doc)
    }

    /// The number of lines.
    pub fn len(&self) -> (n: usize)
        ensures
            n == self.contents().len(),
    {
        self.lines.len()
    }

    /// The document's text as bytes: the lines joined with its separator, and
    /// a final separator when it had a trailing newline and still has lines.
    pub fn render(&self) -> (r: Vec<u8>)
        ensures
            r@ == vstd::utf8::encode_utf8(render_spec(self.contents(), sep_chars(self.newline), self.trailing_newline)),
    {
        let sep = chars_of(self.newline.separator());
        let mut s = String::new();
        let mut i: usize = 0;
        let ghost c = self.contents();
        while i < self.lines.len()
            invariant
                i <= self.lines@.len(),
                c == self.contents(),
                sep@ == sep_chars(self.newline),
                s@ == join_seq(c.take(i as int), sep@),
            decreases self.lines@.len() - i,
        {
            proof {
                assert(c.take(i + 1).drop_last() =~= c.take(i as int));
                assert(c.take(i + 1).last() == self.lines@[i as int].content@);
            }
            if i > 0 {
                push_chars(&mut s, sep.as_slice());
            } else {
                assert(c.take(1) =~= seq![c[0]]);
                assert(c.take(0) =~= Seq::<Seq<char>>::empty());
            }
            let line = chars_of(&*self.lines[i].content);
            push_chars(&mut s, line.as_slice());
            i = i + 1;
        }
        assert(c.take(i as int) =~= c);
        if self.trailing_newline && self.lines.len() > 0 {
            push_chars(&mut s, sep.as_slice());
        }
        let bytes = s.as_str().as_bytes();
        let mut out: Vec<u8> = Vec::new();
        let mut j: usize = 0;
        while j < bytes.len()
            invariant
                j <= bytes@.len(),
                out@ == bytes@.take(j as int),
            decreases bytes@.len() - j,
        {
            out.push(bytes[j]);
            j = j + 1;
            assert(out@ =~= bytes@.take(j as int));
        }
        assert(bytes@.take(j as int) =~= bytes@);
        out
    }
}

/// The byte offset at which line `k` of `c` starts when the lines are
/// written with a separator of `sep` bytes.
pub open spec fn line_byte_start(c: Seq<Seq<char>>, k: int, sep: int) -> int
    decreases k,
{
    if k <= 0 {
        0
    } else {
        line_byte_start(c, k - 1, sep) + vstd::utf8::encode_utf8(c[k - 1]).len() + sep
    }
}

/// The byte length of the document's separator.
pub open spec fn sep_len(n: NewlineStyle) -> int {
    match n {
        NewlineStyle::Lf => 1,
        NewlineStyle::Crlf => 2,
    }
}

proof fn lemma_line_byte_start_grows(c: Seq<Seq<char>>, j: int, k: int, sep: int)
    requires
        0 <= j <= k,
        sep >= 0,
    ensures
        line_byte_start(c, j, sep) <= line_byte_start(c, k, sep),
    decreases k - j,
{
    if j < k {
        lemma_line_byte_start_grows(c, j, k - 1, sep);
    }
}

/// The byte span line `line_index` held in the written file, given its
/// length then: it starts after the earlier lines and their separators.
pub fn original_line_byte_span(doc: &Document, line_index: usize, original_line_len: usize) -> (r: Option<
    (usize, usize),
>)
    requires
        line_index < doc.contents().len() ==> line_byte_start(doc.contents(), line_index as int, sep_len(doc.newline))
            + original_line_len <= usize::MAX,
    ensures
        match r {
            Some((s, e)) => line_index < doc.contents().len() && s == line_byte_start(
                doc.contents(),
                line_index as int,
                sep_len(doc.newline),
            ) && e == s + original_line_len,
            None => line_index >= doc.contents().len(),
        },
{
    if line_index >= doc.lines.len() {
        return None;
    }
    let ghost c = doc.contents();
    let separator_len: usize = match doc.newline {
        NewlineStyle::Lf => 1,
        NewlineStyle::Crlf => 2,
    };
    let mut start: usize = 0;
    let mut i: usize = 0;
    while i < line_index
        invariant
            i <= line_index < c.len(),
            c == doc.contents(),
            separator_len == sep_len(doc.newline),
            start == line_byte_start(c, i as int, separator_len as int),
            line_byte_start(c, line_index as int, separator_len as int) + original_line_len <= usize::MAX,
        decreases line_index - i,
    {
        proof {
            lemma_line_byte_start_grows(c, i + 1, line_index as int, separator_len as int);
        }
        let n = doc.lines[i].content.as_bytes().len();
        assert(n == vstd::utf8::encode_utf8(c[i as int]).len());
        start = start + n + separator_len;
        i = i + 1;
    }
    Some((start, start + original_line_len))
}

} // verus!
