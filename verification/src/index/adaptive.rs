//! Pattern search over a text cut into lines by byte offsets. The pattern
//! is classified (one byte, a literal, alternatives of literals, or a
//! regular expression) and each line is tested in the way that fits; a
//! regular expression is only run on lines that hold its required
//! trigrams.

use vstd::prelude::*;
use vstd::utf8::{encode_utf8, decode_utf8, valid_utf8, encode_utf8_valid_utf8};
use crate::text::{split_seq, lines_view, chars_of, string_of, split_chars, owned, lemma_encode_append};
use crate::apply::strings_view;
use crate::index::trigram::{Trigram, TrigramIndex, tri_key, key_of, tri_before, tri_lines, line_window, windows_ordered, candidates_spec, indexed_count};
use crate::index::bitset::{bit_ones, bits_ones};

verus! {

#[verifier::external_type_specification]
#[verifier::external_body]
pub struct ExRegex(regex::bytes::Regex);

#[verifier::external_type_specification]
#[verifier::external_body]
pub struct ExAhoCorasick(aho_corasick::AhoCorasick);

/// How a pattern is searched for.
#[derive(Debug, Clone)]
pub enum PatternType {
    /// One byte.
    SingleByte(u8),
    /// A literal text.
    Literal(String),
    /// Several literal alternatives (`foo|bar|baz`).
    MultiLiteral(Vec<String>),
    /// A regular expression.
    Regex { case_insensitive: bool },
}

/// A line that matched: its index and its text without line endings.
#[derive(Debug, Clone)]
pub struct SearchResult {
    pub line_idx: usize,
    pub line_text: String,
}

/// The bytes `* + ? . [ ( { ^ $ | \`, which make a pattern a regular
/// expression.
pub open spec fn is_meta_byte(b: u8) -> bool {
    b == 42 || b == 43 || b == 63 || b == 46 || b == 91 || b == 40 || b == 123 || b == 94 || b == 36 || b == 124
        || b == 92
}

/// `b` holds a meta byte.
pub open spec fn has_meta(b: Seq<u8>) -> bool {
    exists|i: int| 0 <= i < b.len() && is_meta_byte(#[trigger] b[i])
}

/// The pattern is alternatives of literals: split at `|` it has at least
/// two pieces, none with a meta byte.
pub open spec fn alts_plain(p: Seq<char>) -> bool {
    let a = split_seq(p, '|');
    a.len() >= 2 && forall|k: int| 0 <= k < a.len() ==> !has_meta(encode_utf8(#[trigger] a[k]))
}

/// The result of a lowercase conversion (`str::to_lowercase`).
pub uninterp spec fn lowercase(s: Seq<char>) -> Seq<char>;

/// Whether a pattern compiles as a regular expression.
pub uninterp spec fn regex_compiles(pattern: Seq<char>) -> bool;

/// Whether a compiled pattern matches somewhere in `hay`.
pub uninterp spec fn regex_matches(pattern: Seq<char>, hay: Seq<u8>) -> bool;

/// Whether a multi-literal searcher can be built for the literals.
pub uninterp spec fn literal_set_builds(lits: Seq<Seq<char>>) -> bool;

/// Calls `str::to_lowercase`.
#[verifier::external_body]
fn lowercase_str(s: &str) -> (r: String)
    ensures
        r@ == lowercase(s@),
{
    s.to_lowercase()
}

/// Calls `std::str::from_utf8`: valid UTF-8 gives the text it encodes,
/// anything else an error.
#[verifier::external_body]
pub(crate) fn utf8_text(b: &[u8]) -> (r: Option<&str>)
    ensures
        r is Some <==> valid_utf8(b@),
        r matches Some(s) ==> s@ == decode_utf8(b@),
{
    std::str::from_utf8(b).ok()
}

/// The word characters of `s` (ASCII letters, digits and `_`), in order.
pub open spec fn is_word(c: char) -> bool {
    ('0' <= c && c <= '9') || ('a' <= c && c <= 'z') || ('A' <= c && c <= 'Z') || c == '_'
}

/// The word characters of `s`, in order.
pub open spec fn word_chars(s: Seq<char>) -> Seq<char>
    decreases s.len(),
{
    if s.len() == 0 {
        Seq::empty()
    } else {
        let w = word_chars(s.drop_last());
        if is_word(s.last()) {
            w.push(s.last())
        } else {
            w
        }
    }
}

/// Calls `regex::escape`, which puts a backslash before each meta
/// character and so leaves the word characters as they were.
#[verifier::external_body]
fn escape_pattern(p: &str) -> (r: String)
    ensures
        word_chars(r@) == word_chars(p@),
{
    regex::escape(p)
}

/// A regular expression with the pattern it was compiled from.
pub struct CompiledRegex {
    pattern: String,
    re: regex::bytes::Regex,
}

impl View for CompiledRegex {
    type V = Seq<char>;

    closed spec fn view(&self) -> Seq<char> {
        self.pattern@
    }
}

/// Calls `regex::bytes::Regex::new`; the result keeps the pattern.
#[verifier::external_body]
fn compile_regex(p: &str) -> (r: Option<CompiledRegex>)
    ensures
        r is Some == regex_compiles(p@),
        r matches Some(c) ==> c@ == p@,
{
    match regex::bytes::Regex::new(p) {
        Ok(re) => Some(CompiledRegex { pattern: p.to_string(), re }),
        Err(_) => None,
    }
}

/// Calls `regex::bytes::Regex::is_match`.
#[verifier::external_body]
fn regex_is_match(c: &CompiledRegex, hay: &[u8]) -> (b: bool)
    ensures
        b == regex_matches(c@, hay@),
{
    c.re.is_match(hay)
}

/// A multi-literal searcher with the literals it was built from.
pub struct LiteralSet {
    lits: Vec<String>,
    ac: aho_corasick::AhoCorasick,
}

impl View for LiteralSet {
    type V = Seq<Seq<char>>;

    closed spec fn view(&self) -> Seq<Seq<char>> {
        strings_view(self.lits@)
    }
}

/// `q` occurs in `h`.
pub open spec fn occurs(q: Seq<u8>, h: Seq<u8>) -> bool {
    exists|j: int| 0 <= j && j + q.len() <= h.len() && #[trigger] h.subrange(j, j + q.len()) == q
}

/// One of the literals `lits` occurs in `h`.
pub open spec fn any_occurs(lits: Seq<Seq<char>>, h: Seq<u8>) -> bool {
    exists|k: int| 0 <= k < lits.len() && occurs(encode_utf8(#[trigger] lits[k]), h)
}

/// Calls `aho_corasick::AhoCorasick::new`; the result keeps the literals.
#[verifier::external_body]
fn build_literal_set(lits: Vec<String>) -> (r: Option<LiteralSet>)
    ensures
        r is Some == literal_set_builds(strings_view(lits@)),
        r matches Some(s) ==> s@ == strings_view(lits@),
{
    match aho_corasick::AhoCorasick::new(&lits) {
        Ok(ac) => Some(LiteralSet { lits, ac }),
        Err(_) => None,
    }
}

/// Calls `aho_corasick::AhoCorasick::find`: with the default (standard)
/// match kind there is a match exactly when some literal occurs.
#[verifier::external_body]
fn literal_set_finds(s: &LiteralSet, hay: &[u8]) -> (b: bool)
    ensures
        b == any_occurs(s@, hay@),
{
    s.ac.find(hay).is_some()
}

/// Whether `b` holds a meta byte.
fn has_meta_bytes(b: &[u8]) -> (r: bool)
    ensures
        r == has_meta(b@),
{
    let mut i: usize = 0;
    while i < b.len()
        invariant
            i <= b@.len(),
            forall|j: int| 0 <= j < i ==> !is_meta_byte(#[trigger] b@[j]),
        decreases b@.len() - i,
    {
        let x = b[i];
        if x == 42 || x == 43 || x == 63 || x == 46 || x == 91 || x == 40 || x == 123 || x == 94 || x == 36 || x
            == 124 || x == 92 {
            assert(is_meta_byte(b@[i as int]));
            return true;
        }
        i = i + 1;
    }
    false
}

/// The pieces of `pattern` at `|` when they are all plain literals and
/// there are at least two.
fn extract_literal_alternatives(pattern: &str) -> (r: Option<Vec<String>>)
    ensures
        match r {
            Some(v) => alts_plain(pattern@) && strings_view(v@) == split_seq(pattern@, '|'),
            None => !alts_plain(pattern@),
        },
{
    let cs = chars_of(pattern);
    let parts = split_chars(cs.as_slice(), '|');
    let ghost a = split_seq(pattern@, '|');
    if parts.len() < 2 {
        return None;
    }
    let mut out: Vec<String> = Vec::new();
    let mut k: usize = 0;
    while k < parts.len()
        invariant
            k <= parts@.len(),
            lines_view(parts@) == a,
            a == split_seq(pattern@, '|'),
            strings_view(out@) == a.take(k as int),
            forall|j: int| 0 <= j < k ==> !has_meta(encode_utf8(#[trigger] a[j])),
        decreases parts@.len() - k,
    {
        let s = string_of(parts[k].as_slice());
        assert(s@ == a[k as int]);
        if has_meta_bytes(s.as_str().as_bytes()) {
            return None;
        }
        let ghost before = out@;
        let ghost sv = s@;
        out.push(s);
        assert(strings_view(out@) =~= strings_view(before).push(sv));
        assert(strings_view(out@) =~= a.take(k + 1));
        k = k + 1;
    }
    assert(a.take(k as int) =~= a);
    Some(out)
}

/// How `classify_pattern` classifies a pattern.
pub open spec fn classified(p: Seq<char>, r: PatternType) -> bool {
    let b = encode_utf8(p);
    if b.len() == 1 {
        r matches PatternType::SingleByte(x) && x == b[0]
    } else if !has_meta(b) {
        r matches PatternType::Literal(s) && s@ == p
    } else if alts_plain(p) {
        r matches PatternType::MultiLiteral(v) && strings_view(v@) == split_seq(p, '|')
    } else {
        r matches PatternType::Regex { case_insensitive } && case_insensitive == (p.len() > 0)
    }
}

/// Classifies a pattern: a single byte, a literal without meta bytes,
/// alternatives of such literals, or else a regular expression (marked
/// case-insensitive when it has a character, since every character equals
/// itself ignoring ASCII case).
pub fn classify_pattern(pattern: &str) -> (r: PatternType)
    ensures
        classified(pattern@, r),
{
    let b = pattern.as_bytes();
    if b.len() == 1 {
        return PatternType::SingleByte(b[0]);
    }
    if !has_meta_bytes(b) {
        return PatternType::Literal(owned(pattern));
    }
    match extract_literal_alternatives(pattern) {
        Some(lits) => {
            return PatternType::MultiLiteral(lits);
        },
        None => {},
    }
    let cs = chars_of(pattern);
    PatternType::Regex { case_insensitive: cs.len() > 0 }
}

/// A trigram: three bytes.
pub type Tri = (u8, u8, u8);

/// The trigram of the word characters `w` starting at `i`.
pub open spec fn tri_at(w: Seq<char>, i: int) -> Tri {
    (w[i] as u8, w[i + 1] as u8, w[i + 2] as u8)
}

/// Every trigram of consecutive characters of `w`.
pub open spec fn all_tris(w: Seq<char>) -> Seq<Tri> {
    Seq::new(if w.len() >= 3 { (w.len() - 2) as nat } else { 0 }, |i: int| tri_at(w, i))
}

/// Trigram order: by the first byte, then the second, then the third.
pub open spec fn tri_lt(a: Tri, b: Tri) -> bool {
    a.0 < b.0 || (a.0 == b.0 && a.1 < b.1) || (a.0 == b.0 && a.1 == b.1 && a.2 < b.2)
}

/// `t` comes after `prev` (anything does when there is none).
pub open spec fn above(prev: Option<Tri>, t: Tri) -> bool {
    match prev {
        None => true,
        Some(p) => tri_lt(p, t),
    }
}

/// The smallest trigram of `ts` after `prev`.
pub open spec fn min_above(ts: Seq<Tri>, prev: Option<Tri>) -> Option<Tri>
    decreases ts.len(),
{
    if ts.len() == 0 {
        None
    } else {
        let rest = min_above(ts.drop_last(), prev);
        let t = ts.last();
        if !above(prev, t) {
            rest
        } else {
            match rest {
                None => Some(t),
                Some(m) => if tri_lt(t, m) {
                    Some(t)
                } else {
                    Some(m)
                },
            }
        }
    }
}

/// The `k` smallest distinct trigrams of `ts` after `prev`, ascending.
pub open spec fn pick_smallest(ts: Seq<Tri>, prev: Option<Tri>, k: nat) -> Seq<Tri>
    decreases k,
{
    if k == 0 {
        Seq::empty()
    } else {
        match min_above(ts, prev) {
            None => Seq::empty(),
            Some(m) => seq![m] + pick_smallest(ts, Some(m), (k - 1) as nat),
        }
    }
}

/// The trigrams a line must hold before a regular expression is tried on
/// it: the (at most) eight smallest distinct trigrams of the pattern's word
/// characters.
pub open spec fn required_trigrams(p: Seq<char>) -> Seq<Tri> {
    pick_smallest(all_tris(word_chars(p)), None, 8)
}

/// `a` comes before `b` in trigram order.
fn tri_less(a: Tri, b: Tri) -> (r: bool)
    ensures
        r == tri_lt(a, b),
{
    a.0 < b.0 || (a.0 == b.0 && a.1 < b.1) || (a.0 == b.0 && a.1 == b.1 && a.2 < b.2)
}

/// The smallest trigram of `ts` after `prev`.
fn min_tri_above(ts: &Vec<Tri>, prev: Option<Tri>) -> (r: Option<Tri>)
    ensures
        r == min_above(ts@, prev),
{
    let mut best: Option<Tri> = None;
    let mut i: usize = 0;
    while i < ts.len()
        invariant
            i <= ts@.len(),
            best == min_above(ts@.take(i as int), prev),
        decreases ts@.len() - i,
    {
        let t = ts[i];
        assert(ts@.take(i + 1).drop_last() =~= ts@.take(i as int));
        let ok = match prev {
            None => true,
            Some(p) => tri_less(p, t),
        };
        if ok {
            best = match best {
                None => Some(t),
                Some(m) => if tri_less(t, m) {
                    Some(t)
                } else {
                    Some(m)
                },
            };
        }
        i = i + 1;
    }
    assert(ts@.take(i as int) =~= ts@);
    best
}

/// The trigrams a line must hold for `pattern` (see [`required_trigrams`]).
fn regex_trigrams(pattern: &str) -> (r: Vec<Tri>)
    ensures
        r@ == required_trigrams(pattern@),
{
    let escaped = escape_pattern(pattern);
    let cs = chars_of(escaped.as_str());
    let mut w: Vec<char> = Vec::new();
    let mut i: usize = 0;
    while i < cs.len()
        invariant
            i <= cs@.len(),
            w@ == word_chars(cs@.take(i as int)),
        decreases cs@.len() - i,
    {
        let c = cs[i];
        assert(cs@.take(i + 1).drop_last() =~= cs@.take(i as int));
        if ('0' <= c && c <= '9') || ('a' <= c && c <= 'z') || ('A' <= c && c <= 'Z') || c == '_' {
            w.push(c);
        }
        i = i + 1;
    }
    assert(cs@.take(i as int) =~= cs@);
    let ghost ws = word_chars(pattern@);
    assert(w@ == ws);
    let mut ts: Vec<Tri> = Vec::new();
    if w.len() >= 3 {
        let mut j: usize = 0;
        while j < w.len() - 2
            invariant
                w@.len() >= 3,
                j <= w@.len() - 2,
                ts@ == all_tris(w@).take(j as int),
            decreases w@.len() - 2 - j,
        {
            let t: Tri = (w[j] as u8, w[j + 1] as u8, w[j + 2] as u8);
            ts.push(t);
            j = j + 1;
            assert(ts@ =~= all_tris(w@).take(j as int));
        }
        assert(all_tris(w@).take(j as int) =~= all_tris(w@));
    } else {
        assert(ts@ =~= all_tris(w@));
    }
    let mut out: Vec<Tri> = Vec::new();
    let mut prev: Option<Tri> = None;
    let mut k: usize = 0;
    while k < 8
        invariant
            k <= 8,
            ts@ == all_tris(ws),
            out@ + pick_smallest(ts@, prev, (8 - k) as nat) == required_trigrams(pattern@),
            required_trigrams(pattern@) == pick_smallest(all_tris(ws), None, 8),
        decreases 8 - k,
    {
        match min_tri_above(&ts, prev) {
            None => {
                assert(out@ + Seq::<Tri>::empty() =~= out@);
                return out;
            },
            Some(m) => {
                let ghost before = out@;
                out.push(m);
                assert(before + pick_smallest(ts@, prev, (8 - k) as nat) =~= out@ + pick_smallest(
                    ts@,
                    Some(m),
                    (8 - k - 1) as nat,
                ));
                prev = Some(m);
            },
        }
        k = k + 1;
    }
    assert(out@ + pick_smallest(ts@, prev, 0) =~= out@);
    out
}

/// Byte offset `x` falls between two characters of `t` (or at an end).
pub open spec fn on_boundary(t: Seq<char>, x: int) -> bool {
    exists|k: int| 0 <= k <= t.len() && #[trigger] encode_utf8(t.take(k)).len() == x
}

/// The number of lines the offsets describe.
pub open spec fn line_count(offs: Seq<usize>) -> int {
    if offs.len() >= 1 {
        offs.len() - 1
    } else {
        0
    }
}

/// Where line `i` ends: at the next offset, cut at `n` bytes.
pub open spec fn win_end(offs: Seq<usize>, i: int, n: int) -> int {
    if offs[i + 1] < n {
        offs[i + 1] as int
    } else {
        n
    }
}

/// Every line range is ordered and starts and ends between characters of
/// `t`.
pub open spec fn offsets_ok(t: Seq<char>, offs: Seq<usize>) -> bool {
    forall|i: int|
        #![trigger offs[i]]
        0 <= i < line_count(offs) ==> {
            let n = encode_utf8(t).len() as int;
            &&& offs[i] <= win_end(offs, i, n)
            &&& on_boundary(t, offs[i] as int)
            &&& on_boundary(t, win_end(offs, i, n))
        }
}

/// The bytes of line `i`.
pub open spec fn line_bytes_of(t: Seq<char>, offs: Seq<usize>, i: int) -> Seq<u8> {
    let b = encode_utf8(t);
    b.subrange(offs[i] as int, win_end(offs, i, b.len() as int))
}

/// `s` without trailing newlines and carriage returns.
pub open spec fn trim_newlines(s: Seq<char>) -> Seq<char>
    decreases s.len(),
{
    if s.len() > 0 && (s.last() == '\n' || s.last() == '\r') {
        trim_newlines(s.drop_last())
    } else {
        s
    }
}

/// The text of line `i` as a result shows it.
pub open spec fn line_text_of(t: Seq<char>, offs: Seq<usize>, i: int) -> Seq<char> {
    trim_newlines(decode_utf8(line_bytes_of(t, offs, i)))
}

/// What a line's bytes are tested for.
pub enum LineTest {
    /// The line holds this byte.
    HasByte(u8),
    /// The bytes occur in the line.
    HasBytes(Seq<u8>),
    /// One of the literals occurs in the line.
    HasAnyOf(Seq<Seq<char>>),
    /// The line holds every trigram and the pattern matches it.
    Regex(Seq<char>, Seq<Tri>),
    /// No line passes.
    Nothing,
}

/// The line holds every trigram of `req`.
pub open spec fn holds_all(req: Seq<Tri>, l: Seq<u8>) -> bool {
    forall|k: int| 0 <= k < req.len() ==> occurs(seq![(#[trigger] req[k]).0, req[k].1, req[k].2], l)
}

/// Whether line bytes `l` pass `test`.
pub open spec fn passes(test: LineTest, l: Seq<u8>) -> bool {
    match test {
        LineTest::HasByte(x) => l.contains(x),
        LineTest::HasBytes(q) => occurs(q, l),
        LineTest::HasAnyOf(lits) => any_occurs(lits, l),
        LineTest::Regex(p, req) => holds_all(req, l) && regex_matches(p, l),
        LineTest::Nothing => false,
    }
}

/// The test a (possibly lowercased) pattern puts lines to.
pub open spec fn test_for(p: Seq<char>) -> LineTest {
    let b = encode_utf8(p);
    if b.len() == 1 {
        LineTest::HasByte(b[0])
    } else if !has_meta(b) {
        if b.len() == 0 {
            LineTest::Nothing
        } else {
            LineTest::HasBytes(b)
        }
    } else if alts_plain(p) {
        if literal_set_builds(split_seq(p, '|')) {
            LineTest::HasAnyOf(split_seq(p, '|'))
        } else {
            LineTest::Nothing
        }
    } else if regex_compiles(p) && required_trigrams(p).len() > 0 {
        LineTest::Regex(p, required_trigrams(p))
    } else {
        LineTest::Nothing
    }
}

/// The first `k` lines that pass `test`, in order, with their text.
pub open spec fn hits(t: Seq<char>, offs: Seq<usize>, test: LineTest, k: int) -> Seq<(int, Seq<char>)>
    decreases k,
{
    if k <= 0 {
        Seq::empty()
    } else {
        let prev = hits(t, offs, test, k - 1);
        if passes(test, line_bytes_of(t, offs, k - 1)) {
            prev.push((k - 1, line_text_of(t, offs, k - 1)))
        } else {
            prev
        }
    }
}

/// What a search finds for pattern `p` in text `t`.
pub open spec fn search_spec(p: Seq<char>, t: Seq<char>, offs: Seq<usize>) -> Seq<(int, Seq<char>)> {
    hits(t, offs, test_for(p), line_count(offs))
}

/// The results as (line index, text) pairs.
pub open spec fn results_view(v: Seq<SearchResult>) -> Seq<(int, Seq<char>)> {
    Seq::new(v.len(), |i: int| (v[i].line_idx as int, v[i].line_text@))
}

/// A line test ready to run.
enum Matcher {
    Byte(u8),
    Bytes(Vec<u8>),
    AnyOf(LiteralSet),
    Re(CompiledRegex, Vec<Tri>),
    Nothing,
}

/// The test a matcher runs.
spec fn test_of(m: &Matcher) -> LineTest {
    match m {
        Matcher::Byte(x) => LineTest::HasByte(*x),
        Matcher::Bytes(q) => LineTest::HasBytes(q@),
        Matcher::AnyOf(s) => LineTest::HasAnyOf(s@),
        Matcher::Re(c, req) => LineTest::Regex(c@, req@),
        Matcher::Nothing => LineTest::Nothing,
    }
}

/// Whether `q` occurs in `h`.
fn bytes_occur(q: &[u8], h: &[u8]) -> (r: bool)
    ensures
        r == occurs(q@, h@),
{
    let n = h.len();
    let m = q.len();
    if m > n {
        return false;
    }
    if m == 0 {
        assert(h@.subrange(0, 0int + q@.len()) =~= q@);
        return true;
    }
    let mut j: usize = 0;
    while j <= n - m
        invariant
            1 <= m <= n,
            n == h@.len(),
            m == q@.len(),
            j <= n - m + 1,
            forall|i: int| 0 <= i < j ==> #[trigger] h@.subrange(i, i + m) != q@,
        decreases n - m + 1 - j,
    {
        let mut k: usize = 0;
        let mut same = true;
        while k < m
            invariant
                k <= m,
                j + m <= n,
                n == h@.len(),
                m == q@.len(),
                same == forall|t: int| 0 <= t < k ==> h@[j + t] == q@[t],
            decreases m - k,
        {
            if h[j + k] != q[k] {
                same = false;
            }
            k = k + 1;
        }
        if same {
            assert(h@.subrange(j as int, j + m) =~= q@);
            return true;
        }
        assert(h@.subrange(j as int, j + m) != q@) by {
            let t = choose|t: int| 0 <= t < m && h@[j + t] != q@[t];
            assert(h@.subrange(j as int, j + m)[t] != q@[t]);
        }
        j = j + 1;
    }
    false
}

/// Whether line bytes `l` pass the matcher's test (a regular expression
/// runs through the trigram index instead, see [`scan_indexed`]).
fn line_passes(m: &Matcher, l: &[u8]) -> (r: bool)
    requires
        !(m is Re),
    ensures
        r == passes(test_of(m), l@),
{
    match m {
        Matcher::Byte(x) => {
            let mut i: usize = 0;
            while i < l.len()
                invariant
                    i <= l@.len(),
                    test_of(m) == LineTest::HasByte(*x),
                    forall|j: int| 0 <= j < i ==> l@[j] != *x,
                decreases l@.len() - i,
            {
                if l[i] == *x {
                    assert(test_of(m) == LineTest::HasByte(*x));
                    assert(l@.contains(*x)) by {
                        assert(l@[i as int] == *x);
                    }
                    return true;
                }
                i = i + 1;
            }
            false
        },
        Matcher::Bytes(q) => bytes_occur(q.as_slice(), l),
        Matcher::AnyOf(s) => literal_set_finds(s, l),
        Matcher::Re(..) => false,
        Matcher::Nothing => false,
    }
}

/// The matcher for a (possibly lowercased) pattern.
fn matcher_for(pattern: &str) -> (m: Matcher)
    ensures
        test_of(&m) == test_for(pattern@),
{
    match classify_pattern(pattern) {
        PatternType::SingleByte(x) => Matcher::Byte(x),
        PatternType::Literal(lit) => {
            let b = lit.as_str().as_bytes();
            if b.len() == 0 {
                return Matcher::Nothing;
            }
            let mut v: Vec<u8> = Vec::new();
            let mut i: usize = 0;
            while i < b.len()
                invariant
                    i <= b@.len(),
                    v@ == b@.take(i as int),
                decreases b@.len() - i,
            {
                v.push(b[i]);
                i = i + 1;
                assert(v@ =~= b@.take(i as int));
            }
            assert(b@.take(i as int) =~= b@);
            Matcher::Bytes(v)
        },
        PatternType::MultiLiteral(lits) => match build_literal_set(lits) {
            Some(s) => Matcher::AnyOf(s),
            None => Matcher::Nothing,
        },
        PatternType::Regex { .. } => match compile_regex(pattern) {
            Some(c) => {
                let req = regex_trigrams(pattern);
                if req.len() == 0 {
                    Matcher::Nothing
                } else {
                    Matcher::Re(c, req)
                }
            },
            None => Matcher::Nothing,
        },
    }
}

/// `t` without trailing newlines and carriage returns.
fn trim_newlines_of(s: &str) -> (r: String)
    ensures
        r@ == trim_newlines(s@),
{
    let cs = chars_of(s);
    let mut k = cs.len();
    assert(cs@.take(k as int) =~= cs@);
    while k > 0 && (cs[k - 1] == '\n' || cs[k - 1] == '\r')
        invariant
            k <= cs@.len(),
            trim_newlines(cs@.take(k as int)) == trim_newlines(s@),
            cs@ == s@,
        decreases k,
    {
        assert(cs@.take(k as int).drop_last() =~= cs@.take(k - 1));
        k = k - 1;
    }
    let mut head: Vec<char> = Vec::new();
    let mut i: usize = 0;
    while i < k
        invariant
            i <= k <= cs@.len(),
            head@ == cs@.take(i as int),
        decreases k - i,
    {
        head.push(cs[i]);
        i = i + 1;
        assert(head@ =~= cs@.take(i as int));
    }
    string_of(head.as_slice())
}

proof fn lemma_encode_grows(t: Seq<char>, a: int, b: int)
    requires
        0 <= a < b <= t.len(),
    ensures
        encode_utf8(t.take(a)).len() < encode_utf8(t.take(b)).len(),
{
    let x = t.take(a);
    let y = t.subrange(a, b);
    lemma_encode_append(x, y);
    assert(x + y =~= t.take(b));
    assert(encode_utf8(y).len() >= 1) by {
        assert(y.len() > 0);
    }
}

/// Bytes between two character boundaries of `t` are the encoding of the
/// characters between them, so they are valid UTF-8.
proof fn lemma_boundary_slice(t: Seq<char>, s: int, e: int)
    requires
        on_boundary(t, s),
        on_boundary(t, e),
        s <= e,
    ensures
        valid_utf8(encode_utf8(t).subrange(s, e)),
{
    let ks = choose|k: int| 0 <= k <= t.len() && #[trigger] encode_utf8(t.take(k)).len() == s;
    let ke = choose|k: int| 0 <= k <= t.len() && #[trigger] encode_utf8(t.take(k)).len() == e;
    if ks > ke {
        lemma_encode_grows(t, ke, ks);
    }
    let mid = t.subrange(ks, ke);
    lemma_encode_append(t.take(ks), mid);
    lemma_encode_append(t.take(ks) + mid, t.skip(ke));
    assert(t.take(ks) + mid =~= t.take(ke));
    assert(t.take(ke) + t.skip(ke) =~= t);
    let b = encode_utf8(t);
    assert(b.subrange(s, e) =~= encode_utf8(mid));
    encode_utf8_valid_utf8(mid);
}

/// Runs the matcher over every line of `text`.
fn scan_lines(m: &Matcher, line_offsets: &[usize], text: &str) -> (r: Vec<SearchResult>)
    requires
        offsets_ok(text@, line_offsets@),
        !(m is Re),
    ensures
        results_view(r@) == hits(text@, line_offsets@, test_of(m), line_count(line_offsets@)),
{
    let bytes = text.as_bytes();
    let mut out: Vec<SearchResult> = Vec::new();
    if line_offsets.len() < 2 {
        assert(results_view(out@) =~= Seq::<(int, Seq<char>)>::empty());
        return out;
    }
    let n = line_offsets.len() - 1;
    let mut i: usize = 0;
    while i < n
        invariant
            i <= n,
            n == line_count(line_offsets@),
            n + 1 == line_offsets@.len(),
            bytes@ == encode_utf8(text@),
            offsets_ok(text@, line_offsets@),
            !(m is Re),
            results_view(out@) == hits(text@, line_offsets@, test_of(m), i as int),
        decreases n - i,
    {
        let s = line_offsets[i];
        let e = if line_offsets[i + 1] < bytes.len() { line_offsets[i + 1] } else { bytes.len() };
        assert(e == win_end(line_offsets@, i as int, bytes@.len() as int));
        assert(s <= e && on_boundary(text@, s as int) && on_boundary(text@, e as int)) by {
            assert(line_offsets@[i as int] == s);
        }
        let lb = &bytes[s..e];
        assert(lb@ == line_bytes_of(text@, line_offsets@, i as int));
        let ghost before = out@;
        if line_passes(m, lb) {
            proof {
                lemma_boundary_slice(text@, s as int, e as int);
            }
            let line = match utf8_text(lb) {
                Some(ls) => trim_newlines_of(ls),
                None => String::new(),
            };
            out.push(SearchResult { line_idx: i, line_text: line });
            assert(results_view(out@) =~= results_view(before).push(
                (i as int, line_text_of(text@, line_offsets@, i as int)),
            ));
        }
        i = i + 1;
    }
    out
}

/// Three bytes occur in a line exactly when the line holds the trigram
/// keyed by them.
proof fn lemma_occurs_tri(l: Seq<u8>, t: Tri)
    ensures
        occurs(seq![t.0, t.1, t.2], l) <==> tri_before(l, tri_key(t.0, t.1, t.2), l.len() as int),
{
    let q = seq![t.0, t.1, t.2];
    if occurs(q, l) {
        let j = choose|j: int| 0 <= j && j + q.len() <= l.len() && #[trigger] l.subrange(j, j + q.len()) == q;
        assert(l.subrange(j, j + 3)[0] == l[j] && l.subrange(j, j + 3)[1] == l[j + 1] && l.subrange(j, j + 3)[2] == l[j + 2]);
        assert(tri_key(l[j], l[j + 1], l[j + 2]) == tri_key(t.0, t.1, t.2));
    }
    if tri_before(l, tri_key(t.0, t.1, t.2), l.len() as int) {
        let x = choose|x: int| 0 <= x < l.len() && x + 3 <= l.len() && #[trigger] tri_key(l[x], l[x + 1], l[x + 2]) == tri_key(t.0, t.1, t.2);
        lemma_tri_key_injective(l[x], l[x + 1], l[x + 2], t.0, t.1, t.2);
        assert(l.subrange(x, x + 3) =~= q);
    }
}

/// Different trigrams have different keys.
proof fn lemma_tri_key_injective(a: u8, b: u8, c: u8, x: u8, y: u8, z: u8)
    requires
        tri_key(a, b, c) == tri_key(x, y, z),
    ensures
        a == x && b == y && c == z,
{
    assert(a as int * 65536 + b as int * 256 + c as int == x as int * 65536 + y as int * 256 + z as int) by {
        assert(0 <= a as int * 65536 + b as int * 256 + c as int <= 0xffffff) by (nonlinear_arith)
            requires a < 256, b < 256, c < 256;
        assert(0 <= x as int * 65536 + y as int * 256 + z as int <= 0xffffff) by (nonlinear_arith)
            requires x < 256, y < 256, z < 256;
    }
    assert(a == x && b == y && c == z) by (nonlinear_arith)
        requires
            a as int * 65536 + b as int * 256 + c as int == x as int * 65536 + y as int * 256 + z as int,
            a < 256, b < 256, c < 256, x < 256, y < 256, z < 256;
}

/// Lines `k1..k2` that do not pass add no hit.
proof fn lemma_hits_skip(t: Seq<char>, offs: Seq<usize>, test: LineTest, k1: int, k2: int)
    requires
        0 <= k1 <= k2,
        forall|k: int| k1 <= k < k2 ==> !passes(test, #[trigger] line_bytes_of(t, offs, k)),
    ensures
        hits(t, offs, test, k2) == hits(t, offs, test, k1),
    decreases k2 - k1,
{
    if k2 > k1 {
        lemma_hits_skip(t, offs, test, k1, k2 - 1);
    }
}

/// The candidates of an index over the lines of `t` for the keys of `req`
/// are the lines that hold every trigram of `req`.
proof fn lemma_candidates_hold_all(
    v: Map<u32, Set<usize>>,
    n: nat,
    keys: Seq<u32>,
    req: Seq<Tri>,
    t: Seq<char>,
    offs: Seq<usize>,
    b: Seq<u8>,
)
    requires
        b == encode_utf8(t),
        n == indexed_count(offs),
        req.len() > 0,
        keys.len() == req.len(),
        forall|j: int| 0 <= j < keys.len() ==> #[trigger] keys[j] == tri_key(req[j].0, req[j].1, req[j].2),
        forall|k: u32| #[trigger] v.contains_key(k) ==> v[k] == tri_lines(b, offs, k),
        forall|k: u32| !(#[trigger] v.contains_key(k)) ==> tri_lines(b, offs, k) == Set::<usize>::empty(),
    ensures
        candidates_spec(v, n, keys) == Set::new(
            |i: usize| i < line_count(offs) && holds_all(req, line_bytes_of(t, offs, i as int)),
        ),
{
    let cset = Set::new(|i: usize| i < line_count(offs) && holds_all(req, line_bytes_of(t, offs, i as int)));
    if forall|j: int| 0 <= j < keys.len() ==> v.contains_key(#[trigger] keys[j]) {
        assert forall|i: usize| #[trigger] candidates_spec(v, n, keys).contains(i) <==> cset.contains(i) by {
            if candidates_spec(v, n, keys).contains(i) {
                assert(v.contains_key(keys[0]));
                assert(v[keys[0]].contains(i));
                assert(tri_lines(b, offs, keys[0]).contains(i));
                assert forall|j: int| 0 <= j < req.len() implies occurs(seq![(#[trigger] req[j]).0, req[j].1, req[j].2], line_bytes_of(t, offs, i as int)) by {
                    assert(v.contains_key(keys[j]));
                    assert(v[keys[j]].contains(i));
                    assert(tri_lines(b, offs, keys[j]).contains(i));
                    lemma_occurs_tri(line_bytes_of(t, offs, i as int), req[j]);
                }
            }
            if cset.contains(i) {
                assert forall|j: int| 0 <= j < keys.len() implies #[trigger] v[keys[j]].contains(i) by {
                    assert(occurs(seq![req[j].0, req[j].1, req[j].2], line_bytes_of(t, offs, i as int)));
                    lemma_occurs_tri(line_bytes_of(t, offs, i as int), req[j]);
                    assert(v.contains_key(keys[j]));
                    assert(tri_lines(b, offs, keys[j]).contains(i));
                }
            }
        }
        assert(candidates_spec(v, n, keys) =~= cset);
    } else {
        let j0 = choose|j: int| 0 <= j < keys.len() && !v.contains_key(#[trigger] keys[j]);
        assert(tri_lines(b, offs, keys[j0]) == Set::<usize>::empty());
        assert forall|i: usize| !#[trigger] cset.contains(i) by {
            if cset.contains(i) {
                assert(occurs(seq![req[j0].0, req[j0].1, req[j0].2], line_bytes_of(t, offs, i as int)));
                lemma_occurs_tri(line_bytes_of(t, offs, i as int), req[j0]);
                assert(tri_lines(b, offs, keys[j0]).contains(i));
            }
        }
        assert(candidates_spec(v, n, keys) =~= cset);
    }
}

/// Between candidates no line passes, so the hits stay as they were.
proof fn lemma_gap_fails(t: Seq<char>, offs: Seq<usize>, p: Seq<char>, req: Seq<Tri>, ones: Seq<usize>, lo: int, hi: int)
    requires
        0 <= lo <= hi <= line_count(offs),
        offs.len() <= usize::MAX,
        ones.to_set() == Set::new(|i: usize| i < line_count(offs) && holds_all(req, line_bytes_of(t, offs, i as int))),
        forall|x: int| 0 <= x < ones.len() ==> !(lo <= #[trigger] ones[x] < hi),
    ensures
        hits(t, offs, LineTest::Regex(p, req), hi) == hits(t, offs, LineTest::Regex(p, req), lo),
{
    assert forall|k: int| lo <= k < hi implies !passes(LineTest::Regex(p, req), #[trigger] line_bytes_of(t, offs, k)) by {
        if holds_all(req, line_bytes_of(t, offs, k)) {
            assert((k as usize) as int == k);
            assert(Set::new(|i: usize| i < line_count(offs) && holds_all(req, line_bytes_of(t, offs, i as int))).contains(k as usize));
            assert(ones.to_set().contains(k as usize));
            let x = choose|x: int| 0 <= x < ones.len() && ones[x] == k as usize;
            assert(!(lo <= ones[x] < hi));
        }
    }
    lemma_hits_skip(t, offs, LineTest::Regex(p, req), lo, hi);
}

/// Tries the regular expression on the lines `ones` (ascending): the lines
/// of the text that hold every required trigram.
#[verifier::spinoff_prover]
#[verifier::rlimit(50)]
fn scan_candidates(c: &CompiledRegex, req: &Vec<Tri>, ones: &Vec<usize>, line_offsets: &[usize], text: &str) -> (r: Vec<SearchResult>)
    requires
        offsets_ok(text@, line_offsets@),
        ones@.to_set() == Set::new(
            |i: usize| i < line_count(line_offsets@) && holds_all(req@, line_bytes_of(text@, line_offsets@, i as int)),
        ),
        forall|x: int, z: int| 0 <= x < z < ones@.len() ==> #[trigger] ones@[x] < #[trigger] ones@[z],
    ensures
        results_view(r@) == hits(text@, line_offsets@, LineTest::Regex(c@, req@), line_count(line_offsets@)),
{
    let ghost t = text@;
    let ghost offs = line_offsets@;
    let ghost test = LineTest::Regex(c@, req@);
    let ghost cset = Set::new(|i: usize| i < line_count(offs) && holds_all(req@, line_bytes_of(t, offs, i as int)));
    let bytes = text.as_bytes();
    let mut out: Vec<SearchResult> = Vec::new();
    let mut y: usize = 0;
    let ghost mut bound: int = 0;
    assert(offs.len() == line_offsets.len());
    while y < ones.len()
        invariant
            y <= ones@.len(),
            offs.len() <= usize::MAX,
            ones@.to_set() == cset,
            forall|x: int, z: int| 0 <= x < z < ones@.len() ==> #[trigger] ones@[x] < #[trigger] ones@[z],
            0 <= bound <= line_count(offs),
            y < ones@.len() ==> bound <= ones@[y as int],
            forall|x: int| y <= x < ones@.len() ==> bound <= #[trigger] ones@[x],
            forall|x: int| 0 <= x < y ==> #[trigger] ones@[x] < bound,
            results_view(out@) == hits(t, offs, test, bound),
            bytes@ == encode_utf8(t),
            offs == line_offsets@,
            offsets_ok(t, offs),
            test == LineTest::Regex(c@, req@),
            cset == Set::new(|i: usize| i < line_count(offs) && holds_all(req@, line_bytes_of(t, offs, i as int))),
        decreases ones@.len() - y,
    {
        let li = ones[y];
        assert(ones@.to_set().contains(li));
        assert(cset.contains(li));
        proof {
            assert forall|x: int| 0 <= x < ones@.len() implies !(bound <= #[trigger] ones@[x] < li) by {
                if x > y {
                    assert(ones@[y as int] < ones@[x]);
                }
            }
            lemma_gap_fails(t, offs, c@, req@, ones@, bound, li as int);
        }
        let s = line_offsets[li];
        let e = if line_offsets[li + 1] < bytes.len() { line_offsets[li + 1] } else { bytes.len() };
        assert(e == win_end(offs, li as int, bytes@.len() as int));
        assert(s <= e && on_boundary(t, s as int) && on_boundary(t, e as int)) by {
            assert(offs[li as int] == s);
        }
        let lb = &bytes[s..e];
        assert(lb@ == line_bytes_of(t, offs, li as int));
        let ghost before = out@;
        if regex_is_match(c, lb) {
            proof {
                lemma_boundary_slice(t, s as int, e as int);
            }
            let line = match utf8_text(lb) {
                Some(ls) => trim_newlines_of(ls),
                None => String::new(),
            };
            out.push(SearchResult { line_idx: li, line_text: line });
            assert(results_view(out@) =~= results_view(before).push((li as int, line_text_of(t, offs, li as int))));
        }
        proof {
            bound = li + 1;
            assert forall|x: int| y + 1 <= x < ones@.len() implies bound <= #[trigger] ones@[x] by {
                assert(ones@[y as int] < ones@[x]);
            }
            assert forall|x: int| 0 <= x < y + 1 implies #[trigger] ones@[x] < bound by {
                if x < y {
                    assert(ones@[x] < ones@[y as int]);
                }
            }
        }
        y = y + 1;
    }
    proof {
        lemma_gap_fails(t, offs, c@, req@, ones@, bound, line_count(offs));
    }
    out
}

/// Runs a regular expression through the trigram index: of the lines that
/// hold every required trigram, in order, those the pattern matches.
fn scan_indexed(c: &CompiledRegex, req: &Vec<Tri>, line_offsets: &[usize], text: &str) -> (r: Vec<SearchResult>)
    requires
        offsets_ok(text@, line_offsets@),
        req@.len() > 0,
    ensures
        results_view(r@) == hits(text@, line_offsets@, LineTest::Regex(c@, req@), line_count(line_offsets@)),
{
    let ghost t = text@;
    let ghost offs = line_offsets@;
    let ghost test = LineTest::Regex(c@, req@);
    let bytes = text.as_bytes();
    let ghost b = bytes@;
    assert(windows_ordered(b, offs)) by {
        assert forall|i: int| #![trigger offs[i]] 0 <= i < line_count(offs) implies offs[i] <= win_end(offs, i, b.len() as int) by {}
    }
    let index = TrigramIndex::build_from_content(text, line_offsets);
    let mut tris: Vec<Trigram> = Vec::new();
    let mut k: usize = 0;
    while k < req.len()
        invariant
            k <= req@.len(),
            tris@.len() == k,
            forall|j: int| 0 <= j < k ==> key_of(#[trigger] tris@[j]) == tri_key(req@[j].0, req@[j].1, req@[j].2),
        decreases req@.len() - k,
    {
        let x = req[k];
        tris.push(Trigram::new(x.0, x.1, x.2));
        k = k + 1;
    }
    let cand = index.candidate_lines(tris.as_slice());
    let ghost keys = tris@.map_values(|tr: Trigram| key_of(tr));
    let ghost cset = Set::new(|i: usize| i < line_count(offs) && holds_all(req@, line_bytes_of(t, offs, i as int)));
    proof {
        assert forall|j: int| 0 <= j < keys.len() implies #[trigger] keys[j] == tri_key(req@[j].0, req@[j].1, req@[j].2) by {}
        lemma_candidates_hold_all(index@, index.lines(), keys, req@, t, offs, b);
        assert(bit_ones(cand) =~= cset);
    }
    let ones = bits_ones(&cand);
    scan_candidates(c, req, &ones, line_offsets, text)
}

/// Searches the lines of `searched` for `pattern` as it is (no case
/// folding): each line whose bytes pass the pattern's test (see
/// [`test_for`]) is reported with its text.
pub fn search_in(pattern: &str, line_offsets: &[usize], searched: &str) -> (r: Vec<SearchResult>)
    requires
        offsets_ok(searched@, line_offsets@),
    ensures
        results_view(r@) == search_spec(pattern@, searched@, line_offsets@),
{
    let m = matcher_for(pattern);
    match &m {
        Matcher::Re(c, req) => scan_indexed(c, req, line_offsets, searched),
        _ => scan_lines(&m, line_offsets, searched),
    }
}

/// The pattern and text a search runs on: lowercased when the search
/// ignores case.
pub open spec fn folded(s: Seq<char>, case_insensitive: bool) -> Seq<char> {
    if case_insensitive {
        lowercase(s)
    } else {
        s
    }
}

/// Searches the lines of `content` (cut at `line_offsets`) for `pattern`,
/// lowercasing both first when `case_insensitive` is set.
pub fn search_adaptive(pattern: &str, case_insensitive: bool, line_offsets: &[usize], content: &str) -> (r: Vec<
    SearchResult,
>)
    requires
        offsets_ok(folded(content@, case_insensitive), line_offsets@),
    ensures
        results_view(r@) == search_spec(
            folded(pattern@, case_insensitive),
            folded(content@, case_insensitive),
            line_offsets@,
        ),
{
    if case_insensitive {
        let p = lowercase_str(pattern);
        let c = lowercase_str(content);
        search_in(p.as_str(), line_offsets, c.as_str())
    } else {
        search_in(pattern, line_offsets, content)
    }
}

/// The number of bytes `c` takes in UTF-8.
fn utf8_width(c: char) -> (w: usize)
    ensures
        w == encode_utf8(seq![c]).len(),
{
    let u = c as u32;
    proof {
        vstd::utf8::char_is_scalar(c);
        assert(encode_utf8(seq![c]) =~= vstd::utf8::encode_scalar(u) + encode_utf8(seq![c].drop_first()));
        assert(encode_utf8(seq![c].drop_first()) =~= Seq::<u8>::empty());
    }
    if u <= 0x7f {
        1
    } else if u <= 0x7ff {
        2
    } else if u <= 0xffff {
        3
    } else {
        4
    }
}

/// For each byte offset of `t` below its length, whether it falls between
/// two characters (the length itself always does).
fn boundary_marks(t: &str) -> (m: Vec<bool>)
    ensures
        m@.len() == encode_utf8(t@).len(),
        forall|x: int| 0 <= x < m@.len() ==> #[trigger] m@[x] == on_boundary(t@, x),
        on_boundary(t@, encode_utf8(t@).len() as int),
{
    let cs = chars_of(t);
    let blen = t.as_bytes().len();
    let mut m: Vec<bool> = Vec::new();
    let mut x: usize = 0;
    while x < blen
        invariant
            x <= blen,
            blen == encode_utf8(t@).len(),
            m@.len() == x,
            forall|y: int| 0 <= y < x ==> !(#[trigger] m@[y]),
        decreases blen - x,
    {
        m.push(false);
        x = x + 1;
    }
    let mut off: usize = 0;
    let mut k: usize = 0;
    assert(encode_utf8(cs@.take(0)) =~= Seq::<u8>::empty());
    while k < cs.len()
        invariant
            k <= cs@.len(),
            cs@ == t@,
            blen == encode_utf8(t@).len(),
            m@.len() == blen,
            off == encode_utf8(t@.take(k as int)).len(),
            off <= blen,
            forall|y: int|
                0 <= y < m@.len() ==> #[trigger] m@[y] == exists|j: int|
                    0 <= j < k && #[trigger] encode_utf8(t@.take(j)).len() == y,
        decreases cs@.len() - k,
    {
        let ghost before = m@;
        proof {
            assert(t@.take(t@.len() as int) =~= t@);
            lemma_encode_grows(t@, k as int, t@.len() as int);
        }
        m.set(off, true);
        let w = utf8_width(cs[k]);
        proof {
            lemma_encode_append(t@.take(k as int), seq![t@[k as int]]);
            assert(t@.take(k as int) + seq![t@[k as int]] =~= t@.take(k + 1));
            if k + 1 < t@.len() {
                lemma_encode_grows(t@, k + 1, t@.len() as int);
            }
            assert forall|y: int| 0 <= y < m@.len() implies #[trigger] m@[y] == exists|j: int|
                0 <= j < k + 1 && #[trigger] encode_utf8(t@.take(j)).len() == y by {
                if y == off {
                    assert(encode_utf8(t@.take(k as int)).len() == y);
                } else {
                    assert(m@[y] == before[y]);
                }
            }
        }
        off = off + w;
        k = k + 1;
    }
    proof {
        assert(t@.take(k as int) =~= t@);
        assert forall|x: int| 0 <= x < m@.len() implies #[trigger] m@[x] == on_boundary(t@, x) by {
            if on_boundary(t@, x) {
                let j = choose|j: int| 0 <= j <= t@.len() && #[trigger] encode_utf8(t@.take(j)).len() == x;
                assert(j != t@.len());
            }
        }
        assert(encode_utf8(t@.take(t@.len() as int)).len() == blen);
    }
    m
}

/// Whether every line range of `offs` is ordered and falls on character
/// boundaries of `t`.
fn offsets_fit(t: &str, offs: &[usize]) -> (r: bool)
    ensures
        r == offsets_ok(t@, offs@),
{
    if offs.len() < 2 {
        return true;
    }
    let marks = boundary_marks(t);
    let blen = t.as_bytes().len();
    let n = offs.len() - 1;
    let mut i: usize = 0;
    while i < n
        invariant
            i <= n,
            n == line_count(offs@),
            n + 1 == offs@.len(),
            blen == encode_utf8(t@).len(),
            marks@.len() == blen,
            forall|x: int| 0 <= x < marks@.len() ==> #[trigger] marks@[x] == on_boundary(t@, x),
            on_boundary(t@, blen as int),
            forall|j: int|
                #![trigger offs@[j]]
                0 <= j < i ==> {
                    &&& offs@[j] <= win_end(offs@, j, blen as int)
                    &&& on_boundary(t@, offs@[j] as int)
                    &&& on_boundary(t@, win_end(offs@, j, blen as int))
                },
        decreases n - i,
    {
        let s = offs[i];
        let e = if offs[i + 1] < blen { offs[i + 1] } else { blen };
        assert(e == win_end(offs@, i as int, blen as int));
        let sb = s == blen || (s < blen && marks[s]);
        let eb = e == blen || marks[e];
        if s > e || !sb || !eb {
            proof {
                if s < blen {
                    assert(marks@[s as int] == on_boundary(t@, s as int));
                }
                if e < blen {
                    assert(marks@[e as int] == on_boundary(t@, e as int));
                }
                if s <= e && s >= blen && s != blen {
                    assert(s > blen);
                }
                assert(!{
                    &&& offs@[i as int] <= win_end(offs@, i as int, blen as int)
                    &&& on_boundary(t@, offs@[i as int] as int)
                    &&& on_boundary(t@, win_end(offs@, i as int, blen as int))
                });
            }
            return false;
        }
        proof {
            if s < blen {
                assert(marks@[s as int] == on_boundary(t@, s as int));
            }
            if e < blen {
                assert(marks@[e as int] == on_boundary(t@, e as int));
            }
        }
        i = i + 1;
    }
    true
}

/// Searches as [`search_adaptive`] does when the offsets fit the (possibly
/// lowercased) text, and gives `None` when they do not.
pub fn search_adaptive_checked(pattern: &str, case_insensitive: bool, line_offsets: &[usize], content: &str) -> (r:
    Option<Vec<SearchResult>>)
    ensures
        r is Some == offsets_ok(folded(content@, case_insensitive), line_offsets@),
        r matches Some(v) ==> results_view(v@) == search_spec(
            folded(pattern@, case_insensitive),
            folded(content@, case_insensitive),
            line_offsets@,
        ),
{
    let text = if case_insensitive {
        lowercase_str(content)
    } else {
        owned(content)
    };
    if !offsets_fit(text.as_str(), line_offsets) {
        return None;
    }
    Some(search_adaptive(pattern, case_insensitive, line_offsets, content))
}

} // verus!
