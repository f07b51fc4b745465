//! Anchors: parsing `f1`, `2:f1`, `block 7:` and `2:f1..4:9c`, and
//! resolving an anchor to a line of a file.

use vstd::prelude::*;
use crate::ascii::{
    ascii_lower, all_digits, is_digit, digit_val, parse_usize_spec, find_char_from, has_pair,
    find_pair_from, lower_chars, trim_chars, sub_chars, parse_usize, find_char, find_pair,
    is_digit_char,
};
use crate::ascii::{decimal, push_decimal, has_sub, contains_chars, lemma_decimal_digits, lemma_parse_decimal, lemma_no_pair, lemma_find_char_at, lower_char, digits_value};
use crate::text::{chars_of, string_of, trim, trim_end, trim_start, is_ws, push_str, push_char, boxed_str, owned};
use crate::error::HashlineError;
use crate::document::{FileContent, LineEntry, entry_contents, text_lines, path_display};
use crate::hash::{hex2, hex_char, short_hash_spec, format_short_hash};
use vstd::utf8::{encode_utf8, decode_utf8, is_char_boundary};

verus! {

/// A reference to a line: a bare short hash, a line number with its short
/// hash, or the line a block starts on.
#[derive(Clone, Copy, Debug, PartialEq, Eq, Structural)]
pub enum Anchor {
    Hash { short: u8 },
    LineHash { line: usize, short: u8 },
    BlockAnchor { line: usize },
}

/// Two line-qualified anchors that bound a range of lines.
#[derive(Clone, Copy, Debug, PartialEq, Eq, Structural)]
pub struct RangeAnchor {
    pub start: Anchor,
    pub end: Anchor,
}

/// The line an anchor resolved to.
#[derive(Clone, Debug, PartialEq, Eq)]
pub struct ResolvedLine {
    /// 0-based index.
    pub index: usize,
    /// 1-based line number.
    pub line_no: usize,
    /// The anchor's short hash as two hex digits (empty for a block anchor).
    pub short_hash: String,
}

/// An ASCII hex digit.
pub open spec fn is_hex(c: char) -> bool {
    ||| is_digit(c)
    ||| 97 <= c as u32 <= 102
    ||| 65 <= c as u32 <= 70
}

/// The value of a hex digit.
pub open spec fn hex_val(c: char) -> int {
    if is_digit(c) {
        digit_val(c) as int
    } else if 97 <= c as u32 <= 102 {
        c as u32 - 87
    } else {
        c as u32 - 55
    }
}

/// Two hex digits read as a short hash.
pub open spec fn short_hash_of(t: Seq<char>) -> Option<u8> {
    if t.len() == 2 && is_hex(t[0]) && is_hex(t[1]) {
        Some((hex_val(t[0]) * 16 + hex_val(t[1])) as u8)
    } else {
        None
    }
}

/// A positive decimal line number.
pub open spec fn line_number_of(t: Seq<char>) -> Option<usize> {
    match parse_usize_spec(t) {
        Some(l) => if l > 0 { Some(l) } else { None },
        None => None,
    }
}

/// `block N:` (already lowercased): at least `block ` plus the colon.
pub open spec fn block_form(n: Seq<char>) -> bool {
    &&& n.len() >= 7
    &&& n.take(6) == seq!['b', 'l', 'o', 'c', 'k', ' ']
    &&& n.last() == ':'
}

/// The anchor that `s` denotes, or `None` when it is not an anchor.
/// Case and surrounding whitespace do not matter.
pub open spec fn anchor_spec(s: Seq<char>) -> Option<Anchor> {
    normalized_anchor(ascii_lower(trim(s)))
}

/// Where the range separator starts: the first `..`, else the first `.=`.
pub open spec fn range_sep(n: Seq<char>) -> int {
    if has_pair(n, '.', '.') {
        find_pair_from(n, '.', '.', 0)
    } else {
        find_pair_from(n, '.', '=', 0)
    }
}

/// The range that `s` denotes, or `None`: two line-qualified anchors
/// around one `..` (or `.=`).
pub open spec fn range_spec(s: Seq<char>) -> Option<RangeAnchor> {
    let n = ascii_lower(trim(s));
    let k = range_sep(n);
    if k < 0 {
        None
    } else {
        let left = n.take(k);
        let right = n.skip(k + 2);
        if has_pair(right, '.', '.') || has_pair(right, '.', '=') {
            None
        } else {
            match (anchor_spec(left), anchor_spec(right)) {
                (Some(a), Some(b)) => if a is LineHash && b is LineHash {
                    Some(RangeAnchor { start: a, end: b })
                } else {
                    None
                },
                _ => None,
            }
        }
    }
}

/// Whether `c` is a hex digit.
fn is_hex_char(c: char) -> (r: bool)
    ensures
        r == is_hex(c),
{
    let u = c as u32;
    (48 <= u && u <= 57) || (97 <= u && u <= 102) || (65 <= u && u <= 70)
}

/// The value of hex digit `c`.
fn hex_value(c: char) -> (v: u8)
    requires
        is_hex(c),
    ensures
        v == hex_val(c),
        v < 16,
{
    let u = c as u32;
    if 48 <= u && u <= 57 {
        (u - 48) as u8
    } else if 97 <= u && u <= 102 {
        (u - 87) as u8
    } else {
        (u - 55) as u8
    }
}

/// Two hex digits read as a short hash.
fn parse_short(t: &[char]) -> (r: Option<u8>)
    ensures
        r == short_hash_of(t@),
{
    if t.len() == 2 && is_hex_char(t[0]) && is_hex_char(t[1]) {
        let hi = hex_value(t[0]);
        let lo = hex_value(t[1]);
        Some(hi * 16 + lo)
    } else {
        None
    }
}

/// A positive decimal line number.
fn parse_line(t: &[char]) -> (r: Option<usize>)
    ensures
        r == line_number_of(t@),
{
    match parse_usize(t) {
        Some(l) => if l > 0 { Some(l) } else { None },
        None => None,
    }
}

/// Whether every character of `v` is a decimal digit.
fn all_digit_chars(v: &[char]) -> (r: bool)
    ensures
        r == all_digits(v@),
{
    let mut i: usize = 0;
    while i < v.len()
        invariant
            i <= v@.len(),
            forall|j: int| 0 <= j < i ==> is_digit(#[trigger] v@[j]),
        decreases v@.len() - i,
    {
        if !is_digit_char(v[i]) {
            return false;
        }
        i = i + 1;
    }
    true
}

/// Whether `v` holds `..` or `.=`.
fn has_range_sep(v: &[char]) -> (r: bool)
    ensures
        r == (has_pair(v@, '.', '.') || has_pair(v@, '.', '=')),
{
    find_pair(v, '.', '.').is_some() || find_pair(v, '.', '=').is_some()
}

/// The anchor of lowercased, trimmed text.
fn parse_normalized(n: &[char]) -> (r: Option<Anchor>)
    ensures
        r == normalized_anchor(n@),
{
    let len = n.len();
    if len >= 7 && n[0] == 'b' && n[1] == 'l' && n[2] == 'o' && n[3] == 'c' && n[4] == 'k' && n[5] == ' '
        && n[len - 1] == ':' {
        proof {
            assert(n@.take(6) =~= seq!['b', 'l', 'o', 'c', 'k', ' ']);
        }
        let body = sub_chars(n, 6, len - 1);
        return match parse_line(body.as_slice()) {
            Some(l) => Some(Anchor::BlockAnchor { line: l }),
            None => None,
        };
    }
    proof {
        if len >= 7 && n@.take(6) == seq!['b', 'l', 'o', 'c', 'k', ' '] {
            assert(n@.take(6)[0] == n@[0]);
            assert(n@.take(6)[1] == n@[1]);
            assert(n@.take(6)[2] == n@[2]);
            assert(n@.take(6)[3] == n@[3]);
            assert(n@.take(6)[4] == n@[4]);
            assert(n@.take(6)[5] == n@[5]);
        }
    }
    if has_range_sep(n) {
        return None;
    }
    if all_digit_chars(n) {
        let l = parse_line(n);
        if let Some(line) = l {
            return Some(Anchor::BlockAnchor { line });
        }
    }
    match find_char(n, ':') {
        Some(k) => {
            let head = sub_chars(n, 0, k);
            let tail = sub_chars(n, k + 1, len);
            assert(head@ =~= n@.take(k as int));
            assert(tail@ =~= n@.skip(k + 1));
            match (parse_line(head.as_slice()), parse_short(tail.as_slice())) {
                (Some(l), Some(h)) => Some(Anchor::LineHash { line: l, short: h }),
                _ => None,
            }
        },
        None => match parse_short(n) {
            Some(h) => Some(Anchor::Hash { short: h }),
            None => None,
        },
    }
}

/// The anchor of trimmed, lowercased text.
pub open spec fn normalized_anchor(n: Seq<char>) -> Option<Anchor> {
    if block_form(n) {
        match line_number_of(n.subrange(6, n.len() - 1)) {
            Some(l) => Some(Anchor::BlockAnchor { line: l }),
            None => None,
        }
    } else if has_pair(n, '.', '.') || has_pair(n, '.', '=') {
        None
    } else if all_digits(n) && line_number_of(n) is Some {
        Some(Anchor::BlockAnchor { line: line_number_of(n)->0 })
    } else if find_char_from(n, ':', 0) >= 0 {
        let k = find_char_from(n, ':', 0);
        match (line_number_of(n.take(k)), short_hash_of(n.skip(k + 1))) {
            (Some(l), Some(h)) => Some(Anchor::LineHash { line: l, short: h }),
            _ => None,
        }
    } else {
        match short_hash_of(n) {
            Some(h) => Some(Anchor::Hash { short: h }),
            None => None,
        }
    }
}

/// Parses an anchor: `f1` (a short hash), `2:f1` (line 2 with its short
/// hash), `block 7:` or a bare positive number (the block starting on that
/// line). Case and surrounding whitespace do not matter; a range separator
/// (`..` or `.=`) makes it invalid.
pub fn parse_anchor(s: &str) -> (r: Result<Anchor, HashlineError>)
    ensures
        r is Ok <==> anchor_spec(s@) is Some,
        r matches Ok(a) ==> Some(a) == anchor_spec(s@),
        r matches Err(e) ==> (e matches HashlineError::InvalidAnchor { anchor } && anchor@ == trim(s@)),
{
    let cs = chars_of(s);
    let t = trim_chars(cs.as_slice());
    let n = lower_chars(t.as_slice());
    match parse_normalized(n.as_slice()) {
        Some(a) => Ok(a),
        None => Err(HashlineError::InvalidAnchor { anchor: string_of(t.as_slice()) }),
    }
}

/// Parses `start..end` (or `start.=end`) where both ends are
/// line-qualified anchors.
pub fn parse_range(s: &str) -> (r: Result<RangeAnchor, HashlineError>)
    ensures
        r is Ok <==> range_spec(s@) is Some,
        r matches Ok(a) ==> Some(a) == range_spec(s@),
        r matches Err(e) ==> (e matches HashlineError::InvalidRange { range } && range@ == trim(s@)),
{
    let cs = chars_of(s);
    let t = trim_chars(cs.as_slice());
    let n = lower_chars(t.as_slice());
    let sep = match find_pair(n.as_slice(), '.', '.') {
        Some(k) => Some(k),
        None => find_pair(n.as_slice(), '.', '='),
    };
    let k = match sep {
        Some(k) => k,
        None => {
            return Err(HashlineError::InvalidRange { range: string_of(t.as_slice()) });
        },
    };
    let left = sub_chars(n.as_slice(), 0, k);
    let right = sub_chars(n.as_slice(), k + 2, n.len());
    assert(left@ =~= n@.take(k as int));
    assert(right@ =~= n@.skip(k + 2));
    if has_range_sep(right.as_slice()) {
        return Err(HashlineError::InvalidRange { range: string_of(t.as_slice()) });
    }
    let ls = string_of(left.as_slice());
    let rs = string_of(right.as_slice());
    let start = parse_anchor(ls.as_str());
    let end = parse_anchor(rs.as_str());
    match (start, end) {
        (Ok(a), Ok(b)) => {
            if matches!(a, Anchor::LineHash { .. }) && matches!(b, Anchor::LineHash { .. }) {
                Ok(RangeAnchor { start: a, end: b })
            } else {
                Err(HashlineError::InvalidRange { range: string_of(t.as_slice()) })
            }
        },
        _ => Err(HashlineError::InvalidRange { range: string_of(t.as_slice()) }),
    }
}

/// `..` or `.=` somewhere in `s`.
pub open spec fn has_range_sep_spec(s: Seq<char>) -> bool {
    has_pair(s, '.', '.') || has_pair(s, '.', '=')
}

/// Parses a plain `line:hash` anchor into a 0-based index and its short hash.
pub fn try_parse_line_anchor(anchor: &str) -> (r: Option<(usize, u8)>)
    ensures
        r == (if has_range_sep_spec(trim(anchor@)) {
            None
        } else {
            match anchor_spec(trim(anchor@)) {
                Some(Anchor::LineHash { line, short }) => Some(((line - 1) as usize, short)),
                _ => None,
            }
        }),
{
    let cs = chars_of(anchor);
    let t = trim_chars(cs.as_slice());
    if has_range_sep(t.as_slice()) {
        return None;
    }
    let ts = string_of(t.as_slice());
    match parse_anchor(ts.as_str()) {
        Ok(Anchor::LineHash { line, short }) => {
            proof {
                assert(line > 0);
            }
            Some((line - 1, short))
        },
        _ => None,
    }
}


/// The last character boundary of `b` at or before byte `k`.
pub open spec fn boundary_floor(b: Seq<u8>, k: int) -> int
    decreases k,
{
    if k <= 0 {
        0
    } else if is_char_boundary(b, k) {
        k
    } else {
        boundary_floor(b, k - 1)
    }
}

/// How many bytes of `b` are kept when cutting it to at most `max` bytes
/// at a character boundary.
pub open spec fn truncated_len(b: Seq<u8>, max: int) -> int {
    if b.len() <= max {
        b.len() as int
    } else {
        boundary_floor(b, max)
    }
}

/// `text` cut to at most `max_bytes` bytes, at the last character
/// boundary at or before the limit (never inside a multi-byte character).
pub fn truncate_utf8_safe(text: &str, max_bytes: usize) -> (r: &str)
    ensures
        encode_utf8(r@) == encode_utf8(text@).subrange(0, truncated_len(encode_utf8(text@), max_bytes as int)),
{
    let ghost b = encode_utf8(text@);
    proof {
        vstd::utf8::encode_utf8_valid_utf8(text@);
    }
    let n = text.as_bytes().len();
    if n <= max_bytes {
        assert(b.subrange(0, b.len() as int) =~= b);
        return text;
    }
    let mut end: usize = max_bytes;
    while end > 0 && !text.is_char_boundary(end)
        invariant
            end <= max_bytes,
            b == encode_utf8(text@),
            vstd::utf8::valid_utf8(b),
            boundary_floor(b, max_bytes as int) == boundary_floor(b, end as int),
        decreases end,
    {
        end = end - 1;
    }
    let (head, _tail) = text.split_at(end);
    assert(encode_utf8(head@) =~= b.subrange(0, end as int));
    head
}

/// The short hashes of a run of entries.
pub open spec fn entry_hashes(e: Seq<LineEntry>) -> Seq<u8> {
    Seq::new(e.len(), |i: int| e[i].short_hash)
}

/// The short hashes of lines.
pub open spec fn line_hashes(lines: Seq<Seq<char>>) -> Seq<u8> {
    Seq::new(lines.len(), |i: int| short_hash_spec(lines[i]))
}

/// The indices, in order, whose hash is `short`.
pub open spec fn hash_matches(h: Seq<u8>, short: u8) -> Seq<int>
    decreases h.len(),
{
    if h.len() == 0 {
        Seq::empty()
    } else {
        let m = hash_matches(h.drop_last(), short);
        if h.last() == short {
            m.push(h.len() - 1)
        } else {
            m
        }
    }
}

/// `|a - b|`.
pub open spec fn abs_diff(a: int, b: int) -> int {
    if a >= b {
        a - b
    } else {
        b - a
    }
}

/// The first element of non-empty `m` nearest to `target`.
pub open spec fn closest_match(m: Seq<int>, target: int) -> int
    decreases m.len(),
{
    if m.len() <= 1 {
        m[0]
    } else {
        let c = closest_match(m.drop_last(), target);
        if abs_diff(m.last(), target) < abs_diff(c, target) {
            m.last()
        } else {
            c
        }
    }
}

/// How far a line-qualified anchor may be relocated to its hash.
pub open spec fn relocate_radius() -> int {
    3
}

/// The 0-based line an anchor resolves to among lines with hashes `h`:
/// a bare hash must occur exactly once; a line-qualified anchor takes its
/// line when the hash matches there, else the one line with that hash, else
/// the nearest such line within the relocation radius; a block anchor
/// takes its line when it exists.
pub open spec fn resolve_index(a: Anchor, h: Seq<u8>) -> Option<int> {
    match a {
        Anchor::Hash { short } => {
            let m = hash_matches(h, short);
            if m.len() == 1 {
                Some(m[0])
            } else {
                None
            }
        },
        Anchor::LineHash { line, short } => {
            if line == 0 || line > h.len() {
                None
            } else if h[line - 1] == short {
                Some(line - 1)
            } else {
                let m = hash_matches(h, short);
                if m.len() == 1 {
                    Some(m[0])
                } else if m.len() > 1 && abs_diff(closest_match(m, line - 1), line - 1) <= relocate_radius() {
                    Some(closest_match(m, line - 1))
                } else {
                    None
                }
            }
        },
        Anchor::BlockAnchor { line } => {
            if 1 <= line <= h.len() {
                Some(line - 1)
            } else {
                None
            }
        },
    }
}

/// The anchor's short hash as resolved lines report it.
pub open spec fn anchor_hash_text(a: Anchor) -> Seq<char> {
    match a {
        Anchor::Hash { short } => hex2(short),
        Anchor::LineHash { short, .. } => hex2(short),
        Anchor::BlockAnchor { .. } => Seq::empty(),
    }
}

/// Line numbers (1-based) of 0-based indices `m`, joined with `, `.
pub open spec fn join_numbers(m: Seq<int>) -> Seq<char>
    decreases m.len(),
{
    if m.len() == 0 {
        Seq::empty()
    } else if m.len() == 1 {
        decimal((m[0] + 1) as nat)
    } else {
        join_numbers(m.drop_last()) + seq![',', ' '] + decimal((m.last() + 1) as nat)
    }
}

/// A line as the stale-anchor context shows it: lines over 80 bytes are
/// cut at a character boundary and end in an ellipsis.
pub open spec fn display_content(c: Seq<char>) -> Seq<char> {
    let b = encode_utf8(c);
    if b.len() > 80 {
        decode_utf8(b.subrange(0, truncated_len(b, 80))) + seq!['\u{2026}']
    } else {
        c
    }
}

/// One line of stale-anchor context; the anchored line is marked `>>>`.
pub open spec fn context_line(c: Seq<Seq<char>>, h: Seq<u8>, i: int, idx: int) -> Seq<char> {
    (if i == idx { seq!['>', '>', '>', ' '] } else { seq![' ', ' ', ' ', ' '] }) + decimal((i + 1) as nat)
        + seq![':'] + hex2(h[i]) + seq!['|'] + display_content(c[i]) + seq!['\n']
}

/// Context lines `lo..hi`.
pub open spec fn context_lines(c: Seq<Seq<char>>, h: Seq<u8>, lo: int, hi: int, idx: int) -> Seq<char>
    decreases hi - lo,
{
    if hi <= lo {
        Seq::empty()
    } else {
        context_lines(c, h, lo, hi - 1, idx) + context_line(c, h, hi - 1, idx)
    }
}

/// The text a stale anchor carries: two lines of context on each side of
/// the anchored line, then where the hash was found instead.
pub open spec fn stale_context(c: Seq<Seq<char>>, h: Seq<u8>, line: int, short: u8) -> Seq<char> {
    let idx = line - 1;
    let lo = if idx >= 2 { idx - 2 } else { 0 };
    let hi = if idx + 2 < h.len() - 1 { idx + 2 } else { h.len() - 1 };
    seq!['\n'] + context_lines(c, h, lo, hi + 1, idx) + "(hash "@ + hex2(short) + " found at line(s) "@
        + join_numbers(hash_matches(h, short)) + ", not line "@ + decimal(line as nat) + ")\n"@
}

/// The error a failed resolution reports, given the lines `c` and their
/// hashes `h`.
pub open spec fn resolve_error(a: Anchor, c: Seq<Seq<char>>, h: Seq<u8>, err: HashlineError) -> bool {
    match a {
        Anchor::Hash { short } => {
            let m = hash_matches(h, short);
            if m.len() == 0 {
                (err matches HashlineError::HashNotFound { hash, .. } && hash@ == hex2(short))
            } else {
                (err matches HashlineError::AmbiguousHash { hash, count, lines, .. } && hash@ == hex2(short)
                    && count == m.len() && lines@ == join_numbers(m))
            }
        },
        Anchor::LineHash { line, short } => {
            if line == 0 || line > h.len() {
                (err matches HashlineError::InvalidAnchor { anchor } && anchor@ == decimal(line as nat)
                    + seq![':'] + hex2(short))
            } else if hash_matches(h, short).len() == 0 {
                (err matches HashlineError::HashNotFound { hash, .. } && hash@ == hex2(short))
            } else {
                (err matches HashlineError::StaleAnchor { anchor, line: l, expected, actual, relocated_suffix, .. }
                    && anchor@ == decimal(line as nat) + seq![':'] + hex2(short) && l == line
                    && expected@ == hex2(short) && actual@ == hex2(h[line - 1])
                    && relocated_suffix@ == stale_context(c, h, line as int, short))
            }
        },
        Anchor::BlockAnchor { line } => {
            (err matches HashlineError::InvalidAnchor { anchor } && anchor@ == "block "@ + decimal(line as nat)
                + seq![':'])
        },
    }
}

/// The indices of `v` (as integers).
pub open spec fn idx_view(v: Seq<usize>) -> Seq<int> {
    Seq::new(v.len(), |i: int| v[i] as int)
}

/// The indices of entries whose hash is `short`.
fn matching_indices(entries: &[LineEntry], short: u8) -> (m: Vec<usize>)
    ensures
        idx_view(m@) == hash_matches(entry_hashes(entries@), short),
        forall|i: int| 0 <= i < m@.len() ==> m@[i] < entries@.len(),
{
    let ghost h = entry_hashes(entries@);
    let mut m: Vec<usize> = Vec::new();
    let mut i: usize = 0;
    while i < entries.len()
        invariant
            i <= entries@.len(),
            h == entry_hashes(entries@),
            idx_view(m@) == hash_matches(h.take(i as int), short),
            forall|k: int| 0 <= k < m@.len() ==> m@[k] < i,
        decreases entries@.len() - i,
    {
        proof {
            assert(h.take(i + 1).drop_last() =~= h.take(i as int));
        }
        if entries[i].short_hash == short {
            m.push(i);
            assert(idx_view(m@) =~= hash_matches(h.take(i + 1), short));
        } else {
            assert(idx_view(m@) =~= hash_matches(h.take(i + 1), short));
        }
        i = i + 1;
    }
    assert(h.take(i as int) =~= h);
    m
}

/// `|a - b|`.
fn usize_diff(a: usize, b: usize) -> (d: usize)
    ensures
        d == abs_diff(a as int, b as int),
{
    if a >= b {
        a - b
    } else {
        b - a
    }
}

/// The first element of non-empty `m` nearest to `target`.
fn closest(m: &Vec<usize>, target: usize) -> (c: usize)
    requires
        m@.len() > 0,
    ensures
        c == closest_match(idx_view(m@), target as int),
{
    let ghost v = idx_view(m@);
    let mut best = m[0];
    let mut i: usize = 1;
    proof {
        assert(v.take(1).len() == 1);
    }
    while i < m.len()
        invariant
            1 <= i <= m@.len(),
            v == idx_view(m@),
            best == closest_match(v.take(i as int), target as int),
        decreases m@.len() - i,
    {
        proof {
            assert(v.take(i + 1).drop_last() =~= v.take(i as int));
        }
        if usize_diff(m[i], target) < usize_diff(best, target) {
            best = m[i];
        }
        i = i + 1;
    }
    assert(v.take(i as int) =~= v);
    best
}

/// Appends the 1-based line numbers of `m`, joined with `, `.
fn push_numbers(s: &mut String, m: &Vec<usize>)
    requires
        forall|i: int| 0 <= i < m@.len() ==> m@[i] < usize::MAX,
    ensures
        final(s)@ == old(s)@ + join_numbers(idx_view(m@)),
{
    let ghost v = idx_view(m@);
    let ghost s0 = s@;
    let mut i: usize = 0;
    while i < m.len()
        invariant
            i <= m@.len(),
            v == idx_view(m@),
            forall|k: int| 0 <= k < m@.len() ==> m@[k] < usize::MAX,
            s@ == s0 + join_numbers(v.take(i as int)),
        decreases m@.len() - i,
    {
        proof {
            assert(v.take(i + 1).drop_last() =~= v.take(i as int));
        }
        if i > 0 {
            push_str(s, ", ");
            proof { reveal_strlit(", "); }
        } else {
            assert(v.take(0) =~= Seq::<int>::empty());
        }
        push_decimal(s, m[i] + 1);
        i = i + 1;
        assert(s@ =~= s0 + join_numbers(v.take(i as int)));
    }
    assert(v.take(i as int) =~= v);
}


/// Appends a line as the stale-anchor context shows it.
fn push_display(s: &mut String, content: &str)
    ensures
        final(s)@ == old(s)@ + display_content(content@),
{
    let n = content.as_bytes().len();
    if n > 80 {
        let t = truncate_utf8_safe(content, 80);
        proof {
            vstd::utf8::encode_utf8_decode_utf8(t@);
        }
        push_str(s, t);
        push_char(s, '\u{2026}');
        assert(s@ =~= old(s)@ + display_content(content@));
    } else {
        push_str(s, content);
    }
}

/// Appends one line of stale-anchor context.
fn push_context_line(s: &mut String, entries: &[LineEntry], i: usize, idx: usize)
    requires
        i < entries@.len(),
    ensures
        final(s)@ == old(s)@ + context_line(entry_contents(entries@), entry_hashes(entries@), i as int, idx as int),
{
    let _n = entries.len();
    if i == idx {
        push_str(s, ">>> ");
        proof { reveal_strlit(">>> "); }
    } else {
        push_str(s, "    ");
        proof { reveal_strlit("    "); }
    }
    push_decimal(s, i + 1);
    push_char(s, ':');
    let hs = format_short_hash(entries[i].short_hash);
    push_str(s, hs.as_str());
    push_char(s, '|');
    push_display(s, entries[i].content.as_str());
    push_char(s, '\n');
    assert(s@ =~= old(s)@ + context_line(entry_contents(entries@), entry_hashes(entries@), i as int, idx as int));
}

/// The stale-anchor context for `line` (see [`stale_context`]).
fn stale_context_text(entries: &[LineEntry], line: usize, short: u8, m: &Vec<usize>) -> (s: String)
    requires
        1 <= line <= entries@.len(),
        idx_view(m@) == hash_matches(entry_hashes(entries@), short),
        forall|i: int| 0 <= i < m@.len() ==> m@[i] < entries@.len(),
    ensures
        s@ == stale_context(entry_contents(entries@), entry_hashes(entries@), line as int, short),
{
    let ghost c = entry_contents(entries@);
    let ghost h = entry_hashes(entries@);
    let idx = line - 1;
    let lo = if idx >= 2 { idx - 2 } else { 0 };
    let last = entries.len() - 1;
    let hi = if last - idx > 2 { idx + 2 } else { last };
    let mut s = String::new();
    push_char(&mut s, '\n');
    let mut i: usize = lo;
    let n = entries.len();
    while i <= hi
        invariant
            n == entries@.len(),
            lo <= i <= hi + 1,
            hi < entries@.len(),
            idx < entries@.len(),
            c == entry_contents(entries@),
            h == entry_hashes(entries@),
            s@ == seq!['\n'] + context_lines(c, h, lo as int, i as int, idx as int),
        decreases hi + 1 - i,
    {
        push_context_line(&mut s, entries, i, idx);
        i = i + 1;
    }
    push_str(&mut s, "(hash ");
    let rendered = format_short_hash(short);
    push_str(&mut s, rendered.as_str());
    push_str(&mut s, " found at line(s) ");
    push_numbers(&mut s, m);
    push_str(&mut s, ", not line ");
    push_decimal(&mut s, line);
    push_str(&mut s, ")\n");
    assert(s@ =~= stale_context(c, h, line as int, short));
    s
}

/// How an anchor resolved: the line that [`resolve_index`] names, its
/// 1-based number, and the anchor's hash text.
pub open spec fn resolved_as(a: Anchor, h: Seq<u8>, x: ResolvedLine) -> bool {
    &&& resolve_index(a, h) == Some(x.index as int)
    &&& x.line_no == x.index + 1
    &&& x.short_hash@ == anchor_hash_text(a)
}

fn resolve_unqualified(short: u8, entries: &[LineEntry], path: String) -> (r: Result<ResolvedLine, HashlineError>)
    ensures
        r is Ok <==> resolve_index(Anchor::Hash { short }, entry_hashes(entries@)) is Some,
        r matches Ok(x) ==> resolved_as(Anchor::Hash { short }, entry_hashes(entries@), x),
        r matches Err(e) ==> resolve_error(Anchor::Hash { short }, entry_contents(entries@), entry_hashes(entries@), e),
{
    let rendered = format_short_hash(short);
    let _n = entries.len();
    let m = matching_indices(entries, short);
    if m.len() == 0 {
        Err(HashlineError::HashNotFound { hash: rendered, path })
    } else if m.len() == 1 {
        Ok(ResolvedLine { index: m[0], line_no: m[0] + 1, short_hash: rendered })
    } else {
        let mut lines = String::new();
        push_numbers(&mut lines, &m);
        Err(HashlineError::AmbiguousHash { hash: rendered, count: m.len(), lines, path })
    }
}

fn resolve_qualified(line: usize, short: u8, entries: &[LineEntry], path: String) -> (r: Result<ResolvedLine, HashlineError>)
    ensures
        r is Ok <==> resolve_index(Anchor::LineHash { line, short }, entry_hashes(entries@)) is Some,
        r matches Ok(x) ==> resolved_as(Anchor::LineHash { line, short }, entry_hashes(entries@), x),
        r matches Err(e) ==> resolve_error(
            Anchor::LineHash { line, short },
            entry_contents(entries@),
            entry_hashes(entries@),
            e,
        ),
{
    let ghost h = entry_hashes(entries@);
    let rendered = format_short_hash(short);
    if line == 0 || line > entries.len() {
        let mut a = String::new();
        push_decimal(&mut a, line);
        push_char(&mut a, ':');
        push_str(&mut a, rendered.as_str());
        assert(a@ =~= decimal(line as nat) + seq![':'] + hex2(short));
        return Err(HashlineError::InvalidAnchor { anchor: a });
    }
    let idx = line - 1;
    if entries[idx].short_hash == short {
        return Ok(ResolvedLine { index: idx, line_no: line, short_hash: rendered });
    }
    let m = matching_indices(entries, short);
    if m.len() == 1 {
        return Ok(ResolvedLine { index: m[0], line_no: m[0] + 1, short_hash: rendered });
    }
    if m.len() > 1 {
        let c = closest(&m, idx);
        if usize_diff(c, idx) <= 3 {
            proof {
                lemma_closest_in(idx_view(m@), idx as int);
            }
            return Ok(ResolvedLine { index: c, line_no: c + 1, short_hash: rendered });
        }
    }
    if m.len() == 0 {
        return Err(HashlineError::HashNotFound { hash: rendered, path });
    }
    let context = stale_context_text(entries, line, short, &m);
    let mut a = String::new();
    push_decimal(&mut a, line);
    push_char(&mut a, ':');
    push_str(&mut a, rendered.as_str());
    assert(a@ =~= decimal(line as nat) + seq![':'] + hex2(short));
    let actual = format_short_hash(entries[idx].short_hash);
    Err(HashlineError::StaleAnchor {
        anchor: boxed_str(a.as_str()),
        line,
        expected: boxed_str(rendered.as_str()),
        actual: boxed_str(actual.as_str()),
        path: boxed_str(path.as_str()),
        relocated_suffix: boxed_str(context.as_str()),
    })
}

proof fn lemma_closest_in(m: Seq<int>, target: int)
    requires
        m.len() > 0,
    ensures
        m.contains(closest_match(m, target)),
    decreases m.len(),
{
    if m.len() > 1 {
        lemma_closest_in(m.drop_last(), target);
        let c = closest_match(m.drop_last(), target);
        let k = choose|k: int| 0 <= k < m.drop_last().len() && m.drop_last()[k] == c;
        assert(m[k] == c);
        assert(m[m.len() - 1] == m.last());
    } else {
        assert(m[0] == closest_match(m, target));
    }
}

fn resolve_block_anchor(line: usize, entries: &[LineEntry]) -> (r: Result<ResolvedLine, HashlineError>)
    ensures
        r is Ok <==> resolve_index(Anchor::BlockAnchor { line }, entry_hashes(entries@)) is Some,
        r matches Ok(x) ==> resolved_as(Anchor::BlockAnchor { line }, entry_hashes(entries@), x),
        r matches Err(e) ==> resolve_error(
            Anchor::BlockAnchor { line },
            entry_contents(entries@),
            entry_hashes(entries@),
            e,
        ),
{
    if line == 0 || line > entries.len() {
        let mut a = String::new();
        push_str(&mut a, "block ");
        push_decimal(&mut a, line);
        push_char(&mut a, ':');
        assert(a@ =~= "block "@ + decimal(line as nat) + seq![':']);
        return Err(HashlineError::InvalidAnchor { anchor: a });
    }
    let empty = String::new();
    Ok(ResolvedLine { index: line - 1, line_no: line, short_hash: empty })
}

/// Resolves an anchor against lines already paired with their hashes.
pub fn resolve_with_entries(anchor: &Anchor, entries: &[LineEntry], fc: &FileContent) -> (r: Result<ResolvedLine, HashlineError>)
    ensures
        r is Ok <==> resolve_index(*anchor, entry_hashes(entries@)) is Some,
        r matches Ok(x) ==> resolved_as(*anchor, entry_hashes(entries@), x),
        r matches Err(e) ==> resolve_error(*anchor, entry_contents(entries@), entry_hashes(entries@), e),
{
    resolve_entries(anchor, entries, path_display(&fc.path))
}

/// Resolves an anchor against entries; `path` is what errors report.
pub(crate) fn resolve_entries(anchor: &Anchor, entries: &[LineEntry], path: String) -> (r: Result<ResolvedLine, HashlineError>)
    ensures
        r is Ok <==> resolve_index(*anchor, entry_hashes(entries@)) is Some,
        r matches Ok(x) ==> resolved_as(*anchor, entry_hashes(entries@), x),
        r matches Err(e) ==> resolve_error(*anchor, entry_contents(entries@), entry_hashes(entries@), e),
{
    match *anchor {
        Anchor::Hash { short } => resolve_unqualified(short, entries, path),
        Anchor::LineHash { line, short } => resolve_qualified(line, short, entries, path),
        Anchor::BlockAnchor { line } => resolve_block_anchor(line, entries),
    }
}

/// Resolves an anchor against the lines of `fc`.
pub fn resolve(anchor: &Anchor, fc: &FileContent) -> (r: Result<ResolvedLine, HashlineError>)
    ensures
        r is Ok <==> resolve_index(*anchor, line_hashes(text_lines(fc.normalized@))) is Some,
        r matches Ok(x) ==> resolved_as(*anchor, line_hashes(text_lines(fc.normalized@)), x),
        r matches Err(e) ==> resolve_error(
            *anchor,
            text_lines(fc.normalized@),
            line_hashes(text_lines(fc.normalized@)),
            e,
        ),
{
    let entries = fc.lines_with_hashes();
    proof {
        assert(entry_hashes(entries@) =~= line_hashes(text_lines(fc.normalized@)));
    }
    resolve_with_entries(anchor, entries.as_slice(), fc)
}


/// The 0-based indices, in order, of the lines that contain `q`.
pub open spec fn query_matches(c: Seq<Seq<char>>, q: Seq<char>) -> Seq<int>
    decreases c.len(),
{
    if c.len() == 0 {
        Seq::empty()
    } else {
        let m = query_matches(c.drop_last(), q);
        if has_sub(c.last(), q) {
            m.push(c.len() - 1)
        } else {
            m
        }
    }
}

/// The 1-based line of the one line of `c` that contains `q`, if exactly
/// one does.
pub open spec fn query_line(c: Seq<Seq<char>>, q: Seq<char>) -> Option<int> {
    let m = query_matches(c, q);
    if m.len() == 1 {
        Some(m[0] + 1)
    } else {
        None
    }
}

/// The error a query that does not name exactly one line reports.
pub open spec fn query_error(c: Seq<Seq<char>>, q: Seq<char>, e: HashlineError) -> bool {
    let m = query_matches(c, q);
    if m.len() == 0 {
        (e matches HashlineError::QueryNotFound { query, .. } && query@ == q)
    } else {
        (e matches HashlineError::AmbiguousQuery { query, count, lines, .. } && query@ == q
            && count == m.len() && lines@ == join_numbers(m))
    }
}

/// The indices of the entries whose content contains `q`.
fn query_indices(entries: &[LineEntry], q: &[char]) -> (m: Vec<usize>)
    ensures
        idx_view(m@) == query_matches(entry_contents(entries@), q@),
        forall|i: int| 0 <= i < m@.len() ==> m@[i] < entries@.len(),
{
    let ghost c = entry_contents(entries@);
    let mut m: Vec<usize> = Vec::new();
    let mut i: usize = 0;
    while i < entries.len()
        invariant
            i <= entries@.len(),
            c == entry_contents(entries@),
            idx_view(m@) == query_matches(c.take(i as int), q@),
            forall|k: int| 0 <= k < m@.len() ==> m@[k] < i,
        decreases entries@.len() - i,
    {
        proof {
            assert(c.take(i + 1).drop_last() =~= c.take(i as int));
        }
        let line = chars_of(entries[i].content.as_str());
        if contains_chars(line.as_slice(), q) {
            m.push(i);
        }
        assert(idx_view(m@) =~= query_matches(c.take(i + 1), q@));
        i = i + 1;
    }
    assert(c.take(i as int) =~= c);
    m
}

/// The 1-based number of the one line of `fc` that contains `query`.
pub fn find_line_by_query(fc: &FileContent, query: &str) -> (r: Result<usize, HashlineError>)
    ensures
        r is Ok <==> query_line(text_lines(fc.normalized@), query@) is Some,
        r matches Ok(l) ==> Some(l as int) == query_line(text_lines(fc.normalized@), query@),
        r matches Err(e) ==> query_error(text_lines(fc.normalized@), query@, e),
{
    let path = path_display(&fc.path);
    let entries = fc.lines_with_hashes();
    let _n = entries.len();
    let q = chars_of(query);
    let m = query_indices(entries.as_slice(), q.as_slice());
    if m.len() == 0 {
        Err(HashlineError::QueryNotFound { query: owned(query), path })
    } else if m.len() == 1 {
        Ok(m[0] + 1)
    } else {
        let mut lines = String::new();
        push_numbers(&mut lines, &m);
        Err(HashlineError::AmbiguousQuery { query: owned(query), count: m.len(), lines, path })
    }
}

/// The error for a query region whose start comes after its end.
pub open spec fn region_order_error(start: int, end: int, e: HashlineError) -> bool {
    e matches HashlineError::InvalidRange { range } && range@ == "query start (line "@ + decimal(start as nat)
        + ") after query end (line "@ + decimal(end as nat) + ")"@
}

/// The 1-based lines `(start, end)` named by a start query and an optional
/// end query (the start line when absent), or `None` without a start query.
pub fn resolve_query_region(fc: &FileContent, start_query: Option<&str>, end_query: Option<&str>) -> (r: Result<Option<(usize, usize)>, HashlineError>)
    ensures
        start_query is None ==> r matches Ok(None),
        start_query matches Some(sq) ==> {
            let c = text_lines(fc.normalized@);
            let s = query_line(c, sq@);
            let e = match end_query {
                Some(eq) => query_line(c, eq@),
                None => s,
            };
            &&& s is None ==> (r matches Err(err) && query_error(c, sq@, err))
            &&& s is Some && e is None ==> (end_query matches Some(eq) && r matches Err(err) && query_error(
                c,
                eq@,
                err,
            ))
            &&& s is Some && e is Some && s->0 > e->0 ==> (r matches Err(err) && region_order_error(
                s->0,
                e->0,
                err,
            ))
            &&& s is Some && e is Some && s->0 <= e->0 ==> r == Ok::<Option<(usize, usize)>, HashlineError>(
                Some((s->0 as usize, e->0 as usize)),
            )
        },
{
    let sq = match start_query {
        None => {
            return Ok(None);
        },
        Some(q) => q,
    };
    let start_line = find_line_by_query(fc, sq)?;
    let end_line = match end_query {
        Some(q) => find_line_by_query(fc, q)?,
        None => start_line,
    };
    if start_line > end_line {
        let mut range = String::new();
        push_str(&mut range, "query start (line ");
        push_decimal(&mut range, start_line);
        push_str(&mut range, ") after query end (line ");
        push_decimal(&mut range, end_line);
        push_str(&mut range, ")");
        assert(range@ =~= "query start (line "@ + decimal(start_line as nat) + ") after query end (line "@
            + decimal(end_line as nat) + ")"@);
        return Err(HashlineError::InvalidRange { range });
    }
    Ok(Some((start_line, end_line)))
}


proof fn lemma_hex_char(d: int)
    requires
        0 <= d < 16,
    ensures
        is_hex(hex_char(d)),
        hex_val(hex_char(d)) == d,
        lower_char(hex_char(d)) == hex_char(d),
        !is_ws(hex_char(d)),
        hex_char(d) != ':',
        hex_char(d) != '.',
{
}

/// The rendering of a line-qualified anchor, `line:hh`.
pub open spec fn render_line_anchor(line: usize, short: u8) -> Seq<char> {
    decimal(line as nat) + seq![':'] + hex2(short)
}

/// Parsing the rendering of a line-qualified anchor gives it back: what
/// `read` prints is what `parse_anchor` accepts.
pub proof fn law_line_anchor_round_trip(line: usize, short: u8)
    requires
        line > 0,
    ensures
        anchor_spec(render_line_anchor(line, short)) == Some(Anchor::LineHash { line, short }),
{
    let d = decimal(line as nat);
    let hx = hex2(short);
    let s = render_line_anchor(line, short);
    lemma_decimal_digits(line as nat);
    lemma_parse_decimal(line);
    lemma_hex_char((short / 16) as int);
    lemma_hex_char((short % 16) as int);
    let k = d.len() as int;
    assert(s.len() == k + 3);
    assert(s[k] == ':');
    assert(s[k + 1] == hx[0]);
    assert(s[k + 2] == hx[1]);
    assert forall|j: int| 0 <= j < k implies s[j] == d[j] && is_digit(#[trigger] s[j]) by {
        assert(is_digit(d[j]));
    }
    // no surrounding whitespace
    assert(!is_ws(s.last()));
    assert(trim_end(s) == s);
    assert(!is_ws(s[0])) by {
        assert(is_digit(s[0]));
    }
    assert(trim_start(s) == s);
    assert(trim(s) == s);
    // already lowercase
    assert(ascii_lower(s) =~= s) by {
        assert forall|j: int| 0 <= j < s.len() implies lower_char(s[j]) == s[j] by {
            if j < k {
                assert(is_digit(s[j]));
            }
        }
    }
    let n = ascii_lower(trim(s));
    assert(n == s);
    // not `block N:`
    assert(!block_form(n)) by {
        if block_form(n) {
            assert(n.take(6)[0] == n[0]);
            assert(is_digit(n[0]));
        }
    }
    // no range separator
    assert(!n.contains('.')) by {
        if n.contains('.') {
            let j = choose|j: int| 0 <= j < n.len() && n[j] == '.';
            if j < k {
                assert(is_digit(n[j]));
            }
        }
    }
    lemma_no_pair(n, '.', '.', 0);
    lemma_no_pair(n, '.', '=', 0);
    // not all digits
    assert(!all_digits(n)) by {
        assert(n[k] == ':');
    }
    // the colon is the first one
    lemma_find_char_at(n, ':', k);
    assert(n.take(k) =~= d);
    assert(n.skip(k + 1) =~= hx);
    assert(short_hash_of(hx) == Some(short)) by {
        assert((short / 16) * 16 + short % 16 == short);
    }
}

/// `s` with every ASCII small letter capitalised.
pub open spec fn ascii_upper(s: Seq<char>) -> Seq<char> {
    Seq::new(s.len(), |i: int| if 97 <= s[i] as u32 <= 122 { ((s[i] as u32) - 32) as char } else { s[i] })
}

/// Lowercasing keeps whitespace whitespace and other characters not.
proof fn lemma_lower_keeps_ws(c: char)
    ensures
        is_ws(lower_char(c)) == is_ws(c),
{
    if 65 <= c as u32 <= 90 {
        assert(((c as u32) + 32) as char as u32 == (c as u32) + 32);
    }
}

/// Lowercasing commutes with trimming the end.
proof fn lemma_lower_trim_end(s: Seq<char>)
    ensures
        ascii_lower(trim_end(s)) == trim_end(ascii_lower(s)),
    decreases s.len(),
{
    if s.len() > 0 {
        lemma_lower_keeps_ws(s.last());
        assert(ascii_lower(s).last() == lower_char(s.last()));
        assert(ascii_lower(s).drop_last() =~= ascii_lower(s.drop_last()));
        lemma_lower_trim_end(s.drop_last());
    } else {
        assert(ascii_lower(s) =~= s);
    }
}

/// Lowercasing commutes with trimming the start.
proof fn lemma_lower_trim_start(s: Seq<char>)
    ensures
        ascii_lower(trim_start(s)) == trim_start(ascii_lower(s)),
    decreases s.len(),
{
    if s.len() > 0 {
        lemma_lower_keeps_ws(s[0]);
        assert(ascii_lower(s)[0] == lower_char(s[0]));
        assert(ascii_lower(s).drop_first() =~= ascii_lower(s.drop_first()));
        lemma_lower_trim_start(s.drop_first());
    } else {
        assert(ascii_lower(s) =~= s);
    }
}

/// Case does not matter: two texts that agree once their ASCII letters are
/// lowercased parse to the same anchor.
pub proof fn law_anchor_ignores_case(s: Seq<char>, t: Seq<char>)
    requires
        ascii_lower(s) == ascii_lower(t),
    ensures
        anchor_spec(s) == anchor_spec(t),
{
    lemma_lower_trim_end(s);
    lemma_lower_trim_start(trim_end(s));
    lemma_lower_trim_end(t);
    lemma_lower_trim_start(trim_end(t));
}

/// The capitalised rendering of a line-qualified anchor parses as the
/// rendering does.
pub proof fn law_upper_line_anchor_round_trip(line: usize, short: u8)
    requires
        line > 0,
    ensures
        anchor_spec(ascii_upper(render_line_anchor(line, short))) == Some(Anchor::LineHash { line, short }),
{
    let s = render_line_anchor(line, short);
    let u = ascii_upper(s);
    assert(ascii_lower(u) =~= ascii_lower(s)) by {
        assert forall|i: int| 0 <= i < s.len() implies lower_char(u[i]) == lower_char(s[i]) by {
            if 97 <= s[i] as u32 <= 122 {
                assert(((s[i] as u32) - 32) as char as u32 == (s[i] as u32) - 32);
            }
        }
    }
    law_anchor_ignores_case(u, s);
    law_line_anchor_round_trip(line, short);
}

/// The matches of `short` in `h` are exactly the indices holding it.
proof fn lemma_hash_matches_exact(h: Seq<u8>, short: u8)
    ensures
        forall|k: int| 0 <= k < hash_matches(h, short).len() ==> 0 <= #[trigger] hash_matches(h, short)[k] < h.len()
            && h[hash_matches(h, short)[k]] == short,
        forall|j: int| 0 <= j < h.len() && h[j] == short ==> #[trigger] hash_matches(h, short).contains(j),
    decreases h.len(),
{
    if h.len() > 0 {
        let d = h.drop_last();
        lemma_hash_matches_exact(d, short);
        let m = hash_matches(d, short);
        let mm = hash_matches(h, short);
        assert forall|k: int| 0 <= k < mm.len() implies 0 <= #[trigger] mm[k] < h.len() && h[mm[k]] == short by {
            if k < m.len() {
                assert(mm[k] == m[k]);
                assert(h[m[k]] == d[m[k]]);
            }
        }
        assert forall|j: int| 0 <= j < h.len() && h[j] == short implies #[trigger] mm.contains(j) by {
            if j < h.len() - 1 {
                assert(d[j] == short);
                assert(m.contains(j));
                let k = choose|k: int| 0 <= k < m.len() && m[k] == j;
                assert(mm[k] == m[k]);
            } else {
                assert(mm[mm.len() - 1] == j);
            }
        }
    }
}

/// The nearest match is one of the matches, and none is nearer.
proof fn lemma_closest_match_nearest(m: Seq<int>, target: int)
    requires
        m.len() > 0,
    ensures
        m.contains(closest_match(m, target)),
        forall|k: int| 0 <= k < m.len() ==> abs_diff(closest_match(m, target), target) <= abs_diff(#[trigger] m[k], target),
    decreases m.len(),
{
    if m.len() == 1 {
        assert(m[0] == closest_match(m, target));
    } else {
        let d = m.drop_last();
        lemma_closest_match_nearest(d, target);
        let c = closest_match(d, target);
        let k0 = choose|k: int| 0 <= k < d.len() && d[k] == c;
        assert(m[k0] == c);
        assert(m[m.len() - 1] == m.last());
        assert forall|k: int| 0 <= k < m.len() implies abs_diff(closest_match(m, target), target) <= abs_diff(#[trigger] m[k], target) by {
            if k < m.len() - 1 {
                assert(m[k] == d[k]);
            }
        }
    }
}

/// The matches of a hash come in increasing order.
proof fn lemma_hash_matches_sorted(h: Seq<u8>, short: u8)
    ensures
        forall|a: int, b: int|
            0 <= a < b < hash_matches(h, short).len() ==> #[trigger] hash_matches(h, short)[a] < #[trigger] hash_matches(
                h,
                short,
            )[b],
    decreases h.len(),
{
    if h.len() > 0 {
        let d = h.drop_last();
        lemma_hash_matches_sorted(d, short);
        lemma_hash_matches_exact(d, short);
        let m = hash_matches(d, short);
        let mm = hash_matches(h, short);
        assert forall|a: int, b: int| 0 <= a < b < mm.len() implies #[trigger] mm[a] < #[trigger] mm[b] by {
            assert(mm[a] == m[a]);
            if b < m.len() {
                assert(mm[b] == m[b]);
            }
        }
    }
}

/// Among matches in increasing order, the nearest one chosen is the first
/// of those equally near.
proof fn lemma_closest_match_first(m: Seq<int>, target: int)
    requires
        m.len() > 0,
        forall|a: int, b: int| 0 <= a < b < m.len() ==> #[trigger] m[a] < #[trigger] m[b],
    ensures
        forall|k: int|
            0 <= k < m.len() && abs_diff(#[trigger] m[k], target) == abs_diff(closest_match(m, target), target)
                ==> closest_match(m, target) <= m[k],
    decreases m.len(),
{
    if m.len() > 1 {
        let d = m.drop_last();
        assert forall|a: int, b: int| 0 <= a < b < d.len() implies #[trigger] d[a] < #[trigger] d[b] by {
            assert(d[a] == m[a] && d[b] == m[b]);
        }
        lemma_closest_match_first(d, target);
        lemma_closest_match_nearest(d, target);
        let c = closest_match(d, target);
        let k0 = choose|k: int| 0 <= k < d.len() && d[k] == c;
        assert(m[k0] == c);
        assert(m[m.len() - 1] == m.last());
        assert(c < m.last());
        assert forall|k: int|
            0 <= k < m.len() && abs_diff(#[trigger] m[k], target) == abs_diff(closest_match(m, target), target)
                implies closest_match(m, target) <= m[k] by {
            if k < m.len() - 1 {
                assert(m[k] == d[k]);
            }
        }
    }
}

/// A line-qualified anchor resolves to a line holding its hash. Its own
/// line wins when it still holds the hash; else the one line holding it;
/// else, among several, one no farther from the anchored line than any
/// other, the first of those equally near, and only within the relocation
/// radius of three lines. It fails only when no line holds the hash, or
/// when several do and all lie beyond that radius.
pub proof fn law_line_anchor_resolves_to_nearest_match(line: usize, short: u8, h: Seq<u8>)
    ensures
        resolve_index(Anchor::LineHash { line, short }, h) matches Some(i) ==> {
            &&& 0 <= i < h.len()
            &&& h[i] == short
            &&& forall|j: int| 0 <= j < h.len() && h[j] == short ==> abs_diff(i, line - 1) <= abs_diff(j, line - 1)
            &&& forall|j: int|
                0 <= j < h.len() && h[j] == short && abs_diff(j, line - 1) == abs_diff(i, line - 1) ==> i <= j
            &&& abs_diff(i, line - 1) <= 3 || forall|j: int| 0 <= j < h.len() && h[j] == short ==> j == i
        },
        1 <= line <= h.len() && resolve_index(Anchor::LineHash { line, short }, h) is None ==> forall|j: int|
            0 <= j < h.len() && h[j] == short ==> {
                &&& abs_diff(j, line - 1) > 3
                &&& exists|j2: int| 0 <= j2 < h.len() && h[j2] == short && j2 != j
            },
{
    lemma_hash_matches_exact(h, short);
    lemma_hash_matches_sorted(h, short);
    let m = hash_matches(h, short);
    if let Some(i) = resolve_index(Anchor::LineHash { line, short }, h) {
        if h[line - 1] == short {
        } else if m.len() == 1 {
            assert(m.contains(m[0]));
            assert forall|j: int| 0 <= j < h.len() && h[j] == short implies j == i by {
                assert(m.contains(j));
                let k = choose|k: int| 0 <= k < m.len() && m[k] == j;
                assert(k == 0);
            }
        } else {
            lemma_closest_match_nearest(m, line - 1);
            lemma_closest_match_first(m, line - 1);
            let c = closest_match(m, line - 1);
            let k0 = choose|k: int| 0 <= k < m.len() && m[k] == c;
            assert forall|j: int| 0 <= j < h.len() && h[j] == short implies abs_diff(i, line - 1) <= abs_diff(
                j,
                line - 1,
            ) && (abs_diff(j, line - 1) == abs_diff(i, line - 1) ==> i <= j) by {
                assert(m.contains(j));
                let k = choose|k: int| 0 <= k < m.len() && m[k] == j;
            }
        }
    } else if 1 <= line <= h.len() {
        assert forall|j: int| 0 <= j < h.len() && h[j] == short implies {
            &&& abs_diff(j, line - 1) > 3
            &&& exists|j2: int| 0 <= j2 < h.len() && h[j2] == short && j2 != j
        } by {
            assert(m.contains(j));
            let k = choose|k: int| 0 <= k < m.len() && m[k] == j;
            lemma_closest_match_nearest(m, line - 1);
            assert(m.len() > 1);
            let k2 = if k == 0 { 1int } else { 0int };
            assert(m.contains(m[k2]));
            assert(m[k2] != j);
        }
    }
}

/// A line-qualified anchor taken from the current lines resolves to its
/// own line.
pub proof fn law_fresh_anchor_resolves(h: Seq<u8>, index: int)
    requires
        0 <= index < h.len(),
        index + 1 <= usize::MAX,
    ensures
        resolve_index(Anchor::LineHash { line: (index + 1) as usize, short: h[index] }, h) == Some(index),
{
}


proof fn lemma_hash_matches_range(h: Seq<u8>, short: u8)
    ensures
        forall|k: int| 0 <= k < hash_matches(h, short).len() ==> 0 <= #[trigger] hash_matches(h, short)[k] < h.len(),
    decreases h.len(),
{
    if h.len() > 0 {
        lemma_hash_matches_range(h.drop_last(), short);
        let m = hash_matches(h.drop_last(), short);
        assert forall|k: int| 0 <= k < hash_matches(h, short).len() implies 0 <= #[trigger] hash_matches(
            h,
            short,
        )[k] < h.len() by {
            if k < m.len() {
                assert(hash_matches(h, short)[k] == m[k]);
            }
        }
    }
}

/// A resolved anchor names a line that exists.
pub proof fn lemma_resolve_in_range(a: Anchor, h: Seq<u8>)
    ensures
        resolve_index(a, h) matches Some(i) ==> 0 <= i < h.len(),
{
    match a {
        Anchor::Hash { short } => {
            lemma_hash_matches_range(h, short);
        },
        Anchor::LineHash { line, short } => {
            lemma_hash_matches_range(h, short);
            let m = hash_matches(h, short);
            if m.len() > 1 {
                lemma_closest_in(m, line - 1);
            }
        },
        Anchor::BlockAnchor { .. } => {},
    }
}

} // verus!
