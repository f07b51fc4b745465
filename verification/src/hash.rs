//! Line hashes. A line's full hash is xxh32 (seed 0) of its UTF-8 bytes with
//! trailing whitespace removed, so anchors survive formatter runs and
//! CRLF/LF changes; its short hash is the low byte, shown as two lowercase
//! hex digits.

use vstd::prelude::*;
use crate::text::{chars_of, string_of, trim_end, trim_end_len, push_char, is_ws};

verus! {

/// A one-byte short hash.
pub type ShortHash = u8;

/// The xxh32 hash of `data` with `seed`.
pub uninterp spec fn xxh32_spec(data: Seq<u8>, seed: u32) -> u32;

/// The xxh3 64-bit hash of `data`.
pub uninterp spec fn xxh3_64_spec(data: Seq<u8>) -> u64;

/// Calls `xxhash_rust::xxh32::xxh32`; its result is named by `xxh32_spec`
/// and depends on the bytes and the seed alone.
#[verifier::external_body]
fn xxh32_call(bytes: &[u8], seed: u32) -> (h: u32)
    ensures
        h == xxh32_spec(bytes@, seed),
{
    xxhash_rust::xxh32::xxh32(bytes, seed)
}

/// Calls `xxhash_rust::xxh3::xxh3_64`; its result is named by `xxh3_64_spec`
/// and depends on the bytes alone.
#[verifier::external_body]
fn xxh3_64_call(bytes: &[u8]) -> (h: u64)
    ensures
        h == xxh3_64_spec(bytes@),
{
    xxhash_rust::xxh3::xxh3_64(bytes)
}

/// The UTF-8 bytes of `s` with trailing whitespace removed.
pub open spec fn hash_input(s: Seq<char>) -> Seq<u8> {
    vstd::utf8::encode_utf8(trim_end(s))
}

/// The full hash of a line.
pub open spec fn full_hash_spec(s: Seq<char>) -> u32 {
    xxh32_spec(hash_input(s), 0)
}

/// The short hash of a line: the low byte of its full hash.
pub open spec fn short_hash_spec(s: Seq<char>) -> u8 {
    (full_hash_spec(s) % 256) as u8
}

/// A lowercase hex digit for `d < 16`.
pub open spec fn hex_char(d: int) -> char {
    if d < 10 {
        ((48 + d) as u32) as char
    } else {
        ((87 + d) as u32) as char
    }
}

/// The two-character lowercase hex rendering of a short hash.
pub open spec fn hex2(b: u8) -> Seq<char> {
    seq![hex_char((b / 16) as int), hex_char((b % 16) as int)]
}

/// The UTF-8 bytes of `s` with trailing whitespace removed.
fn trimmed_bytes(line: &str) -> (b: Vec<u8>)
    ensures
        b@ == hash_input(line@),
{
    let cs = chars_of(line);
    let k = trim_end_len(cs.as_slice());
    let mut head: Vec<char> = Vec::new();
    let mut i: usize = 0;
    while i < k
        invariant
            i <= k <= cs@.len(),
            head@ == cs@.take(i as int),
        decreases k - i,
    {
        head.push(cs[i]);
        i = i + 1;
        assert(head@ =~= cs@.take(i as int));
    }
    let s = string_of(head.as_slice());
    let bytes = s.as_str().as_bytes();
    let mut out: Vec<u8> = Vec::new();
    let mut j: usize = 0;
    while j < bytes.len()
        invariant
            j <= bytes@.len(),
            out@ == bytes@.take(j as int),
        decreases bytes@.len() - j,
    {
        out.push(bytes[j]);
        j = j + 1;
        assert(out@ =~= bytes@.take(j as int));
    }
    assert(bytes@.take(j as int) =~= bytes@);
    out
}

/// xxh32 (seed 0) of `line` with trailing whitespace (and so any CR) removed.
pub fn full_hash(line: &str) -> (h: u32)
    ensures
        h == full_hash_spec(line@),
{
    let b = trimmed_bytes(line);
    full_hash_bytes(b.as_slice())
}

/// xxh32 (seed 0) of raw bytes.
pub fn full_hash_bytes(bytes: &[u8]) -> (h: u32)
    ensures
        h == xxh32_spec(bytes@, 0),
{
    xxh32_call(bytes, 0)
}

/// xxh3 64-bit hash of `line` with trailing whitespace removed.
pub fn full_hash64(line: &str) -> (h: u64)
    ensures
        h == xxh3_64_spec(hash_input(line@)),
{
    let b = trimmed_bytes(line);
    full_hash_bytes64(b.as_slice())
}

/// xxh3 64-bit hash of raw bytes.
pub fn full_hash_bytes64(bytes: &[u8]) -> (h: u64)
    ensures
        h == xxh3_64_spec(bytes@),
{
    xxh3_64_call(bytes)
}

/// The low byte of a full hash.
pub fn short_from_full(full: u32) -> (s: ShortHash)
    ensures
        s == full % 256,
{
    assert(full & 0xff == full % 256 && full & 0xff < 256) by (bit_vector);
    (full & 0xff) as u8
}

/// The short hash of a line.
pub fn short_hash_value(line: &str) -> (s: ShortHash)
    ensures
        s == short_hash_spec(line@),
{
    short_from_full(full_hash(line))
}

/// The short hash of a line as two lowercase hex characters.
pub fn short_hash(line: &str) -> (s: String)
    ensures
        s@ == hex2(short_hash_spec(line@)),
{
    format_short_hash(short_hash_value(line))
}

/// The ASCII byte of the lowercase hex digit `d`.
fn hex_byte(d: u8) -> (b: u8)
    requires
        d < 16,
    ensures
        b as u32 == hex_char(d as int) as u32,
{
    if d < 10 {
        48 + d
    } else {
        87 + d
    }
}

/// Writes the two lowercase hex digits of `short` into `buf`.
pub fn write_short_hash_bytes(buf: &mut [u8; 2], short: ShortHash)
    ensures
        final(buf)@[0] as u32 == hex_char((short / 16) as int) as u32,
        final(buf)@[1] as u32 == hex_char((short % 16) as int) as u32,
        final(buf)@.len() == 2,
{
    buf[0] = hex_byte(short / 16);
    buf[1] = hex_byte(short % 16);
}

/// The two lowercase hex characters of a short hash.
pub fn format_short_hash(short: ShortHash) -> (s: String)
    ensures
        s@ == hex2(short),
{
    let mut buf: [u8; 2] = [0, 0];
    write_short_hash_bytes(&mut buf, short);
    let hi = buf[0] as char;
    let lo = buf[1] as char;
    let mut s = String::new();
    push_char(&mut s, hi);
    push_char(&mut s, lo);
    assert(s@ =~= hex2(short));
    s
}

/// Whether two lines share a short hash.
pub fn collides(a: &str, b: &str) -> (r: bool)
    ensures
        r == (short_hash_spec(a@) == short_hash_spec(b@)),
{
    short_hash_value(a) == short_hash_value(b)
}

proof fn lemma_trim_end_ws_suffix(s: Seq<char>, w: Seq<char>)
    requires
        forall|i: int| 0 <= i < w.len() ==> is_ws(#[trigger] w[i]),
    ensures
        trim_end(s + w) == trim_end(s),
    decreases w.len(),
{
    if w.len() > 0 {
        assert((s + w).drop_last() =~= s + w.drop_last());
        assert((s + w).last() == w[w.len() - 1]);
        lemma_trim_end_ws_suffix(s, w.drop_last());
    } else {
        assert(s + w =~= s);
    }
}

/// Trailing whitespace (spaces, tabs, a CR from CRLF) never changes a line's
/// hash, so anchors survive formatters and newline conversions.
pub proof fn law_trailing_whitespace_ignored(s: Seq<char>, w: Seq<char>)
    requires
        forall|i: int| 0 <= i < w.len() ==> is_ws(#[trigger] w[i]),
    ensures
        full_hash_spec(s + w) == full_hash_spec(s),
        short_hash_spec(s + w) == short_hash_spec(s),
{
    lemma_trim_end_ws_suffix(s, w);
}

} // verus!
