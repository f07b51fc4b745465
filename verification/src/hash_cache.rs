//! The hash sidecar: a small binary record kept next to a file that stores
//! the file's size, modification time, content hash and the short hash of
//! every line, so that unchanged files need not be hashed again.
//!
//! Layout: the magic `LHH3`, a version byte, then little-endian `mtime`
//! (8 bytes), `size` (8), `content_hash` (8), the line count (4), and one
//! byte per line.

use vstd::prelude::*;

verus! {

/// The cached hashes of a file.
pub struct HashSidecar {
    pub mtime_secs: u64,
    pub size: u64,
    pub content_hash: u64,
    pub short_hashes: Vec<u8>,
}

/// Why a sidecar's bytes were refused.
#[derive(Debug, Clone, Copy, PartialEq, Eq, Structural)]
pub enum SidecarError {
    /// Too short for the header, or the magic is wrong.
    Invalid,
    /// The header promises more line hashes than there are.
    Truncated,
}

impl SidecarError {
    /// The message the error carries.
    pub fn message(&self) -> (s: &'static str)
        ensures
            s@ == sidecar_message(*self),
    {
        match self {
            SidecarError::Invalid => "invalid hash sidecar",
            SidecarError::Truncated => "truncated hash sidecar",
        }
    }
}

/// The message of each sidecar error.
pub open spec fn sidecar_message(e: SidecarError) -> Seq<char> {
    match e {
        SidecarError::Invalid => "invalid hash sidecar"@,
        SidecarError::Truncated => "truncated hash sidecar"@,
    }
}

/// The magic that starts every sidecar.
pub open spec fn magic() -> Seq<u8> {
    seq![76u8, 72u8, 72u8, 51u8]
}

/// The bytes of the header before the line hashes.
pub open spec fn header_len() -> int {
    33
}

/// `x` as eight little-endian bytes.
pub open spec fn le64(x: u64) -> Seq<u8> {
    seq![
        (x & 0xff) as u8,
        ((x >> 8u64) & 0xff) as u8,
        ((x >> 16u64) & 0xff) as u8,
        ((x >> 24u64) & 0xff) as u8,
        ((x >> 32u64) & 0xff) as u8,
        ((x >> 40u64) & 0xff) as u8,
        ((x >> 48u64) & 0xff) as u8,
        ((x >> 56u64) & 0xff) as u8,
    ]
}

/// `x` as four little-endian bytes.
pub open spec fn le32(x: u32) -> Seq<u8> {
    seq![(x & 0xff) as u8, ((x >> 8u32) & 0xff) as u8, ((x >> 16u32) & 0xff) as u8, ((x >> 24u32) & 0xff) as u8]
}

/// The `u64` whose little-endian bytes are `b[0..8]`.
pub open spec fn from_le64(b: Seq<u8>) -> u64 {
    (b[0] as u64) | ((b[1] as u64) << 8u64) | ((b[2] as u64) << 16u64) | ((b[3] as u64) << 24u64) | ((b[4] as u64)
        << 32u64) | ((b[5] as u64) << 40u64) | ((b[6] as u64) << 48u64) | ((b[7] as u64) << 56u64)
}

/// The `u32` whose little-endian bytes are `b[0..4]`.
pub open spec fn from_le32(b: Seq<u8>) -> u32 {
    (b[0] as u32) | ((b[1] as u32) << 8u32) | ((b[2] as u32) << 16u32) | ((b[3] as u32) << 24u32)
}

/// The bytes written for a sidecar (the line count is stored modulo
/// 2^32).
pub open spec fn encode_spec(mtime: u64, size: u64, content_hash: u64, hashes: Seq<u8>) -> Seq<u8> {
    magic() + seq![1u8] + le64(mtime) + le64(size) + le64(content_hash) + le32((hashes.len() % 0x1_0000_0000) as u32)
        + hashes
}

/// What reading bytes gives: the fields and the line hashes, or why the
/// bytes were refused.
pub open spec fn decode_spec(b: Seq<u8>) -> Result<(u64, u64, u64, Seq<u8>), SidecarError> {
    if b.len() < header_len() || b.subrange(0, 4) != magic() {
        Err(SidecarError::Invalid)
    } else {
        let n = from_le32(b.subrange(29, 33)) as int;
        if b.len() < header_len() + n {
            Err(SidecarError::Truncated)
        } else {
            Ok((from_le64(b.subrange(5, 13)), from_le64(b.subrange(13, 21)), from_le64(b.subrange(21, 29)), b.subrange(33, 33 + n)))
        }
    }
}

/// Appends the little-endian bytes of `x`.
fn push_le64(buf: &mut Vec<u8>, x: u64)
    ensures
        final(buf)@ == old(buf)@ + le64(x),
{
    let mut k: u64 = 0;
    while k < 8
        invariant
            k <= 8,
            buf@ == old(buf)@ + le64(x).take(k as int),
        decreases 8 - k,
    {
        let b = ((x >> (8 * k)) & 0xff) as u8;
        assert(b == le64(x)[k as int]) by {
            assert(k == 0 || k == 1 || k == 2 || k == 3 || k == 4 || k == 5 || k == 6 || k == 7);
            if k == 0 {
                assert(x >> 0u64 == x) by (bit_vector);
            }
        }
        buf.push(b);
        k = k + 1;
        assert(buf@ =~= old(buf)@ + le64(x).take(k as int));
    }
    assert(le64(x).take(8) =~= le64(x));
}

/// Appends the little-endian bytes of `x`.
fn push_le32(buf: &mut Vec<u8>, x: u32)
    ensures
        final(buf)@ == old(buf)@ + le32(x),
{
    let mut k: u32 = 0;
    while k < 4
        invariant
            k <= 4,
            buf@ == old(buf)@ + le32(x).take(k as int),
        decreases 4 - k,
    {
        let b = ((x >> (8 * k)) & 0xff) as u8;
        assert(b == le32(x)[k as int]) by {
            assert(k == 0 || k == 1 || k == 2 || k == 3);
            if k == 0 {
                assert(x >> 0u32 == x) by (bit_vector);
            }
        }
        buf.push(b);
        k = k + 1;
        assert(buf@ =~= old(buf)@ + le32(x).take(k as int));
    }
    assert(le32(x).take(4) =~= le32(x));
}

/// The `u64` stored little-endian at `b[off..off + 8]`.
fn read_le64(b: &[u8], off: usize) -> (x: u64)
    requires
        off + 8 <= b@.len(),
    ensures
        x == from_le64(b@.subrange(off as int, off + 8)),
{
    (b[off] as u64) | ((b[off + 1] as u64) << 8u64) | ((b[off + 2] as u64) << 16u64) | ((b[off + 3] as u64) << 24u64)
        | ((b[off + 4] as u64) << 32u64) | ((b[off + 5] as u64) << 40u64) | ((b[off + 6] as u64) << 48u64) | ((b[off
        + 7] as u64) << 56u64)
}

/// The `u32` stored little-endian at `b[off..off + 4]`.
fn read_le32(b: &[u8], off: usize) -> (x: u32)
    requires
        off + 4 <= b@.len(),
    ensures
        x == from_le32(b@.subrange(off as int, off + 4)),
{
    (b[off] as u32) | ((b[off + 1] as u32) << 8u32) | ((b[off + 2] as u32) << 16u32) | ((b[off + 3] as u32) << 24u32)
}

impl HashSidecar {
    /// The bytes stored for this sidecar.
    pub fn to_bytes(&self) -> (buf: Vec<u8>)
        ensures
            buf@ == encode_spec(self.mtime_secs, self.size, self.content_hash, self.short_hashes@),
    {
        let mut buf: Vec<u8> = Vec::new();
        buf.push(76);
        buf.push(72);
        buf.push(72);
        buf.push(51);
        buf.push(1);
        push_le64(&mut buf, self.mtime_secs);
        push_le64(&mut buf, self.size);
        push_le64(&mut buf, self.content_hash);
        let n = self.short_hashes.len();
        let count: u32 = ((n as u64) % 0x1_0000_0000u64) as u32;
        push_le32(&mut buf, count);
        let mut i: usize = 0;
        let ghost head = buf@;
        while i < n
            invariant
                i <= n,
                n == self.short_hashes@.len(),
                buf@ == head + self.short_hashes@.take(i as int),
            decreases n - i,
        {
            buf.push(self.short_hashes[i]);
            i = i + 1;
            assert(buf@ =~= head + self.short_hashes@.take(i as int));
        }
        assert(self.short_hashes@.take(i as int) =~= self.short_hashes@);
        assert(buf@ =~= encode_spec(self.mtime_secs, self.size, self.content_hash, self.short_hashes@));
        buf
    }

    /// Reads a sidecar from its stored bytes.
    pub fn from_bytes(buf: &[u8]) -> (r: Result<HashSidecar, SidecarError>)
        ensures
            match (r, decode_spec(buf@)) {
                (Ok(s), Ok((m, z, c, h))) => s.mtime_secs == m && s.size == z && s.content_hash == c && s.short_hashes@
                    == h,
                (Err(e), Err(f)) => e == f,
                _ => false,
            },
    {
        if buf.len() < 33 || buf[0] != 76 || buf[1] != 72 || buf[2] != 72 || buf[3] != 51 {
            proof {
                if buf@.len() >= 33 {
                    assert(buf@.subrange(0, 4) != magic()) by {
                        assert(buf@.subrange(0, 4)[0] == buf@[0]);
                        assert(buf@.subrange(0, 4)[1] == buf@[1]);
                        assert(buf@.subrange(0, 4)[2] == buf@[2]);
                        assert(buf@.subrange(0, 4)[3] == buf@[3]);
                    }
                }
            }
            return Err(SidecarError::Invalid);
        }
        assert(buf@.subrange(0, 4) =~= magic());
        let mtime_secs = read_le64(buf, 5);
        let size = read_le64(buf, 13);
        let content_hash = read_le64(buf, 21);
        let line_count = read_le32(buf, 29) as usize;
        if line_count > buf.len() - 33 {
            return Err(SidecarError::Truncated);
        }
        let mut short_hashes: Vec<u8> = Vec::new();
        let mut i: usize = 0;
        while i < line_count
            invariant
                i <= line_count,
                33 + line_count <= buf.len(),
                short_hashes@ == buf@.subrange(33, 33 + i),
            decreases line_count - i,
        {
            short_hashes.push(buf[33 + i]);
            i = i + 1;
            assert(short_hashes@ =~= buf@.subrange(33, 33 + i));
        }
        Ok(HashSidecar { mtime_secs, size, content_hash, short_hashes })
    }
}

proof fn lemma_le64_round_trip(x: u64)
    ensures
        from_le64(le64(x)) == x,
{
    let b = le64(x);
    assert(((x & 0xff) as u8 as u64) | ((((x >> 8u64) & 0xff) as u8 as u64) << 8u64) | ((((x >> 16u64) & 0xff) as u8
        as u64) << 16u64) | ((((x >> 24u64) & 0xff) as u8 as u64) << 24u64) | ((((x >> 32u64) & 0xff) as u8 as u64)
        << 32u64) | ((((x >> 40u64) & 0xff) as u8 as u64) << 40u64) | ((((x >> 48u64) & 0xff) as u8 as u64) << 48u64)
        | ((((x >> 56u64) & 0xff) as u8 as u64) << 56u64) == x) by (bit_vector);
}

proof fn lemma_le32_round_trip(x: u32)
    ensures
        from_le32(le32(x)) == x,
{
    assert(((x & 0xff) as u8 as u32) | ((((x >> 8u32) & 0xff) as u8 as u32) << 8u32) | ((((x >> 16u32) & 0xff) as u8
        as u32) << 16u32) | ((((x >> 24u32) & 0xff) as u8 as u32) << 24u32) == x) by (bit_vector);
}

/// Reading back what was written gives the same sidecar, as long as the
/// line count fits the four bytes it is stored in.
pub proof fn law_sidecar_round_trip(mtime: u64, size: u64, content_hash: u64, hashes: Seq<u8>)
    requires
        hashes.len() <= u32::MAX,
    ensures
        decode_spec(encode_spec(mtime, size, content_hash, hashes)) == Ok::<(u64, u64, u64, Seq<u8>), SidecarError>(
            (mtime, size, content_hash, hashes),
        ),
{
    let b = encode_spec(mtime, size, content_hash, hashes);
    lemma_le64_round_trip(mtime);
    lemma_le64_round_trip(size);
    lemma_le64_round_trip(content_hash);
    let n = (hashes.len() % 0x1_0000_0000) as u32;
    lemma_le32_round_trip(n);
    assert(b.subrange(0, 4) =~= magic());
    assert(b.subrange(5, 13) =~= le64(mtime));
    assert(b.subrange(13, 21) =~= le64(size));
    assert(b.subrange(21, 29) =~= le64(content_hash));
    assert(b.subrange(29, 33) =~= le32(n));
    assert(n as int == hashes.len());
    assert(b.subrange(33, 33int + hashes.len()) =~= hashes);
}

/// The names whose presence marks a directory as a project root, in the
/// order they are looked for.
pub open spec fn root_marker_names() -> Seq<Seq<char>> {
    seq![".hashline"@, ".git"@, ".hg"@, "Cargo.toml"@, "package.json"@, "pyproject.toml"@, "go.mod"@]
}

/// The `i`-th project root marker, if there is one.
pub fn root_marker(i: usize) -> (r: Option<&'static str>)
    ensures
        r is Some <==> i < root_marker_names().len(),
        r matches Some(m) ==> m@ == root_marker_names()[i as int],
{
    if i == 0 {
        Some(".hashline")
    } else if i == 1 {
        Some(".git")
    } else if i == 2 {
        Some(".hg")
    } else if i == 3 {
        Some("Cargo.toml")
    } else if i == 4 {
        Some("package.json")
    } else if i == 5 {
        Some("pyproject.toml")
    } else if i == 6 {
        Some("go.mod")
    } else {
        None
    }
}

/// How many directories, the start included, the root search looks at.
pub const ROOT_SEARCH_LEVELS: usize = 16;

/// Where a search for the sidecar root stands: the directory level it is
/// at (0 for the start directory) and the marker it is to look for next.
#[derive(Clone, Copy, Debug, PartialEq, Eq, Structural)]
pub struct RootSearch {
    pub level: usize,
    pub marker: usize,
}

/// What the search learned from its last step.
#[derive(Clone, Copy, Debug, PartialEq, Eq, Structural)]
pub enum RootEvent {
    /// The search begins.
    Began,
    /// Whether the marker it asked about exists in the current directory.
    Checked(bool),
    /// Whether the current directory had a parent to move to.
    Ascended(bool),
}

/// What the search asks for next.
#[derive(Clone, Copy, Debug, PartialEq, Eq, Structural)]
pub enum RootAction {
    /// Look for the marker with this index in the current directory.
    Check(usize),
    /// Move to the parent of the current directory.
    Ascend,
    /// The current directory is the root.
    UseCurrent,
    /// No root was found: use the start directory.
    UseStart,
}

/// One step of the search for the sidecar root: each directory from the
/// start upwards is asked for each marker in turn; the first directory that
/// has one is the root; after the sixteenth directory, or at the top, the
/// start directory is used.
pub fn root_search_step(s: RootSearch, e: RootEvent) -> (r: (RootSearch, RootAction))
    ensures
        match e {
            RootEvent::Began => r == (RootSearch { level: 0, marker: 0 }, RootAction::Check(0)),
            RootEvent::Checked(true) => r == (s, RootAction::UseCurrent),
            RootEvent::Checked(false) => if s.marker + 1 < root_marker_names().len() {
                r == (RootSearch { level: s.level, marker: (s.marker + 1) as usize }, RootAction::Check((s.marker + 1) as usize))
            } else {
                r == (s, RootAction::Ascend)
            },
            RootEvent::Ascended(moved) => if moved && s.level + 1 < ROOT_SEARCH_LEVELS {
                r == (RootSearch { level: (s.level + 1) as usize, marker: 0 }, RootAction::Check(0))
            } else {
                r == (s, RootAction::UseStart)
            },
        },
{
    match e {
        RootEvent::Began => (RootSearch { level: 0, marker: 0 }, RootAction::Check(0)),
        RootEvent::Checked(found) => {
            if found {
                (s, RootAction::UseCurrent)
            } else if s.marker < 6 {
                (RootSearch { level: s.level, marker: s.marker + 1 }, RootAction::Check(s.marker + 1))
            } else {
                (s, RootAction::Ascend)
            }
        },
        RootEvent::Ascended(moved) => {
            if moved && s.level < ROOT_SEARCH_LEVELS - 1 {
                (RootSearch { level: s.level + 1, marker: 0 }, RootAction::Check(0))
            } else {
                (s, RootAction::UseStart)
            }
        },
    }
}

} // verus!
