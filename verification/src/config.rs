//! Editor configuration: snapshot caching, the hash algorithm and resource
//! limits.

use vstd::prelude::*;
use crate::apply::strings_view;
use crate::text::owned;

verus! {

/// Hash algorithm for anchors and file fingerprints.
#[derive(Clone, Copy, Debug, PartialEq, Eq, Structural)]
pub enum HashAlgorithm {
    /// xxHash32 two-character short hashes (the default).
    Xxh32,
    /// SHA-256 based hashes.
    Sha256,
}

impl Default for HashAlgorithm {
    fn default() -> (a: HashAlgorithm)
        ensures
            a == HashAlgorithm::Xxh32,
    {
        HashAlgorithm::Xxh32
    }
}

/// Editor configuration.
#[derive(Clone, Copy, Debug)]
pub struct HashlineConfig {
    /// Whether snapshots are recorded at all.
    pub enable_snapshots: bool,
    /// Hash algorithm for anchors and fingerprints.
    pub hash_algorithm: HashAlgorithm,
    /// Full-file versions kept per path.
    pub max_snapshots_per_file: usize,
    /// Distinct paths tracked.
    pub max_snapshot_paths: usize,
    /// Ceiling on snapshot text kept over all paths, in bytes.
    pub max_snapshot_bytes: usize,
}

impl Default for HashlineConfig {
    /// Snapshots on, xxh32, 4 versions per file, 30 paths, 64 MiB.
    fn default() -> (c: HashlineConfig)
        ensures
            c.enable_snapshots,
            c.hash_algorithm == HashAlgorithm::Xxh32,
            c.max_snapshots_per_file == 4,
            c.max_snapshot_paths == 30,
            c.max_snapshot_bytes == 64 * 1024 * 1024,
    {
        HashlineConfig {
            enable_snapshots: true,
            hash_algorithm: HashAlgorithm::default(),
            max_snapshots_per_file: 4,
            max_snapshot_paths: 30,
            max_snapshot_bytes: 64 * 1024 * 1024,
        }
    }
}

/// Where the log file lives under a home directory, as path components:
/// the home's components, then `.hashline`, then `hashline.log`.
pub fn default_log_path(home: Vec<String>) -> (r: Vec<String>)
    ensures
        strings_view(r@) == strings_view(home@) + seq![".hashline"@, "hashline.log"@],
{
    let mut r = home;
    let ghost before = strings_view(r@);
    r.push(owned(".hashline"));
    assert(strings_view(r@) =~= before.push(".hashline"@));
    let ghost mid = strings_view(r@);
    r.push(owned("hashline.log"));
    assert(strings_view(r@) =~= mid.push("hashline.log"@));
    assert(strings_view(r@) =~= before + seq![".hashline"@, "hashline.log"@]);
    r
}

} // verus!
