//! The command-line surface: the subcommands and their arguments, as plain
//! data. Argument parsing itself lives with the program.

use vstd::prelude::*;

verus! {

/// The parsed command line.
pub struct Cli {
    pub command: Commands,
}

/// The subcommands.
pub enum Commands {
    Read(ReadCmd),
    Patch(PatchCmd),
    Write(WriteCmd),
    FindBlock(FindBlockCmd),
    Guide(GuideCmd),
    Serve(ServeCmd),
    Mcp(McpCmd),
}

/// Read a file with a `[path#HASH]` header and numbered lines.
#[derive(Clone, Debug)]
pub struct ReadCmd {
    pub file: std::path::PathBuf,
    pub json: bool,
    pub no_cache: bool,
}

/// Apply a hashline patch string to a file.
#[derive(Clone, Debug)]
pub struct PatchCmd {
    pub file: std::path::PathBuf,
    pub patch: String,
    pub dry_run: bool,
    pub json: bool,
    /// Write through a temporary file and fsync (crash-safe, slower).
    pub safe: bool,
}

/// Find the structural block around an anchor.
#[derive(Clone, Debug)]
pub struct FindBlockCmd {
    pub file: std::path::PathBuf,
    pub anchor: String,
    pub json: bool,
    pub pretty: bool,
}

/// Write content to a file (a new file, or an existing one with `force`).
#[derive(Clone, Debug)]
pub struct WriteCmd {
    pub file: std::path::PathBuf,
    pub content: String,
    pub force: bool,
    pub json: bool,
    pub safe: bool,
}

/// Replace `old_string` with `new_string` in a file.
#[derive(Clone, Debug)]
pub struct ReplaceCmd {
    pub file: std::path::PathBuf,
    pub old_string: String,
    pub new_string: String,
    pub json: bool,
    pub safe: bool,
}

/// Show the user guide.
#[derive(Clone, Debug)]
pub struct GuideCmd {
    pub json: bool,
}

/// Run as a daemon over a Unix socket or HTTP.
#[derive(Clone, Debug)]
pub struct ServeCmd {
    pub socket: Option<std::path::PathBuf>,
    pub http: Option<u16>,
    pub detach: bool,
    pub pid_file: Option<std::path::PathBuf>,
}

/// Run as an MCP server over stdio.
#[derive(Clone, Debug)]
pub struct McpCmd {
    pub proxy_to_daemon: bool,
}

} // verus!
