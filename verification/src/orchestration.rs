//! Naming and dispatch of subcommands.

use vstd::prelude::*;
use crate::cli::Commands;

verus! {

/// The subcommand's name as typed on the command line.
pub open spec fn command_name_spec(command: Commands) -> Seq<char> {
    match command {
        Commands::Read(_) => "read"@,
        Commands::Patch(_) => "patch"@,
        Commands::Write(_) => "write"@,
        Commands::FindBlock(_) => "find-block"@,
        Commands::Guide(_) => "guide"@,
        Commands::Serve(_) => "serve"@,
        Commands::Mcp(_) => "mcp"@,
    }
}

/// The subcommand's name (for logs and errors).
pub fn command_name(command: &Commands) -> (s: &'static str)
    ensures
        s@ == command_name_spec(*command),
{
    match command {
        Commands::Read(_) => "read",
        Commands::Patch(_) => "patch",
        Commands::Write(_) => "write",
        Commands::FindBlock(_) => "find-block",
        Commands::Guide(_) => "guide",
        Commands::Serve(_) => "serve",
        Commands::Mcp(_) => "mcp",
    }
}

} // verus!
