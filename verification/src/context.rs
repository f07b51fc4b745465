//! What a command runs with: its output streams and how it formats output.

use vstd::prelude::*;
use crate::cli::Commands;

verus! {

/// Coarse output mode; compact or pretty JSON is chosen separately.
#[derive(Clone, Copy, Debug, PartialEq, Eq, Structural)]
pub enum OutputMode {
    /// Human-readable text (the default).
    Pretty,
    /// One JSON document.
    Json,
    /// One JSON object per line.
    Ndjson,
}

/// The streams a command writes to and its output format.
pub struct CommandContext<'a, W, E> {
    stdout: &'a mut W,
    stderr: &'a mut E,
    output_mode: OutputMode,
    json_pretty: bool,
}

impl<'a, W, E> CommandContext<'a, W, E> {
    /// The mode this context was made with.
    pub closed spec fn mode(&self) -> OutputMode {
        self.output_mode
    }

    /// Whether JSON is pretty-printed.
    pub closed spec fn pretty(&self) -> bool {
        self.json_pretty
    }

    /// The output stream's value.
    pub closed spec fn out_stream(&self) -> W {
        *self.stdout
    }

    /// The diagnostics stream's value.
    pub closed spec fn err_stream(&self) -> E {
        *self.stderr
    }

    /// A context writing to `stdout` and `stderr`, compact JSON.
    pub fn new(stdout: &'a mut W, stderr: &'a mut E, output_mode: OutputMode) -> (c: Self)
        ensures
            c.mode() == output_mode,
            !c.pretty(),
    {
        CommandContext { stdout, stderr, output_mode, json_pretty: false }
    }

    /// The same context with JSON pretty-printing set to `pretty`.
    pub fn with_json_pretty(self, pretty: bool) -> (c: Self)
        ensures
            c.mode() == self.mode(),
            c.pretty() == pretty,
    {
        let mut c = self;
        c.json_pretty = pretty;
        c
    }

    /// The output stream: writing through it writes the context's output
    /// stream and changes nothing else of the context.
    pub fn stdout(&mut self) -> (r: &mut W)
        ensures
            *r == old(self).out_stream(),
            final(self).out_stream() == *final(r),
            final(self).err_stream() == old(self).err_stream(),
            final(self).mode() == old(self).mode(),
            final(self).pretty() == old(self).pretty(),
    {
        self.stdout
    }

    /// The diagnostics stream: writing through it writes the context's
    /// diagnostics stream and changes nothing else of the context.
    pub fn stderr(&mut self) -> (r: &mut E)
        ensures
            *r == old(self).err_stream(),
            final(self).err_stream() == *final(r),
            final(self).out_stream() == old(self).out_stream(),
            final(self).mode() == old(self).mode(),
            final(self).pretty() == old(self).pretty(),
    {
        self.stderr
    }

    /// The output mode.
    pub fn output_mode(&self) -> (m: OutputMode)
        ensures
            m == self.mode(),
    {
        self.output_mode
    }

    /// Whether JSON output is pretty-printed (compact by default).
    pub fn json_pretty(&self) -> (b: bool)
        ensures
            b == self.pretty(),
    {
        self.json_pretty
    }
}

/// The output mode a command asks for: JSON when its `--json` flag is set,
/// else text; the server commands always use text.
pub open spec fn output_mode_spec(command: Commands) -> OutputMode {
    let json = match command {
        Commands::Read(c) => c.json,
        Commands::Patch(c) => c.json,
        Commands::Write(c) => c.json,
        Commands::FindBlock(c) => c.json,
        Commands::Guide(c) => c.json,
        Commands::Serve(_) => false,
        Commands::Mcp(_) => false,
    };
    if json {
        OutputMode::Json
    } else {
        OutputMode::Pretty
    }
}

fn flag_mode(json: bool) -> (m: OutputMode)
    ensures
        m == if json { OutputMode::Json } else { OutputMode::Pretty },
{
    if json {
        OutputMode::Json
    } else {
        OutputMode::Pretty
    }
}

/// The output mode for `command` (see [`output_mode_spec`]).
pub fn output_mode_for(command: &Commands) -> (m: OutputMode)
    ensures
        m == output_mode_spec(*command),
{
    match command {
        Commands::Read(cmd) => flag_mode(cmd.json),
        Commands::Patch(cmd) => flag_mode(cmd.json),
        Commands::Write(cmd) => flag_mode(cmd.json),
        Commands::FindBlock(cmd) => flag_mode(cmd.json),
        Commands::Guide(cmd) => flag_mode(cmd.json),
        Commands::Serve(_) | Commands::Mcp(_) => OutputMode::Pretty,
    }
}

/// Whether `command`'s JSON is pretty-printed: only `find-block --pretty`.
pub fn json_pretty_for(command: &Commands) -> (b: bool)
    ensures
        b == (command matches Commands::FindBlock(c) && c.pretty),
{
    match command {
        Commands::FindBlock(cmd) => cmd.pretty,
        _ => false,
    }
}

} // verus!
