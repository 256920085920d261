use vstd::prelude::*;

verus! {

/// The command line of the `text-marker` program: one command.
pub struct Cli {
    pub command: Command,
}

/// What the `text-marker` program is asked to do.
pub enum Command {
    /// Run the language server over standard input and output.
    Serve,
    /// Toggle the mark on the selected text.
    Toggle { text: String },
    /// Remove every mark.
    Clear,
    /// Merge the bundled tasks into Zed's `tasks.json` and create the marks directory.
    Install,
}

} // verus!
