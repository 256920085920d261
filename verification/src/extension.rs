use vstd::prelude::*;

verus! {

/// The message given when the server binary cannot be found on `PATH`.
pub const BINARY_NOT_FOUND: &'static str = "text-marker バイナリが PATH に見つかりません";

/// How the editor starts the language server: the program, its arguments and the
/// environment variables to set.
pub struct ServerCommand {
    pub command: String,
    pub args: Vec<String>,
    pub env: Vec<(String, String)>,
}

/// The command that starts the language server, given where the `text-marker` binary was
/// found on `PATH`: that binary with the single argument `serve` and no extra environment;
/// an error message when it was not found.
pub fn language_server_command(binary: Option<String>) -> (r: Result<ServerCommand, String>)
    ensures
        match binary {
            Some(path) => r matches Ok(c) && c.command@ == path@ && c.args@.len() == 1
                && c.args@[0]@ == "serve"@ && c.env@.len() == 0,
            None => r matches Err(message) && message@ == BINARY_NOT_FOUND@,
        },
{
    match binary {
        Some(command) => {
            let args = vec![String::from_str("serve")];
            Ok(ServerCommand { command, args, env: Vec::new() })
        },
        None => Err(String::from_str(BINARY_NOT_FOUND)),
    }
}

} // verus!
