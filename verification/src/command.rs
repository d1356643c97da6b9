//! Choosing the command that starts the language server.
//!
//! A binary named in the user's settings comes first. Without one the server
//! is the wrapper that `ghcup` installs, looked up on the search path of the
//! worktree. What the settings hold and what the lookup finds is the caller's
//! to fetch; the choice between them is made here.

use vstd::prelude::*;

verus! {

/// What the user's settings say about the language server binary.
#[derive(Debug)]
pub struct BinarySettings {
    /// The path of the binary.
    pub path: Option<String>,
    /// The arguments to start it with.
    pub arguments: Option<Vec<String>>,
}

/// A program and its arguments.
#[derive(Debug)]
pub struct ServerCommand {
    /// The program to run.
    pub command: String,
    /// The arguments to run it with.
    pub args: Vec<String>,
}

/// The name under which `ghcup` installs the language server.
pub open spec fn wrapper_name() -> Seq<char> {
    "haskell-language-server-wrapper"@
}

/// The program and the arguments that the settings name: the path, with the
/// arguments beside it, or with none where the settings give none. `None`
/// where the settings name no path.
pub open spec fn configured(binary: Option<BinarySettings>) -> Option<(Seq<char>, Seq<Seq<char>>)> {
    match binary {
        Some(settings) => match settings.path {
            Some(path) => Some(
                (
                    path@,
                    match settings.arguments {
                        Some(arguments) => arguments.deep_view(),
                        None => Seq::empty(),
                    },
                ),
            ),
            None => None,
        },
        None => None,
    }
}

/// The name under which `ghcup` installs the language server.
pub fn server_binary_name() -> (name: &'static str)
    ensures
        name@ == wrapper_name(),
{
    "haskell-language-server-wrapper"
}

/// The command that the user's settings name, if they name one.
pub fn command_from_settings(binary: Option<BinarySettings>) -> (command: Option<ServerCommand>)
    ensures
        match command {
            Some(command) => configured(binary) == Some(
                (command.command@, command.args.deep_view()),
            ),
            None => configured(binary) is None,
        },
{
    if let Some(binary_settings) = binary {
        if let Some(path) = binary_settings.path {
            let args = match binary_settings.arguments {
                Some(arguments) => arguments,
                None => {
                    let none: Vec<String> = Vec::new();
                    assert(none.deep_view() =~= Seq::empty());
                    none
                },
            };
            return Some(ServerCommand { command: path, args });
        }
    }
    None
}

/// The command for the server that `ghcup` installed, from what the lookup of
/// its name found: the path that was found, with the one argument `lsp`; an
/// error that says how to install the server where nothing was found.
pub fn command_from_lookup(found: Option<String>) -> (command: Result<ServerCommand, String>)
    ensures
        match command {
            Ok(command) => found == Some(command.command) && command.args.deep_view() == seq![
                "lsp"@,
            ],
            Err(message) => found is None && message@ == "hls must be installed via ghcup"@,
        },
{
    match found {
        Some(path) => {
            let mut args = Vec::new();
            args.push("lsp".to_owned());
            assert(args.deep_view() =~= seq!["lsp"@]);
            Ok(ServerCommand { command: path, args })
        },
        None => Err("hls must be installed via ghcup".to_owned()),
    }
}

} // verus!
