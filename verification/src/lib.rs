//! The logic of a Zed extension that runs the TypeScript 7 language server:
//! which command starts the server, which TypeScript package it runs from,
//! and the settings it is configured with.
use vstd::prelude::*;

pub mod json;
pub mod settings;
pub mod text;
pub mod typescript_package;

verus! {

/// The `tsc` launcher of the managed `typescript` package, relative to the
/// extension's working directory.
pub const TYPESCRIPT_BIN: &'static str = "node_modules/typescript/bin/tsc";

/// The arguments that start the TypeScript server in language-server mode over stdio.
pub open spec fn spec_lsp_args() -> Seq<Seq<char>> {
    seq!["--lsp"@, "--stdio"@]
}

pub open spec fn strings_of(v: Vec<String>) -> Seq<Seq<char>> {
    v@.map_values(|s: String| s@)
}

/// Arguments passed to every launched server: `--lsp --stdio`.
pub fn lsp_args() -> (args: Vec<String>)
    ensures
        strings_of(args) == spec_lsp_args(),
{
    let mut args: Vec<String> = Vec::new();
    args.push("--lsp".to_owned());
    args.push("--stdio".to_owned());
    proof {
        assert(strings_of(args) =~= spec_lsp_args());
    }
    args
}

/// A command that starts the language server: the program, its arguments
/// and its environment.
pub struct Command {
    pub command: String,
    pub args: Vec<String>,
    pub env: Vec<(String, String)>,
}

/// The server command that the user configured as
/// `lsp.typescript.binary`: its `path` (`binary_path`), run with its
/// `arguments` or, where there are none, `--lsp --stdio`.
pub fn command_from_settings(
    binary_path: Option<String>,
    binary_arguments: Option<Vec<String>>,
    env: Vec<(String, String)>,
) -> (command: Option<Command>)
    ensures
        binary_path is None ==> command is None,
        binary_path matches Some(p) ==> command matches Some(c) && c.command == p && c.env == env
            && strings_of(c.args) == match binary_arguments {
            Some(a) if a@.len() > 0 => strings_of(a),
            _ => spec_lsp_args(),
        },
{
    let path = match binary_path {
        Some(path) => path,
        None => {
            return None;
        },
    };
    let mut args = match binary_arguments {
        Some(args) => args,
        None => Vec::new(),
    };
    if args.len() == 0 {
        args = lsp_args();
    }
    Some(Command { command: path, args, env })
}

/// The server command for a `tsgo` found on the worktree's `PATH`, run with
/// `--lsp --stdio`.
pub fn command_from_preview_path(tsgo: Option<String>, env: Vec<(String, String)>) -> (command:
    Option<Command>)
    ensures
        tsgo is None ==> command is None,
        tsgo matches Some(t) ==> command matches Some(c) && c.command == t && c.env == env
            && strings_of(c.args) == spec_lsp_args(),
{
    match tsgo {
        Some(command) => Some(Command { command, args: lsp_args(), env }),
        None => None,
    }
}

/// The server command that runs the managed package's launcher `package_bin`
/// with Node (`node`): `node <package_bin> --lsp --stdio`.
pub fn node_server_command(node: String, package_bin: String, env: Vec<(String, String)>) -> (command:
    Command)
    ensures
        command.command == node,
        command.env == env,
        strings_of(command.args) == seq![package_bin@] + spec_lsp_args(),
{
    let ghost bin = package_bin@;
    let mut args: Vec<String> = Vec::new();
    args.push(package_bin);
    let mut rest = lsp_args();
    args.append(&mut rest);
    proof {
        assert(strings_of(args) =~= seq![bin] + spec_lsp_args());
    }
    Command { command: node, args, env }
}

/// Whether npm has to install the `typescript` package: unless the installed
/// version is the latest one.
pub fn needs_npm_install(installed: Option<&str>, latest: &str) -> (needed: bool)
    ensures
        needed == !(installed matches Some(i) && i@ == latest@),
{
    match installed {
        Some(installed) => {
            let a = text::chars_of(installed);
            let b = text::chars_of(latest);
            !text::chars_eq(a.as_slice(), b.as_slice())
        },
        None => true,
    }
}

} // verus!
