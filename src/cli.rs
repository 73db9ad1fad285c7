//! The command surface: the subcommands and the steps each one runs.
use vstd::prelude::*;

verus! {

/// A subcommand.
#[derive(Debug)]
pub enum Command {
    /// Lock, then fetch the closure of the host platform's outputs.
    Cache,
    /// Lock, fetch, build the environment and run a command in the sandbox.
    Env(EnvArgs),
    /// Write a new manifest.
    Init(InitArgs),
    /// Reuse unchanged lock entries, resolve the rest, write the lockfile.
    Lock,
    /// Print something.
    Print(PrintArgs),
    /// Resolve every package again and write the lockfile.
    Update,
}

/// The command to run in the sandbox; the user's shell when absent.
#[derive(Debug)]
pub struct EnvArgs {
    pub command: Option<Vec<String>>,
}

/// The platforms and package stubs of a new manifest.
#[derive(Debug)]
pub struct InitArgs {
    pub packages: Vec<String>,
    pub systems: Vec<String>,
}

#[derive(Debug)]
pub struct PrintArgs {
    pub command: PrintCommand,
}

/// What to print.
#[derive(Debug, Clone, Copy, PartialEq, Eq, Structural)]
pub enum PrintCommand {
    /// The environment, as `export` lines.
    Env,
}

/// One step of a command.
#[derive(Debug, Clone, Copy, PartialEq, Eq, Structural)]
pub enum Step {
    /// Write the manifest.
    Init,
    /// Lock the manifest; with `refresh`, against an empty previous lockfile.
    Lock { refresh: bool },
    /// Fetch the closure of the host platform's outputs.
    Pull,
    /// Build the environment and print it as `export` lines.
    Print,
    /// Build the environment and run the command in the sandbox.
    Launch,
}

/// The steps of each command, in order.
pub open spec fn command_steps(c: Command) -> Seq<Step> {
    match c {
        Command::Init(_) => seq![Step::Init],
        Command::Lock => seq![Step::Lock { refresh: false }],
        Command::Update => seq![Step::Lock { refresh: true }],
        Command::Cache => seq![Step::Lock { refresh: false }, Step::Pull],
        Command::Env(_) => seq![Step::Lock { refresh: false }, Step::Pull, Step::Launch],
        Command::Print(_) => seq![Step::Lock { refresh: false }, Step::Pull, Step::Print],
    }
}

impl Command {
    /// The steps this command runs, in order.
    pub fn steps(&self) -> (r: Vec<Step>)
        ensures
            r@ == command_steps(*self),
    {
        let mut r: Vec<Step> = Vec::new();
        match self {
            Command::Init(_) => {
                r.push(Step::Init);
            },
            Command::Lock => {
                r.push(Step::Lock { refresh: false });
            },
            Command::Update => {
                r.push(Step::Lock { refresh: true });
            },
            Command::Cache => {
                r.push(Step::Lock { refresh: false });
                r.push(Step::Pull);
            },
            Command::Env(_) => {
                r.push(Step::Lock { refresh: false });
                r.push(Step::Pull);
                r.push(Step::Launch);
            },
            Command::Print(_) => {
                r.push(Step::Lock { refresh: false });
                r.push(Step::Pull);
                r.push(Step::Print);
            },
        }
        assert(r@ =~= command_steps(*self));
        r
    }
}

} // verus!
