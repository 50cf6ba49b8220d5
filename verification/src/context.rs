//! The state of a shell, and the file descriptors that a command runs on.

use vstd::prelude::*;
use crate::builtins::registry;
use crate::builtins::Builtins;
use crate::environment::Environment;

verus! {

/// The settings and the state of a shell.
pub struct Context {
    pub interactive: bool,
    /// The exit status of the last command that ran in the foreground.
    pub last_return: i32,
    pub builtins: Builtins,
    pub env: Environment,
}

impl Context {
    /// The context of a shell that starts with `env`: nothing has run yet.
    pub fn new(interactive: bool, env: Environment) -> (r: Context)
        ensures
            r.interactive == interactive,
            r.last_return == 0,
            r.builtins.commands() == registry(),
            r.env.vars() == env.vars(),
    {
        Context { interactive, last_return: 0, builtins: Builtins::new(), env }
    }
}

/// The file descriptors that a command reads from and writes to.
#[derive(Debug, Copy, Clone, PartialEq, Eq, Structural)]
pub struct StdIo {
    pub stdin: i32,
    pub stdout: i32,
    pub stderr: i32,
}

} // verus!
