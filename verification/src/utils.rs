//! The contract of running one external command: whether a process is started at all,
//! how its output is buffered, and what its exit means.

use crate::error::{Error, ErrorKind};
use crate::text::views;
use vstd::prelude::*;
use vstd::string::*;

verus! {

/// A command line to hand to the operating system.
#[derive(Debug, PartialEq)]
pub struct Command {
    /// The program to start.
    pub program: String,
    /// Its arguments, in order.
    pub args: Vec<String>,
    /// The cluster credentials to pass on in the variable `KUBECONFIG`, if any.
    pub kubeconfig: Option<String>,
    /// Whether a process is to be started. In a dry run it is not: the command then
    /// counts as having succeeded with no output.
    pub spawn: bool,
}

/// What a command denotes.
pub struct CommandView {
    pub program: Seq<char>,
    pub args: Seq<Seq<char>>,
    pub kubeconfig: Option<Seq<char>>,
    pub spawn: bool,
}

/// The characters of an optional string.
pub open spec fn option_view(s: Option<String>) -> Option<Seq<char>> {
    match s {
        Some(text) => Some(text@),
        None => None,
    }
}

impl View for Command {
    type V = CommandView;

    open spec fn view(&self) -> CommandView {
        CommandView {
            program: self.program@,
            args: views(self.args@),
            kubeconfig: option_view(self.kubeconfig),
            spawn: self.spawn,
        }
    }
}

/// The command for `program` with `args`: started unless this is a dry run.
pub fn run_command_with_piped_stdio(
    program: &str,
    args: Vec<String>,
    kubeconfig: Option<String>,
    dry_run: bool,
) -> (command: Command)
    ensures
        command@ == (CommandView {
            program: program@,
            args: views(args@),
            kubeconfig: option_view(kubeconfig),
            spawn: !dry_run,
        }),
{
    Command { program: String::from_str(program), args, kubeconfig, spawn: !dry_run }
}

/// Appends one line of output, and the line break after it, to the buffer of its stream.
pub fn buffer_line(buffer: &mut String, line: &str)
    ensures
        final(buffer)@ == old(buffer)@ + line@ + "\n"@,
{
    buffer.append(line);
    buffer.append("\n");
}

/// What the end of a command means: success when it exited with status zero, else a
/// failure that carries what the command wrote to its error stream.
pub fn command_outcome(success: bool, stderr: String) -> (r: Result<(), Error>)
    ensures
        success ==> r is Ok,
        !success ==> r is Err && r->Err_0.kind == ErrorKind::Other && r->Err_0.message@ == stderr@,
{
    if success {
        Ok(())
    } else {
        Err(Error::new(ErrorKind::Other, stderr))
    }
}

} // verus!
