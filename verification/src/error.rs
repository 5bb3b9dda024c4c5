//! The failures that the library reports.

use vstd::prelude::*;
use vstd::string::*;

verus! {

/// What went wrong, by its nature.
#[derive(Debug, Clone, Copy, PartialEq, Eq, Structural)]
pub enum ErrorKind {
    /// The configuration breaks a rule.
    InvalidData,
    /// The options given on the command line do not fit together.
    InvalidInput,
    /// A command that was run reported a failure.
    Other,
}

/// A failure with a message for the operator.
#[derive(Debug, PartialEq, Eq)]
pub struct Error {
    pub kind: ErrorKind,
    pub message: String,
}

impl Error {
    /// A failure of the given kind with the given message.
    pub fn new(kind: ErrorKind, message: String) -> (e: Error)
        ensures
            e.kind == kind,
            e.message@ == message@,
    {
        Error { kind, message }
    }

    /// The kind of the failure.
    pub fn kind(&self) -> (k: ErrorKind)
        ensures
            k == self.kind,
    {
        self.kind
    }

    /// The message of the failure.
    pub fn to_string(&self) -> (s: String)
        ensures
            s@ == self.message@,
    {
        self.message.clone()
    }
}

impl Clone for Error {
    fn clone(&self) -> (e: Self)
        ensures
            e.kind == self.kind,
            e.message@ == self.message@,
    {
        Error { kind: self.kind, message: self.message.clone() }
    }
}

/// A failure of kind `InvalidData` with the given message.
pub fn invalid_data(message: String) -> (e: Error)
    ensures
        e.kind == ErrorKind::InvalidData,
        e.message@ == message@,
{
    Error { kind: ErrorKind::InvalidData, message }
}

/// The part of a run in which something can go wrong outside the library.
#[derive(Debug, Clone, Copy, PartialEq, Eq, Structural)]
pub enum Phase {
    /// Reading the configuration file.
    ReadConfiguration,
    /// Parsing the configuration file.
    ParseConfiguration,
    /// Adding and updating the Helm repositories.
    HelmRepositories,
    /// Reading the list of Helm releases.
    HelmReleases,
    /// Running the resources.
    Resources,
}

/// How the message of a failure in a phase begins.
pub open spec fn phase_prefix(phase: Phase) -> Seq<char> {
    match phase {
        Phase::ReadConfiguration => "Unable to read configuration file: "@,
        Phase::ParseConfiguration => "Unable to parse configuration file: "@,
        Phase::HelmRepositories => "Adding helm repositories failed: "@,
        Phase::HelmReleases => "Could not read helm releases: "@,
        Phase::Resources => "Running resources failed: "@,
    }
}

/// The message of a failure in a phase: what the phase was, then what went wrong.
pub fn failure_message(phase: Phase, detail: &str) -> (message: String)
    ensures
        message@ == phase_prefix(phase) + detail@,
{
    let mut message = match phase {
        Phase::ReadConfiguration => String::from_str("Unable to read configuration file: "),
        Phase::ParseConfiguration => String::from_str("Unable to parse configuration file: "),
        Phase::HelmRepositories => String::from_str("Adding helm repositories failed: "),
        Phase::HelmReleases => String::from_str("Could not read helm releases: "),
        Phase::Resources => String::from_str("Running resources failed: "),
    };
    message.append(detail);
    message
}

/// Whether `r` is the failure of kind `kind` with message `message`.
pub open spec fn fails_with(r: Result<(), Error>, kind: ErrorKind, message: Seq<char>) -> bool {
    r is Err && r->Err_0.kind == kind && r->Err_0.message@ == message
}

} // verus!
