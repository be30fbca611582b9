//! What the viewer is asked to show.

use vstd::prelude::*;

verus! {

/// The command line: a command, or none for the log of the commits ahead of
/// the main branch.
#[derive(Clone, Debug, PartialEq, Eq)]
pub struct Cli {
    pub command: Option<Commands>,
}

/// The commands.
#[derive(Clone, Debug, PartialEq, Eq)]
pub enum Commands {
    /// Show the files that differ between two branches as a tree.
    Diff {
        /// The branch to compare against.
        base: String,
        /// The branch to compare, or `HEAD` for what is checked out.
        head: String,
    },
}

/// What is to be shown.
#[derive(Clone, Debug, PartialEq, Eq)]
pub enum Request {
    /// The commits ahead of the main branch.
    Log,
    /// The files that differ between `base` and `head`.
    Diff { base: String, head: String },
}

/// What a `Request` stands for.
pub enum RequestModel {
    Log,
    Diff { base: Seq<char>, head: Seq<char> },
}

/// What a command line asks for: the log without a command, the diff of the
/// two branches with `Diff`.
pub open spec fn asked(cli: Cli) -> RequestModel {
    match cli.command {
        Some(Commands::Diff { base, head }) => RequestModel::Diff { base: base@, head: head@ },
        None => RequestModel::Log,
    }
}

impl Request {
    /// What the request stands for.
    pub open spec fn model(&self) -> RequestModel {
        match self {
            Request::Log => RequestModel::Log,
            Request::Diff { base, head } => RequestModel::Diff { base: base@, head: head@ },
        }
    }
}

impl Cli {
    /// Tells what the command line asks for.
    pub fn request(&self) -> (request: Request)
        ensures
            request.model() == asked(*self),
    {
        match &self.command {
            Some(Commands::Diff { base, head }) => Request::Diff {
                base: base.clone(),
                head: head.clone(),
            },
            None => Request::Log,
        }
    }
}

} // verus!
