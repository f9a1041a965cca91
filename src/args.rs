//! Arguments of the command-line tools that run the tree's server and its tests.

use vstd::prelude::*;

verus! {

/// Arguments for running all tests.
#[derive(Clone, Debug, Default, PartialEq, Eq)]
pub struct AllArgs {
    /// Skip building the dependencies.
    pub no_deps: bool,
}

/// Arguments for the revert test.
#[derive(Clone, Debug, Default, PartialEq, Eq)]
pub struct RevertArgs {
    /// Enable consensus.
    pub enable_consensus: bool,
    /// Run the test against an external node.
    pub external_node: bool,
    /// Skip building the dependencies.
    pub no_deps: bool,
}

/// How the server is run.
#[derive(Clone, Copy, Debug, Default, PartialEq, Eq)]
pub enum ExecutionMode {
    #[default]
    Release,
    Debug,
    Docker,
}

/// Arguments for running the server, as given on the command line.
#[derive(Clone, Debug, PartialEq, Eq)]
pub struct RunServerArgs {
    pub mode: ExecutionMode,
    /// The image tag to run in Docker mode.
    pub tag: Option<String>,
    /// Components to run.
    pub components: Option<Vec<String>>,
    /// Run the server in genesis mode.
    pub genesis: bool,
    /// Further arguments handed to the server.
    pub additional_args: Vec<String>,
    /// Use io_uring.
    pub uring: bool,
}

/// Arguments for running the server, with the image tag settled.
#[derive(Clone, Debug, PartialEq, Eq)]
pub struct RunServerArgsFinal {
    pub mode: ExecutionMode,
    pub tag: Option<String>,
    pub components: Option<Vec<String>>,
    pub genesis: bool,
    pub additional_args: Vec<String>,
    pub uring: bool,
}

/// The view of an optional string.
pub open spec fn opt_string_view(s: Option<String>) -> Option<Seq<char>> {
    match s {
        Some(s) => Some(s@),
        None => None,
    }
}

/// The image tag that the server runs with: in Docker mode the tag given on the
/// command line, else the one chosen at the prompt, else `latest`; in the other modes
/// none.
pub open spec fn settled_tag(
    mode: ExecutionMode,
    given: Option<Seq<char>>,
    prompted: Option<Seq<char>>,
) -> Option<Seq<char>> {
    match mode {
        ExecutionMode::Docker => if given is Some {
            given
        } else if prompted is Some {
            prompted
        } else {
            Some("latest"@)
        },
        _ => None,
    }
}

impl RunServerArgs {
    /// Settles the image tag, given the tag that the user chose at the prompt (`None`
    /// where the prompt gave none), and keeps the other arguments.
    pub fn fill_values_with_prompt(self, prompted_tag: Option<String>) -> (r: RunServerArgsFinal)
        ensures
            r.mode == self.mode,
            opt_string_view(r.tag) == settled_tag(
                self.mode,
                opt_string_view(self.tag),
                opt_string_view(prompted_tag),
            ),
            r.components == self.components,
            r.genesis == self.genesis,
            r.additional_args == self.additional_args,
            r.uring == self.uring,
    {
        let tag = match self.mode {
            ExecutionMode::Docker => match self.tag {
                Some(tag) => Some(tag),
                None => match prompted_tag {
                    Some(tag) => Some(tag),
                    None => Some("latest".to_owned()),
                },
            },
            _ => None,
        };
        RunServerArgsFinal {
            mode: self.mode,
            tag,
            components: self.components,
            genesis: self.genesis,
            additional_args: self.additional_args,
            uring: self.uring,
        }
    }
}

} // verus!
