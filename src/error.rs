//! The ways an invocation can fail. Each carries the path, project name or
//! description that the message to the user names.
use vstd::prelude::*;

verus! {

#[derive(Clone, Debug, PartialEq, Eq)]
pub enum GotoError {
    /// The configuration file is missing; holds its path.
    ConfigNotFound(String),
    /// The configuration text is malformed or does not follow the schema;
    /// holds the offending project's name, or a description.
    ParseError(String),
    /// No project has the requested name; holds that name.
    ProjectNotFound(String),
    /// A directory could not be listed; holds its path.
    IOError(String),
    /// The session's shell could not be started; holds a description.
    ShellLaunchError(String),
}

} // verus!
