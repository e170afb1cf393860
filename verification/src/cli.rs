//! What the command line asks for.

use crate::text::owned;
use vstd::prelude::*;

verus! {

#[derive(Debug, Clone, Copy, PartialEq, Eq, Structural)]
pub struct DoctorArgs {
    pub json: bool,
}

#[derive(Debug)]
pub enum ConfigAction {
    Get { key: String },
    Init,
}

#[derive(Debug)]
pub struct ConfigArgs {
    pub path: bool,
    pub action: Option<ConfigAction>,
}

/// What is done with the configuration.
#[derive(Debug)]
pub enum ConfigCommand {
    PrintPath,
    PrintValue { key: String },
    Initialize,
    Print,
}

/// What the arguments ask for, or why they cannot be followed.
pub open spec fn chooses(
    args: ConfigArgs,
    result: std::result::Result<ConfigCommand, String>,
) -> bool {
    match args.action {
        Some(ConfigAction::Get { key }) if !args.path => result
            == Ok::<ConfigCommand, String>(ConfigCommand::PrintValue { key }),
        Some(ConfigAction::Init) if !args.path => result matches Ok(command)
            && command is Initialize,
        Some(_) => result matches Err(message) && message@
            == "config --path cannot be combined with a subcommand"@,
        None => result matches Ok(command) && if args.path {
            command is PrintPath
        } else {
            command is Print
        },
    }}

impl ConfigArgs {
    /// What is done with the configuration. Its path is not printed together with anything else.
    pub fn command(self) -> (result: std::result::Result<ConfigCommand, String>)
        ensures
            chooses(self, result),
    {
        if self.path {
            if self.action.is_some() {
                return Err(owned("config --path cannot be combined with a subcommand"));
            }
            return Ok(ConfigCommand::PrintPath);
        }
        match self.action {
            Some(ConfigAction::Get { key }) => Ok(ConfigCommand::PrintValue { key }),
            Some(ConfigAction::Init) => Ok(ConfigCommand::Initialize),
            None => Ok(ConfigCommand::Print),
        }
    }
}

/// Arguments are refused exactly when they ask for the path and for something else; each other
/// choice is followed as it was made, and a value is looked up under the key that was given.
pub proof fn law_one_thing_is_asked_for_at_a_time(
    args: ConfigArgs,
    result: std::result::Result<ConfigCommand, String>,
)
    requires
        chooses(args, result),
    ensures
        result is Err <==> args.path && args.action is Some,
        result matches Ok(command) ==> {
            &&& command is PrintPath <==> args.path
            &&& command is Print <==> !args.path && args.action is None
            &&& command is Initialize <==> args.action == Some(ConfigAction::Init)
            &&& command matches ConfigCommand::PrintValue { key } ==> args.action == Some(
                ConfigAction::Get { key },
            )
        },
{
}

} // verus!
