use vstd::prelude::*;
use crate::lua::EngineContext;
use crate::table::table_get;

verus! {

/// What the command line asks for.
pub enum Action {
    /// Write a new manifest.
    Init,
    /// List the tasks of the manifest.
    List,
    /// The command needs a manifest and there is none.
    MissingManifest,
    /// Run the task of the manifest that has this name.
    RunTask(String),
    /// The command names no task of the manifest.
    UnknownCommand(String),
    /// No command was given.
    Idle,
}

/// Decides what to do for the subcommand `subcommand`, given the context of
/// the manifest if there is one: `init` writes a manifest, `list` lists the
/// tasks, any other word runs the task of that name.
pub fn dispatch(subcommand: Option<String>, context: Option<&EngineContext>) -> (r: Action)
    ensures
        match subcommand {
            None => r is Idle,
            Some(s) => if s@ == "init"@ {
                r is Init
            } else if s@ == "list"@ {
                if context is Some { r is List } else { r is MissingManifest }
            } else {
                match context {
                    None => r is MissingManifest,
                    Some(c) => if table_get(c.tasks@, s@) is Some {
                        r matches Action::RunTask(t) && t@ == s@
                    } else {
                        r matches Action::UnknownCommand(t) && t@ == s@
                    },
                }
            },
        },
{
    match subcommand {
        None => Action::Idle,
        Some(cmd) => {
            if cmd == "init".to_owned() {
                Action::Init
            } else if cmd == "list".to_owned() {
                match context {
                    Some(_) => Action::List,
                    None => Action::MissingManifest,
                }
            } else {
                match context {
                    None => Action::MissingManifest,
                    Some(c) => {
                        if c.has_task(cmd.clone()) {
                            Action::RunTask(cmd)
                        } else {
                            Action::UnknownCommand(cmd)
                        }
                    },
                }
            }
        },
    }
}

} // verus!
