//! The session activation state machine.
//!
//! Once the selector returns, the run either aborts or activates a
//! multiplexer session for the chosen project.  The decision logic is
//! pure: the "inside a client" predicate is read once and handed in,
//! the existence check's outcome is handed in, and the result is the
//! exact sequence of multiplexer calls to perform.

use vstd::prelude::*;

use crate::record::ProjectRecord;

verus! {

/// One call against the external multiplexer.
#[derive(Debug, Clone, Copy, PartialEq, Eq, Structural)]
pub enum SessionAction {
    /// Create a detached session keyed by the session name, with the
    /// project path as its working directory.
    CreateDetached,
    /// Attach to the named session, replacing the current process
    /// context.
    Attach,
    /// Switch the current client over to the named session.
    SwitchClient,
}

/// The transition table: what is run for each combination of "the
/// process is inside a client" and "the named session exists".
pub open spec fn spec_activation_plan(inside_client: bool, session_exists: bool) -> Seq<
    SessionAction,
> {
    if inside_client {
        if session_exists {
            seq![SessionAction::SwitchClient]
        } else {
            seq![SessionAction::CreateDetached, SessionAction::SwitchClient]
        }
    } else {
        if session_exists {
            seq![SessionAction::Attach]
        } else {
            seq![SessionAction::CreateDetached, SessionAction::Attach]
        }
    }
}

/// Builds the action sequence of the transition table: a missing
/// session is first created detached; then an inside-client run
/// switches the client while an outside run attaches.
pub fn activation_plan(inside_client: bool, session_exists: bool) -> (r: Vec<SessionAction>)
    ensures
        r@ == spec_activation_plan(inside_client, session_exists),
{
    let mut r: Vec<SessionAction> = Vec::new();
    if !session_exists {
        r.push(SessionAction::CreateDetached);
    }
    if inside_client {
        r.push(SessionAction::SwitchClient);
    } else {
        r.push(SessionAction::Attach);
    }
    proof {
        assert(r@ =~= spec_activation_plan(inside_client, session_exists));
    }
    r
}

/// The outcome of the interactive stage: one chosen project, or an
/// explicit abort.  Never both, never several.
#[derive(Debug)]
pub enum SelectionResult {
    Chosen(ProjectRecord),
    Aborted,
}

/// Where an activation is aimed: the project path the session works
/// in, and the session name it is keyed by.
#[derive(Debug)]
pub struct SessionTarget {
    pub path: String,
    pub name: String,
}

/// Everything left to do when the interactive stage returns.
#[derive(Debug)]
pub struct ExitPlan {
    /// The cache is written back in every case, abort included:
    /// background discovery results must survive into the next run.
    pub persist_cache: bool,
    /// The activation to run; absent exactly when the user aborted.
    pub activation: Option<(SessionTarget, Vec<SessionAction>)>,
}

/// Turns the selector's outcome into the run's exit plan.  An abort
/// activates nothing; a chosen project is activated per the
/// transition table, keyed by its prefixed session name.  The cache
/// is persisted in either case.
pub fn plan_exit(selection: SelectionResult, inside_client: bool, session_exists: bool) -> (r:
    ExitPlan)
    ensures
        r.persist_cache == true,
        selection matches SelectionResult::Aborted ==> r.activation is None,
        selection matches SelectionResult::Chosen(rec) ==> (r.activation matches Some(a)
            && a.0.path@ == rec@.path && a.0.name@ == rec.spec_full_session_name() && a.1@
            == spec_activation_plan(inside_client, session_exists)),
{
    match selection {
        SelectionResult::Aborted => ExitPlan { persist_cache: true, activation: None },
        SelectionResult::Chosen(rec) => {
            let name = rec.full_session_name();
            let target = SessionTarget { path: rec.path, name };
            let actions = activation_plan(inside_client, session_exists);
            ExitPlan { persist_cache: true, activation: Some((target, actions)) }
        },
    }
}

} // verus!
