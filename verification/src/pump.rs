//! The loop that posts work to the agent.
use vstd::prelude::*;

use crate::json::rendered;
use crate::post::{message, message_tree};
use crate::router::{ToAgent, ToAgentView};

verus! {

/// What the poster thread wakes up to.
pub enum Wake {
    Work(ToAgent),
    /// Nothing to do for a while, in which the script may have been detached and
    /// Coderpack may have died.
    Idle { detached: bool, alive: bool },
    /// Nobody is left who could ask for work.
    Abandoned,
}

/// What the poster thread does then.
pub struct Reaction {
    /// A message to post.
    pub posted: Option<String>,
    /// What to tell the console before that.
    pub told: Option<String>,
    /// Whether to go on waiting for work.
    pub goes_on: bool,
}

/// What the poster thread posts, if anything.
pub open spec fn posts(wake: Wake) -> Option<Seq<char>> {
    match wake {
        Wake::Work(work) => Some(rendered(message_tree(work@))),
        Wake::Idle { detached: false, alive: false } => Some(
            rendered(message_tree(ToAgentView::Asking(false))),
        ),
        _ => None,
    }
}

/// Whether the poster thread has noticed that Coderpack is dead.
pub open spec fn bereft(wake: Wake) -> bool {
    wake matches Wake::Idle { detached, alive } && !detached && !alive
}

/// Whether the poster thread goes on.
pub open spec fn carries_on(wake: Wake) -> bool {
    match wake {
        Wake::Work(_) => true,
        Wake::Idle { detached, alive } => !detached && alive,
        Wake::Abandoned => false,
    }
}

/// One turn of the loop. A dead Coderpack must not hang the game, so the agent is
/// told to stop asking; it keeps observing.
pub fn pump(wake: Wake) -> (reaction: Reaction)
    ensures
        match posts(wake) {
            Some(text) => reaction.posted is Some && reaction.posted->0@ == text,
            None => reaction.posted is None,
        },
        reaction.told is Some == bereft(wake),
        bereft(wake) ==> reaction.told->0@
            == "[host] Coderpack stopped. Continuing in observe-only mode"@,
        reaction.goes_on == carries_on(wake),
{
    match wake {
        Wake::Work(work) => Reaction { posted: Some(message(&work)), told: None, goes_on: true },
        Wake::Idle { detached, alive } => if detached {
            Reaction { posted: None, told: None, goes_on: false }
        } else if !alive {
            Reaction {
                posted: Some(message(&ToAgent::Asking(false))),
                told: Some("[host] Coderpack stopped. Continuing in observe-only mode".to_owned()),
                goes_on: false,
            }
        } else {
            Reaction { posted: None, told: None, goes_on: true }
        },
        Wake::Abandoned => Reaction { posted: None, told: None, goes_on: false },
    }
}

} // verus!
