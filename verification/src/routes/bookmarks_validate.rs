//! Validation of one mirrored work against the upstream: a work that the
//! upstream no longer has is removed from the mirror.

use crate::mongodb::bookmarks::{expelled, holds};
use crate::mongodb::MongoDB;
use crate::routes::Response;
use vstd::prelude::*;

verus! {

/// What asking the upstream for a work came to.
pub enum Probe {
    /// The upstream does not have the work.
    NotFound,
    /// The upstream answered otherwise.
    Answered,
    /// The request failed; the text says how.
    Failed(String),
}

/// What a validation decides: the answer, and whether the work is to be
/// removed from the mirror.
pub struct Validation {
    pub response: Response<bool>,
    pub remove: bool,
}

/// What is decided of a mirrored work once the upstream was asked for it:
/// it is valid unless the upstream does not have it, and then it is to be
/// removed; a failed request is reported and decides nothing.
pub fn settle(probe: Probe) -> (decision: Validation)
    ensures
        match probe {
            Probe::NotFound => decision.response == Response::Data(false) && decision.remove,
            Probe::Answered => decision.response == Response::Data(true) && !decision.remove,
            Probe::Failed(text) => decision.response == Response::<bool>::Error(text)
                && !decision.remove,
        },
{
    match probe {
        Probe::NotFound => Validation { response: Response::Data(false), remove: true },
        Probe::Answered => Validation { response: Response::Data(true), remove: false },
        Probe::Failed(text) => Validation { response: Response::Error(text), remove: false },
    }
}

/// Validates the work with the id, given what asking the upstream for it
/// came to. A work that is not mirrored is not valid, whatever the upstream
/// says, and nothing is changed.
pub fn handler(bookmark_id: &String, mongodb: &mut MongoDB, probe: Probe) -> (response: Response<
    bool,
>)
    ensures
        !holds(old(mongodb)@.works, bookmark_id@) ==> response == Response::Data(false) && final(mongodb)@ == old(mongodb)@,
        holds(old(mongodb)@.works, bookmark_id@) ==> match probe {
            Probe::NotFound => response == Response::Data(false) && final(mongodb)@ == expelled(
                old(mongodb)@,
                bookmark_id@,
            ),
            Probe::Answered => response == Response::Data(true) && final(mongodb)@ == old(mongodb)@,
            Probe::Failed(text) => response == Response::<bool>::Error(text) && final(mongodb)@
                == old(mongodb)@,
        },
{
    if !mongodb.bookmarks.contains(bookmark_id) {
        return Response::Data(false);
    }
    let decision = settle(probe);
    if decision.remove {
        mongodb.bookmarks.delete(bookmark_id);
    }
    decision.response
}

} // verus!
