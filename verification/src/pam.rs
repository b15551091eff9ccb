//! The decision that the host's authentication asks for: may this user
//! come in?

use crate::nss::seen;
use crate::roster::{Roster, RosterView};
use crate::status::Failure;
use vstd::prelude::*;

verus! {

/// Whether the user `user` is authorized: the answer is yes where some
/// member of the roster has this login name, letter for letter, and no
/// where none has. Where the directory could not be asked there is no
/// answer, which is not a no.
pub open spec fn authorized(roster: Option<RosterView>, user: Seq<char>) -> Result<bool, Failure> {
    match roster {
        Some(members) => Ok(members.has_login(user)),
        None => Err(Failure::Unavailable),
    }
}

/// Whether the user `user` is authorized.
pub fn check_pam(roster: Option<&Roster>, user: &str) -> (decision: Result<bool, Failure>)
    ensures
        decision == authorized(seen(roster), user@),
{
    match roster {
        Some(members) => Ok(members.contains(user)),
        None => Err(Failure::Unavailable),
    }
}

} // verus!
