//! What a request can come to, and how the host's resolver is told.

use vstd::prelude::*;

verus! {

/// One of the four outcomes that the resolver accepts from a source.
#[derive(Clone, Copy, Debug, PartialEq, Eq, Structural)]
pub enum NssStatus {
    /// A transient condition: the same request may succeed later.
    TryAgain,
    /// The source cannot answer now.
    Unavail,
    /// The record asked for does not exist.
    NotFound,
    /// The record was written.
    Success,
}

impl NssStatus {
    /// The integer that the resolver reads for this outcome.
    pub open spec fn code(self) -> libc::c_int {
        match self {
            NssStatus::TryAgain => -2i32,
            NssStatus::Unavail => -1i32,
            NssStatus::NotFound => 0i32,
            NssStatus::Success => 1i32,
        }
    }
}

impl From<NssStatus> for libc::c_int {
    /// The integer that the resolver reads for `status`.
    fn from(status: NssStatus) -> (raw: libc::c_int) {
        match status {
            NssStatus::TryAgain => -2,
            NssStatus::Unavail => -1,
            NssStatus::NotFound => 0,
            NssStatus::Success => 1,
        }
    }
}

impl vstd::std_specs::convert::FromSpecImpl<NssStatus> for libc::c_int {
    open spec fn obeys_from_spec() -> bool {
        true
    }

    open spec fn from_spec(status: NssStatus) -> libc::c_int {
        status.code()
    }
}

/// Why a request did not give a record.
#[derive(Clone, Copy, Debug, PartialEq, Eq, Structural)]
pub enum Failure {
    /// The caller's buffer is too small for the record. The caller may ask
    /// again with a larger one.
    OutOfSpace,
    /// There is no such user or group.
    NotFound,
    /// The directory could not be asked, or there is no enumeration under
    /// way.
    Unavailable,
    /// The enumeration has handed out its last record.
    Exhausted,
}

/// What a request came to: a record was written, or none was and why.
pub type Outcome = Result<(), Failure>;

/// The error number by which the host says that a result does not fit.
pub const RANGE_ERROR: libc::c_int = 34;

/// `nix::errno::Errno::ERANGE` as the integer that the host knows it by.
/// The contract claims that this integer is 34, which is what the C
/// library of every Linux target defines for `ERANGE`.
#[verifier::external_body]
fn range_error() -> (code: libc::c_int)
    ensures
        code == RANGE_ERROR,
{
    nix::errno::Errno::ERANGE as libc::c_int
}

/// The integer that the resolver is given for `outcome`: the code of one
/// of its four outcomes, where an enumeration that is exhausted counts as
/// a source that cannot answer, or, for a buffer that is too small, the
/// error number `ERANGE`.
pub open spec fn reply_code(outcome: Outcome) -> libc::c_int {
    match outcome {
        Ok(_) => NssStatus::Success.code(),
        Err(Failure::NotFound) => NssStatus::NotFound.code(),
        Err(Failure::Unavailable) => NssStatus::Unavail.code(),
        Err(Failure::Exhausted) => NssStatus::Unavail.code(),
        Err(Failure::OutOfSpace) => RANGE_ERROR,
    }
}

/// No outcome is reported as a transient condition: that code is kept in
/// reserve.
pub proof fn lemma_try_again_is_unused(outcome: Outcome)
    ensures
        reply_code(outcome) != NssStatus::TryAgain.code(),
        reply_code(outcome) == NssStatus::Success.code() <==> outcome is Ok,
{
}

/// The integer that the resolver is given for `outcome`.
pub fn reply(outcome: Outcome) -> (raw: libc::c_int)
    ensures
        raw == reply_code(outcome),
{
    match outcome {
        Ok(_) => libc::c_int::from(NssStatus::Success),
        Err(Failure::NotFound) => libc::c_int::from(NssStatus::NotFound),
        Err(Failure::Unavailable) => libc::c_int::from(NssStatus::Unavail),
        Err(Failure::Exhausted) => libc::c_int::from(NssStatus::Unavail),
        Err(Failure::OutOfSpace) => range_error(),
    }
}

} // verus!
