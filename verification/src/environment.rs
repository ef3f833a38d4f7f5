//! What the dictionary's header takes from the machine it is made on: the
//! time, the user and the host.

use vstd::prelude::*;

verus! {

/// `chrono::Utc::now`, formatted by `format`: the current time in UTC as
/// text. Which text comes back depends on the clock, so nothing is claimed
/// of it. `format` is held to the one pattern that the header uses, which
/// chrono accepts.
#[verifier::external_body]
pub(crate) fn utc_now_text(format: &str) -> (text: String)
    requires
        format@ == "%Y-%m-%d %H:%M:%S"@,
{
    chrono::Utc::now().format(format).to_string()
}

/// `whoami::username`: the name of the user who runs the program, or
/// whoami's stand-in where the system names none. It depends on the
/// environment, so nothing is claimed of it.
#[verifier::external_body]
pub(crate) fn user_name() -> (name: String) {
    whoami::username()
}

/// `whoami::hostname`: the name of the machine in lower case, or whoami's
/// stand-in where the system names none. It depends on the environment, so
/// nothing is claimed of it.
#[verifier::external_body]
#[allow(deprecated)]
pub(crate) fn host_name() -> (name: String) {
    whoami::hostname()
}

} // verus!
