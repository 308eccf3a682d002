//! Settings of a service that runs the assignment.

use vstd::prelude::*;

verus! {

/// The secret that signs tokens and the salt that seasons password hashes.
#[derive(Clone, Debug)]
pub struct Config {
    pub secret: String,
    pub salt: String,
}

impl Default for Config {
    /// The settings of a service that was given none.
    fn default() -> (r: Self)
        ensures
            r.secret@ == "mysecret"@,
            r.salt@ == "YmFzZXNhbHQ"@,
    {
        Config { secret: "mysecret".to_owned(), salt: "YmFzZXNhbHQ".to_owned() }
    }
}

} // verus!
