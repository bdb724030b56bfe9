//! Process configuration, already parsed into plain values before the
//! core runs. Argument handling itself lives outside the library.

use vstd::prelude::*;

verus! {

/// Options supplied at startup: notification destination, credential,
/// operator identifier, tournament identifier, poll interval in
/// milliseconds, and the verbose flag.
#[derive(Debug)]
pub struct Config {
    pub webhook: String,
    pub secret: String,
    pub user: String,
    pub tournamentid: u64,
    pub poll: u64,
    pub verbose: bool,
}

} // verus!
