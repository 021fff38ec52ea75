//! The command-line arguments of the load balancer.

use vstd::prelude::*;

verus! {

/// The options the program is started with.
#[derive(Debug)]
pub struct CliArgs {
    pub config: String,
    pub daemon: bool,
    pub verbose: u8,
}

} // verus!
