//! The values the command line supplies: a bind address, a port and the
//! root directory to serve and watch.

use vstd::prelude::*;

verus! {

/// The three positional arguments of the program.
pub struct Cli {
    /// local ip address (typically 127.0.0.1)
    pub ip: String,
    /// localhost port to listen to (typically 8000 or 8080)
    pub port: u16,
    /// path to listen to (./ indicates the current folder)
    pub path: String,
}

impl Cli {
    /// Bundle already-parsed argument values.
    pub fn new(ip: String, port: u16, path: String) -> (r: Cli)
        ensures
            r.ip@ == ip@,
            r.port == port,
            r.path@ == path@,
    {
        Cli { ip, port, path }
    }
}

} // verus!
