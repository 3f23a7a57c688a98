//! The command-line settings of the dashboard server.

use vstd::prelude::*;

verus! {

/// Where the server listens and which repository it analyzes.
#[derive(Debug, Clone)]
pub struct Args {
    /// Port to run the web server on.
    pub port: u16,
    /// Path to the git repository folder.
    pub path: String,
}

impl Default for Args {
    /// Port 8080 and the current folder.
    fn default() -> (a: Args)
        ensures
            a.port == 8080,
            a.path@ == seq!['.'],
    {
        let path = ".".to_owned();
        proof {
            reveal_strlit(".");
        }
        Args { port: 8080, path }
    }
}

} // verus!
