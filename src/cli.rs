//! The program's own settings, as given on its command line.

use vstd::prelude::*;

verus! {

/// The daemon to call, the check to run, and the arguments forwarded to it.
pub struct Cli {
    pub host: String,
    pub port: u32,
    pub command: String,
    pub insecure: bool,
    pub timeout: u32,
    pub forward_args: Vec<String>,
}

impl Default for Cli {
    /// `localhost`, port 5668, no command, certificates checked, a timeout of
    /// 60 seconds and nothing to forward.
    fn default() -> (r: Cli)
        ensures
            r.host@ == "localhost"@,
            r.port == 5668,
            r.command@ == Seq::<char>::empty(),
            !r.insecure,
            r.timeout == 60,
            r.forward_args@ == Seq::<String>::empty(),
    {
        Cli {
            host: "localhost".to_owned(),
            port: 5668,
            command: String::new(),
            insecure: false,
            timeout: 60,
            forward_args: Vec::new(),
        }
    }
}

} // verus!
