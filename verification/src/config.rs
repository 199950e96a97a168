//! The server's settings.
use vstd::prelude::*;

verus! {

/// Where the server listens.
#[derive(Debug, Clone)]
pub struct Config {
    pub host: String,
    pub port: u16,
}

impl Default for Config {
    /// Listens on `127.0.0.1`, port 7000.
    fn default() -> (c: Self)
        ensures
            c.host@ == "127.0.0.1"@,
            c.port == 7000,
    {
        Config { host: String::from_str("127.0.0.1"), port: 7000 }
    }
}

} // verus!
