//! The settings of the server.
use vstd::prelude::*;

verus! {

/// The settings file of the server; it holds nothing yet.
#[derive(Debug)]
pub struct ConfigToml {}

/// The settings of the server.
#[derive(Debug)]
pub struct Config {}

/// The port the server listens on when it is built for debugging.
pub const PORT: u16 = 7707;

/// The name of the server's settings file when the command line names none.
pub const DEFAULT_CONFIG: &'static str = "config.toml";

impl Config {
    /// Creates the directories the server needs; there are none.
    pub fn create_dirs() -> (r: Result<(), std::io::Error>)
        ensures
            r is Ok,
    {
        Ok(())
    }
}

} // verus!
