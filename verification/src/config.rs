//! Server configuration values, as plain strings.

use vstd::prelude::*;

verus! {

/// The default name of the configuration file.
pub const CONFIG_FILENAME: &'static str = "jwordlist.yaml";

/// What the hosting service needs to run: the path of the compressed
/// dictionary file, and the address to listen on.
#[derive(Debug, Clone, PartialEq)]
pub struct Config {
    pub jmdict_filename: String,
    pub listen_bind: String,
}

} // verus!
