use vstd::prelude::*;

verus! {

/// Topic chatted on when none is given.
pub const DEFAULT_TOPIC: &'static str = "chat";

/// The node's configuration, as parsed from the command line.
pub struct Opt {
    /// Verbosity level of the log.
    pub verbose: u8,
    /// File holding the key pair.
    pub keypair: Option<String>,
    /// Generate a new key pair (and write it to `keypair` when given).
    pub generate_key: bool,
    /// The topic to chat on.
    pub topic: String,
    /// Addresses of peers to contact, each `<multiaddr>/<peer id>`.
    pub peers: Option<Vec<String>>,
}

} // verus!
