//! Plain values that the HTTP front end of the help queue works with.
use vstd::prelude::*;

use crate::help_queue::{Group, VoiceChannel};

verus! {

/// The domain the server announces when none is given.
pub const DEFAULT_DOMAIN: &'static str = "http://0.0.0.0";

/// The port the server listens on when none is given.
pub const DEFAULT_PORT: u16 = 80;

/// A request that the help queue handles.
#[derive(Debug)]
pub enum HelpQueueRequest {
    /// A group asks for help on a voice channel.
    Request((Group, VoiceChannel)),
    /// A helper, by name, serves the next group.
    Provide(String),
    /// A group withdraws its request.
    Dismiss(Group),
}

/// Where the server announces itself and which port it listens on.
#[derive(Debug, Clone)]
pub struct ServerArguments {
    pub domain: String,
    pub port: u16,
}

impl Default for ServerArguments {
    fn default() -> (r: ServerArguments)
        ensures
            r.domain@ == DEFAULT_DOMAIN@,
            r.port == DEFAULT_PORT,
    {
        ServerArguments { domain: DEFAULT_DOMAIN.to_owned(), port: DEFAULT_PORT }
    }
}

} // verus!
