//! What a light wallet says to its hub when a connection opens, and how it
//! answers what the hub says and asks.

use crate::config::{ALT, LIBRARY, LIBRARY_VERSION, VERSION};
use vstd::prelude::*;

verus! {

/// Name under which the wallet announces itself.
pub const PROGRAM: &'static str = "rust-trustnote-ttt";

/// Version under which the wallet announces itself.
pub const PROGRAM_VERSION: &'static str = "0.1.0";

/// State that a wallet keeps for a connection; it keeps none.
#[derive(Clone, Copy, Debug, PartialEq, Eq, Default)]
pub struct WalletData {}

/// What a peer announces of itself when a connection opens.
#[derive(Debug, PartialEq, Eq)]
pub struct VersionInfo {
    pub protocol_version: String,
    pub alt: String,
    pub library: String,
    pub library_version: String,
    pub program: String,
    pub program_version: String,
}

/// A message that a peer sends without waiting for an answer.
#[derive(Clone, Copy, Debug, PartialEq, Eq, Structural)]
pub enum Notice {
    /// The peer announces its version.
    Version,
    /// The peer is a hub and asks the wallet to log in.
    HubChallenge,
    /// Anything else; it is not acted on.
    Unknown,
}

/// A request that a peer sends and waits to have answered.
#[derive(Clone, Copy, Debug, PartialEq, Eq, Structural)]
pub enum Request {
    /// The peer checks that the connection is alive.
    Heartbeat,
    /// The peer asks to be told of new units.
    Subscribe,
    /// Anything else.
    Unknown,
}

/// How a wallet answers a request.
#[derive(Clone, Copy, Debug, PartialEq, Eq, Structural)]
pub enum Answer {
    /// An empty answer.
    Null,
    /// A light wallet cannot tell others of new units.
    CannotSubscribe,
    /// The wallet does not know the request.
    UnknownCommand,
}

/// The notice with the subject `subject`.
pub open spec fn notice_of(subject: Seq<char>) -> Notice {
    if subject == "version"@ {
        Notice::Version
    } else if subject == "hub/challenge"@ {
        Notice::HubChallenge
    } else {
        Notice::Unknown
    }
}

/// The request with the name `command`.
pub open spec fn request_of(command: Seq<char>) -> Request {
    if command == "heartbeat"@ {
        Request::Heartbeat
    } else if command == "subscribe"@ {
        Request::Subscribe
    } else {
        Request::Unknown
    }
}

/// How a wallet answers `request`: a heartbeat with an empty answer,
/// everything else with a refusal.
pub open spec fn answer_to(request: Request) -> Answer {
    match request {
        Request::Heartbeat => Answer::Null,
        Request::Subscribe => Answer::CannotSubscribe,
        Request::Unknown => Answer::UnknownCommand,
    }
}

impl WalletData {
    /// What the wallet announces of itself when a connection opens.
    pub fn send_version() -> (r: VersionInfo)
        ensures
            r.protocol_version@ == VERSION@,
            r.alt@ == ALT@,
            r.library@ == LIBRARY@,
            r.library_version@ == LIBRARY_VERSION@,
            r.program@ == PROGRAM@,
            r.program_version@ == PROGRAM_VERSION@,
    {
        VersionInfo {
            protocol_version: VERSION.to_owned(),
            alt: ALT.to_owned(),
            library: LIBRARY.to_owned(),
            library_version: LIBRARY_VERSION.to_owned(),
            program: PROGRAM.to_owned(),
            program_version: PROGRAM_VERSION.to_owned(),
        }
    }

    /// Whether a peer that announces `version` speaks this node's protocol
    /// on this node's network.
    pub fn on_version(version: &VersionInfo) -> (r: bool)
        ensures
            r == (version.protocol_version@ == VERSION@ && version.alt@ == ALT@),
    {
        version.protocol_version == VERSION.to_owned() && version.alt == ALT.to_owned()
    }

    /// Which notice a message with the subject `subject` is.
    pub fn on_message(subject: &String) -> (r: Notice)
        ensures
            r == notice_of(subject@),
    {
        if *subject == "version".to_owned() {
            Notice::Version
        } else if *subject == "hub/challenge".to_owned() {
            Notice::HubChallenge
        } else {
            Notice::Unknown
        }
    }

    /// How the wallet answers the request named `command`.
    pub fn on_request(command: &String) -> (r: Answer)
        ensures
            r == answer_to(request_of(command@)),
    {
        if *command == "heartbeat".to_owned() {
            Answer::Null
        } else if *command == "subscribe".to_owned() {
            Answer::CannotSubscribe
        } else {
            Answer::UnknownCommand
        }
    }
}

} // verus!
