//! Protocol constants and the node's settings.

use crate::text::{opt_text, texts};
use vstd::prelude::*;

verus! {

/// Number of witnesses in every witness list.
pub const COUNT_WITNESSES: usize = 12;

/// Largest number of units a single history response may cover.
pub const MAX_HISTORY_ITEMS: usize = 1000;

/// Most parents a unit may name.
pub const MAX_PARENT_PER_UNIT: usize = 16;

/// Version of the protocol that this node speaks.
pub const VERSION: &'static str = "1.0";

/// Which network this node belongs to.
pub const ALT: &'static str = "1";

/// Name of this library.
pub const LIBRARY: &'static str = "rust-trustnote";

/// Version of this library.
pub const LIBRARY_VERSION: &'static str = "0.1.0";

/// The port a hub listens on where the settings name none.
pub const DEFAULT_HUB_SERVER_PORT: u16 = 6615;

/// What the node was set up with. It is made once, when the node starts,
/// and handed to whoever needs it; nothing changes it afterwards.
#[derive(Debug, PartialEq, Eq)]
pub struct Settings {
    /// The node's own witness list.
    pub witnesses: Option<Vec<String>>,
    /// The hash of the first unit of the ledger.
    pub genesis_unit: Option<String>,
    /// Address of the hub that a wallet connects to.
    pub remote_hub: Option<String>,
    /// Port on which a hub listens.
    pub hub_server_port: Option<u16>,
    /// Path of the database that a fresh node starts from.
    pub initial_db_path: Option<String>,
}

/// The mathematical reading of [`Settings`].
pub struct SettingsView {
    pub witnesses: Option<Seq<Seq<char>>>,
    pub genesis_unit: Option<Seq<char>>,
    pub remote_hub: Option<Seq<char>>,
    pub hub_server_port: Option<u16>,
    pub initial_db_path: Option<Seq<char>>,
}

impl View for Settings {
    type V = SettingsView;

    open spec fn view(&self) -> SettingsView {
        SettingsView {
            witnesses: match self.witnesses {
                Some(w) => Some(texts(w@)),
                None => None,
            },
            genesis_unit: opt_text(self.genesis_unit),
            remote_hub: opt_text(self.remote_hub),
            hub_server_port: self.hub_server_port,
            initial_db_path: opt_text(self.initial_db_path),
        }
    }
}

impl SettingsView {
    /// The settings name a witness list of the right length.
    pub open spec fn has_witnesses(self) -> bool {
        self.witnesses matches Some(w) && w.len() == COUNT_WITNESSES
    }
}

/// The node's witness list. The settings must name one, of twelve
/// addresses.
pub fn get_witnesses(settings: &Settings) -> (r: [String; 12])
    requires
        settings@.has_witnesses(),
    ensures
        texts(r@) == settings@.witnesses.unwrap(),
{
    let w = settings.witnesses.as_ref().unwrap();
    let r = [
        w[0].clone(),
        w[1].clone(),
        w[2].clone(),
        w[3].clone(),
        w[4].clone(),
        w[5].clone(),
        w[6].clone(),
        w[7].clone(),
        w[8].clone(),
        w[9].clone(),
        w[10].clone(),
        w[11].clone(),
    ];
    assert(texts(r@) =~= texts(w@));
    r
}

/// The hash of the first unit of the ledger. The settings must name it.
pub fn get_genesis_unit(settings: &Settings) -> (r: String)
    requires
        settings@.genesis_unit is Some,
    ensures
        r@ == settings@.genesis_unit.unwrap(),
{
    settings.genesis_unit.as_ref().unwrap().clone()
}

/// Address of the hub to connect to; `127.0.0.1:6655` where the settings
/// name none.
pub fn get_remote_hub_url(settings: &Settings) -> (r: String)
    ensures
        r@ == match settings@.remote_hub {
            Some(s) => s,
            None => "127.0.0.1:6655"@,
        },
{
    match &settings.remote_hub {
        Some(s) => s.clone(),
        None => "127.0.0.1:6655".to_owned(),
    }
}

/// Port on which the hub listens; 6615 where the settings name none.
pub fn get_hub_server_port(settings: &Settings) -> (r: u16)
    ensures
        r == match settings@.hub_server_port {
            Some(p) => p,
            None => DEFAULT_HUB_SERVER_PORT,
        },
{
    match settings.hub_server_port {
        Some(p) => p,
        None => DEFAULT_HUB_SERVER_PORT,
    }
}

/// Path of the database that a fresh node starts from;
/// `db/initial.trustnote.sqlite` where the settings name none.
pub fn get_initial_db_path(settings: &Settings) -> (r: String)
    ensures
        r@ == match settings@.initial_db_path {
            Some(s) => s,
            None => "db/initial.trustnote.sqlite"@,
        },
{
    match &settings.initial_db_path {
        Some(s) => s.clone(),
        None => "db/initial.trustnote.sqlite".to_owned(),
    }
}

} // verus!
