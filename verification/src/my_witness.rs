//! The node's own witness list, as it is kept in storage.

use crate::config::{Settings, COUNT_WITNESSES};
use crate::text::{clone_strings, texts};
use vstd::prelude::*;

verus! {

/// The node's witnesses, and whether they have yet to be written to
/// storage.
#[derive(Debug, PartialEq, Eq)]
pub struct MyWitnesses {
    pub witnesses: Vec<String>,
    /// True where storage held none and the list comes from the settings.
    pub to_store: bool,
}

/// The node's witness list, given the list `stored` that storage holds.
/// Where storage holds none, the list of the settings is taken and is to be
/// stored. A stored list has twelve entries, and so has the one of the
/// settings where it is needed.
pub fn read_my_witnesses(stored: Vec<String>, settings: &Settings) -> (r: MyWitnesses)
    requires
        stored.len() == 0 ==> settings@.has_witnesses(),
        stored.len() != 0 ==> stored.len() == COUNT_WITNESSES,
    ensures
        r.witnesses.len() == COUNT_WITNESSES,
        r.to_store == (stored.len() == 0),
        texts(r.witnesses@) == if stored.len() == 0 {
            settings@.witnesses.unwrap()
        } else {
            texts(stored@)
        },
{
    if stored.len() == 0 {
        let w = settings.witnesses.as_ref().unwrap();
        let witnesses = clone_strings(w);
        assert(texts(witnesses@).len() == witnesses.len());
        assert(texts(w@).len() == w.len());
        MyWitnesses { witnesses, to_store: true }
    } else {
        MyWitnesses { witnesses: stored, to_store: false }
    }
}

} // verus!
