//! The durable changeset store, modeled as the append-only record list the
//! engine reads and writes. Turning this list into bytes on disk is an
//! external concern; the engine's persistence contract is stated here.

use vstd::prelude::*;

use crate::types::{CanonicalTx, LocalOutput, Network, Tip};

verus! {

/// One append-only record: the full wallet state as of one persist.
///
/// A record carries everything needed to rehydrate a wallet: the descriptor
/// pair (as canonical descriptor strings, held as bytes), the network, the
/// revealed high-water index of each keychain, the output set, the known
/// transactions and the chain tip.
#[derive(Clone, Debug)]
pub struct ChangeSet {
    pub descriptor: Vec<u8>,
    pub change_descriptor: Vec<u8>,
    pub network: Network,
    pub next_external_index: u32,
    pub next_internal_index: u32,
    pub outputs: Vec<LocalOutput>,
    pub txs: Vec<CanonicalTx>,
    pub tip: Option<Tip>,
}

/// An append-only store of changesets. Records are only ever appended;
/// nothing is rewritten or dropped.
#[derive(Debug)]
pub struct Connection {
    pub changesets: Vec<ChangeSet>,
}

impl Connection {
    /// An empty store, holding no wallet yet.
    pub fn new() -> (r: Connection)
        ensures
            r.changesets@.len() == 0,
    {
        Connection { changesets: Vec::new() }
    }
}

} // verus!
