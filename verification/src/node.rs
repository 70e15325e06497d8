use vstd::prelude::*;

use crate::io::Database2;

verus! {

/// What identifies a node among its peers: a number and an address text.
#[derive(Debug, Clone)]
pub struct NodeId {
    pub id: u128,
    pub address: String,
}

/// A handle around a storage backend, for the parts of a node that manage
/// communications.
pub struct Mng<D: Database2> {
    pub db: D,
}

} // verus!
