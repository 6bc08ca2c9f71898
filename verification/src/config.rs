//! Plain configuration and request records exchanged with the node's
//! surroundings.

use vstd::prelude::*;

verus! {

/// A node's static configuration.
#[derive(Clone, Debug)]
pub struct NodeConfig {
    pub rpc_addr: String,
    pub quic_addr: String,
    pub p2p_listen: String,
    pub node_id: u32,
    pub validators: String,
    pub validators_keys: String,
    pub node_sk: Option<String>,
    pub db_path: String,
}

/// A transfer as a client submits it.
#[derive(Clone, Debug)]
pub struct TransferReq {
    pub from: String,
    pub to: String,
    pub amount: u64,
}

/// The default amount of a transfer request that names none.
pub fn one() -> (r: u64)
    ensures
        r == 1,
{
    1
}

} // verus!
