use vstd::prelude::*;
use vstd::slice::slice_subrange;
use crate::network::errors::NetworkError;
use crate::network::rpc::message::{Rpc, TransactionId, parse_rpc};
use crate::primitives::U256;

verus! {

/// Turns the outcome of reading a connection into a message: `read` is the
/// number of bytes read into `buffer`, or `None` when the read failed.
pub fn rpc_from_read(read: Option<usize>, buffer: &[u8]) -> (r: Result<Rpc, NetworkError>)
    requires
        read matches Some(n) ==> n <= buffer@.len(),
    ensures
        match read {
            None => r == Err::<Rpc, NetworkError>(NetworkError::Read),
            Some(n) => if n == 0 {
                r == Err::<Rpc, NetworkError>(NetworkError::Connection)
            } else {
                match parse_rpc(buffer@.take(n as int)) {
                    Some(m) => r is Ok && r->Ok_0@ == m,
                    None => r == Err::<Rpc, NetworkError>(NetworkError::CouldNotParseRPC),
                }
            },
        },
{
    let n = match read {
        Some(n) => {
            if n == 0 {
                return Err(NetworkError::Connection);
            }
            n
        },
        None => {
            return Err(NetworkError::Read);
        },
    };
    let received = slice_subrange(buffer, 0, n);
    assert(received@ =~= buffer@.take(n as int));
    match Rpc::from_bytes(received) {
        Some(r) => Ok(r),
        None => Err(NetworkError::CouldNotParseRPC),
    }
}

/// What a node does with a message that arrived on a connection.
#[derive(Debug)]
pub enum ConnectionAction {
    /// Answer a ping.
    Pong(TransactionId),
    /// Look up the nodes closest to the target.
    FindNode(TransactionId, U256),
    /// Look up a value, or the nodes closest to its key.
    FindValue(TransactionId, U256),
    /// Store a value.
    StoreValue(TransactionId, Vec<u8>),
    /// The peer finished a transaction of ours: release its id.
    ReleaseTransaction(TransactionId),
    /// Nothing to do.
    Ignore,
}

/// Decides what to do with the outcome of reading a connection.
pub fn dispatch(read: Result<Rpc, NetworkError>) -> (r: ConnectionAction)
    ensures
        match read {
            Ok(Rpc::Ping(t)) => r == ConnectionAction::Pong(t),
            Ok(Rpc::FindNode(t, target)) => r == ConnectionAction::FindNode(t, target),
            Ok(Rpc::FindValue(t, target)) => r == ConnectionAction::FindValue(t, target),
            Ok(Rpc::StoreValue(t, value)) => r == ConnectionAction::StoreValue(t, value),
            Ok(Rpc::Ack(t)) => r == ConnectionAction::ReleaseTransaction(t),
            Ok(Rpc::Error(t)) => r == ConnectionAction::ReleaseTransaction(t),
            _ => r == ConnectionAction::Ignore,
        },
{
    match read {
        Ok(Rpc::Ping(tx_id)) => ConnectionAction::Pong(tx_id),
        Ok(Rpc::FindNode(tx_id, target)) => ConnectionAction::FindNode(tx_id, target),
        Ok(Rpc::FindValue(tx_id, target)) => ConnectionAction::FindValue(tx_id, target),
        Ok(Rpc::StoreValue(tx_id, value)) => ConnectionAction::StoreValue(tx_id, value),
        Ok(Rpc::Ack(tx_id)) => ConnectionAction::ReleaseTransaction(tx_id),
        Ok(Rpc::Error(tx_id)) => ConnectionAction::ReleaseTransaction(tx_id),
        _ => ConnectionAction::Ignore,
    }
}

} // verus!
