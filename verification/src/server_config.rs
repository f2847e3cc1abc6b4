//! Settings of the single-process server, and its answer to a command the
//! engine's queue had no room for.
use vstd::prelude::*;

use crate::types::{Event, Reject, RejectReason};

verus! {

/// Command-line settings of the single-process server.
#[derive(Debug)]
pub struct Args {
    pub binary_addr: String,
    pub json_addr: String,
    pub admin_addr: String,
    pub journal_path: String,
    pub snapshot_dir: String,
    /// Commands buffered before an fsync.
    pub journal_batch_size: usize,
    /// Commands between snapshots.
    pub snapshot_interval: u64,
    /// Largest framed payload.
    pub max_frame: usize,
    /// Capacity of the engine's ingress queue.
    pub ingress_cap: usize,
}

/// The reject sent straight back when the engine's queue is full: it carries
/// the command's client sequence, no order and no server sequence.
pub fn overloaded_reject(client_seq: u64) -> (ev: Event)
    ensures
        ev == Event::Reject(Reject { server_seq: 0, client_seq, order_id: None, reason: RejectReason::Overloaded }),
{
    Event::Reject(Reject { server_seq: 0, client_seq, order_id: None, reason: RejectReason::Overloaded })
}

} // verus!
