//! Settings of the gateway process: its addresses and persistence, and the
//! engines it routes to.
use std::time::Duration;

use vstd::prelude::*;

use crate::types::SymbolId;

verus! {

/// Command-line settings of the gateway.
#[derive(Debug)]
pub struct Args {
    /// Address of the binary client protocol.
    pub client_binary_addr: String,
    /// Address of the JSON client protocol.
    pub client_json_addr: String,
    /// Admin HTTP address.
    pub admin_addr: String,
    /// Account journal file.
    pub journal_path: String,
    /// Account snapshot directory.
    pub snapshot_dir: String,
    /// Updates buffered before an fsync.
    pub journal_batch_size: usize,
    /// Commands between snapshots.
    pub snapshot_interval: u64,
    /// Capacity of the ingress channel.
    pub ingress_cap: usize,
    /// Largest frame.
    pub max_frame: usize,
    /// File listing the engines.
    pub engines_config: String,
}

/// One engine: the symbol it trades and where it listens.
#[derive(Clone, Debug)]
pub struct EngineConfig {
    pub symbol_id: SymbolId,
    pub symbol_name: String,
    /// `host:port`.
    pub address: String,
}

/// Every engine the gateway routes to.
#[derive(Clone, Debug)]
pub struct EnginesConfig {
    pub engines: Vec<EngineConfig>,
}

/// How the account journal batches its writes.
#[derive(Clone, Copy, Debug)]
pub struct JournalConfig {
    pub batch_size: usize,
    pub sync_interval: Duration,
}

impl Default for JournalConfig {
    fn default() -> (c: Self)
        ensures
            c.batch_size == 100,
            c.sync_interval == crate::persistence::duration_ms(100),
    {
        JournalConfig { batch_size: 100, sync_interval: crate::persistence::duration_from_millis(100) }
    }
}

/// Counters of the account journal.
#[derive(Clone, Copy, Debug)]
pub struct JournalStats {
    pub updates_written: u64,
    pub pending_batch_size: usize,
}

} // verus!
