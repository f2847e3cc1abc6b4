//! Settings of an engine server process (one symbol per process).
use vstd::prelude::*;

use crate::text::{dec, push_dec};

verus! {

/// Command-line settings of an engine server.
#[derive(Debug)]
pub struct Args {
    /// Symbol this engine trades.
    pub symbol_id: u32,
    /// Symbol name, for logs.
    pub symbol_name: String,
    /// Address the gateway connects to.
    pub listen_addr: String,
    /// Admin HTTP address.
    pub admin_addr: String,
    /// Journal file, when not the symbol's default.
    pub journal_path: Option<String>,
    /// Snapshot directory, when not the symbol's default.
    pub snapshot_dir: Option<String>,
    /// Commands buffered before an fsync.
    pub journal_batch_size: usize,
    /// Commands between snapshots.
    pub snapshot_interval: u64,
    /// Largest framed payload.
    pub max_frame: usize,
    /// Capacity of the engine's ingress queue.
    pub ingress_cap: usize,
}

/// The default journal path of a symbol.
pub open spec fn default_journal_path(symbol_id: u32) -> Seq<char> {
    "journal/engine_"@ + dec(symbol_id as nat) + "_journal.bin"@
}

/// The default snapshot directory of a symbol.
pub open spec fn default_snapshot_dir(symbol_id: u32) -> Seq<char> {
    "journal/engine_"@ + dec(symbol_id as nat) + "_snapshots"@
}

impl Args {
    /// The journal path: the one given, else the symbol's default.
    pub fn get_journal_path(&self) -> (r: String)
        ensures
            r@ == match self.journal_path {
                Some(p) => p@,
                None => default_journal_path(self.symbol_id),
            },
    {
        match &self.journal_path {
            Some(p) => p.clone(),
            None => {
                let mut out = String::from_str("journal/engine_");
                push_dec(&mut out, self.symbol_id as u64);
                out.append("_journal.bin");
                out
            },
        }
    }

    /// The snapshot directory: the one given, else the symbol's default.
    pub fn get_snapshot_dir(&self) -> (r: String)
        ensures
            r@ == match self.snapshot_dir {
                Some(p) => p@,
                None => default_snapshot_dir(self.symbol_id),
            },
    {
        match &self.snapshot_dir {
            Some(p) => p.clone(),
            None => {
                let mut out = String::from_str("journal/engine_");
                push_dec(&mut out, self.symbol_id as u64);
                out.append("_snapshots");
                out
            },
        }
    }
}

} // verus!
