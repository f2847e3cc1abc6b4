//! Process counters and their Prometheus text exposition.
use vstd::prelude::*;

use crate::text::{dec, dec_signed, push_dec, push_dec_signed};

verus! {

/// Counters of a server process. Counters wrap around as machine words do.
#[derive(Debug)]
pub struct Metrics {
    pub connections: u64,
    pub frames_in: u64,
    pub frames_out: u64,
    /// Fills emitted by the engine.
    pub fills_total: u64,
    /// Rejects emitted by the engine.
    pub rejects_total: u64,
    /// Commands waiting for the engine (a gauge: it goes up and down).
    pub engine_in_queue_depth: i64,
}

impl Default for Metrics {
    fn default() -> (m: Self)
        ensures
            m.connections == 0 && m.frames_in == 0 && m.frames_out == 0,
            m.fills_total == 0 && m.rejects_total == 0 && m.engine_in_queue_depth == 0,
    {
        Metrics {
            connections: 0,
            frames_in: 0,
            frames_out: 0,
            fills_total: 0,
            rejects_total: 0,
            engine_in_queue_depth: 0,
        }
    }
}

/// The Prometheus text of the counters of `m`: one `name value` line each.
pub open spec fn prom_text(m: Metrics) -> Seq<char> {
    "exchange_connections "@ + dec(m.connections as nat) + "\n            exchange_frames_in "@ + dec(
        m.frames_in as nat,
    ) + "\n            exchange_frames_out "@ + dec(m.frames_out as nat)
        + "\n            exchange_fills_total "@ + dec(m.fills_total as nat)
        + "\n            exchange_rejects_total "@ + dec(m.rejects_total as nat)
        + "\n            exchange_engine_in_queue_depth "@ + dec_signed(m.engine_in_queue_depth as int)
        + "\n            "@
}

impl Metrics {
    pub fn inc_connections(&mut self)
        ensures
            final(self).connections == old(self).connections.wrapping_add(1),
            final(self).frames_in == old(self).frames_in,
            final(self).frames_out == old(self).frames_out,
            final(self).fills_total == old(self).fills_total,
            final(self).rejects_total == old(self).rejects_total,
            final(self).engine_in_queue_depth == old(self).engine_in_queue_depth,
    {
        self.connections = self.connections.wrapping_add(1);
    }

    pub fn inc_frames_in(&mut self)
        ensures
            final(self).frames_in == old(self).frames_in.wrapping_add(1),
            final(self).connections == old(self).connections,
            final(self).frames_out == old(self).frames_out,
            final(self).fills_total == old(self).fills_total,
            final(self).rejects_total == old(self).rejects_total,
            final(self).engine_in_queue_depth == old(self).engine_in_queue_depth,
    {
        self.frames_in = self.frames_in.wrapping_add(1);
    }

    pub fn inc_frames_out(&mut self)
        ensures
            final(self).frames_out == old(self).frames_out.wrapping_add(1),
            final(self).connections == old(self).connections,
            final(self).frames_in == old(self).frames_in,
            final(self).fills_total == old(self).fills_total,
            final(self).rejects_total == old(self).rejects_total,
            final(self).engine_in_queue_depth == old(self).engine_in_queue_depth,
    {
        self.frames_out = self.frames_out.wrapping_add(1);
    }

    pub fn inc_fills(&mut self)
        ensures
            final(self).fills_total == old(self).fills_total.wrapping_add(1),
            final(self).connections == old(self).connections,
            final(self).frames_in == old(self).frames_in,
            final(self).frames_out == old(self).frames_out,
            final(self).rejects_total == old(self).rejects_total,
            final(self).engine_in_queue_depth == old(self).engine_in_queue_depth,
    {
        self.fills_total = self.fills_total.wrapping_add(1);
    }

    pub fn inc_rejects(&mut self)
        ensures
            final(self).rejects_total == old(self).rejects_total.wrapping_add(1),
            final(self).connections == old(self).connections,
            final(self).frames_in == old(self).frames_in,
            final(self).frames_out == old(self).frames_out,
            final(self).fills_total == old(self).fills_total,
            final(self).engine_in_queue_depth == old(self).engine_in_queue_depth,
    {
        self.rejects_total = self.rejects_total.wrapping_add(1);
    }

    pub fn queue_inc(&mut self)
        ensures
            final(self).engine_in_queue_depth == old(self).engine_in_queue_depth.wrapping_add(1),
            final(self).connections == old(self).connections,
            final(self).frames_in == old(self).frames_in,
            final(self).frames_out == old(self).frames_out,
            final(self).fills_total == old(self).fills_total,
            final(self).rejects_total == old(self).rejects_total,
    {
        self.engine_in_queue_depth = self.engine_in_queue_depth.wrapping_add(1);
    }

    pub fn queue_dec(&mut self)
        ensures
            final(self).engine_in_queue_depth == old(self).engine_in_queue_depth.wrapping_sub(1),
            final(self).connections == old(self).connections,
            final(self).frames_in == old(self).frames_in,
            final(self).frames_out == old(self).frames_out,
            final(self).fills_total == old(self).fills_total,
            final(self).rejects_total == old(self).rejects_total,
    {
        self.engine_in_queue_depth = self.engine_in_queue_depth.wrapping_sub(1);
    }

    /// The counters in Prometheus text format.
    pub fn render_prom_text(&self) -> (r: String)
        ensures
            r@ == prom_text(*self),
    {
        let mut out = String::from_str("exchange_connections ");
        push_dec(&mut out, self.connections);
        out.append("\n            exchange_frames_in ");
        push_dec(&mut out, self.frames_in);
        out.append("\n            exchange_frames_out ");
        push_dec(&mut out, self.frames_out);
        out.append("\n            exchange_fills_total ");
        push_dec(&mut out, self.fills_total);
        out.append("\n            exchange_rejects_total ");
        push_dec(&mut out, self.rejects_total);
        out.append("\n            exchange_engine_in_queue_depth ");
        push_dec_signed(&mut out, self.engine_in_queue_depth);
        out.append("\n            ");
        out
    }
}

/// Increments and decrements of the queue gauge cancel out.
pub proof fn lemma_queue_inc_dec(d: i64)
    ensures
        d.wrapping_add(1).wrapping_sub(1) == d,
{
}

} // verus!
