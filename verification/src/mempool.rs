//! The mempool: bounded batching of client transactions.
//!
//! Transactions arrive from clients and from gossip; a batch is cut when
//! the buffer reaches the size bound on a client push, or on a flush
//! tick with a non-empty buffer. Batch ids are strictly increasing and
//! an emitted batch is never empty.

use vstd::prelude::*;

use crate::types::Batch;
use crate::types::Tx;

verus! {

/// One input to the mempool.
pub enum MempoolEvent {
    /// A transaction submitted by a local client.
    ClientTx(Tx),
    /// A transaction received over gossip.
    GossipTx(Tx),
    /// The flush timer fired.
    FlushTick,
}

/// The batching state.
pub struct Mempool {
    pub cur: Vec<Tx>,
    pub batch_id: u64,
    pub max_batch_len: usize,
}

impl Mempool {
    pub open spec fn wf(&self) -> bool {
        &&& self.max_batch_len >= 1
        &&& self.batch_id >= 1
    }

    /// An empty buffer; the first batch will carry id 1.
    pub fn new(max_batch_len: usize) -> (r: Mempool)
        requires
            max_batch_len >= 1,
        ensures
            r.wf(),
            r.cur@.len() == 0,
            r.batch_id == 1,
            r.max_batch_len == max_batch_len,
    {
        Mempool { cur: Vec::new(), batch_id: 1, max_batch_len }
    }

    /// Feed one event; an emitted batch drains the whole buffer.
    ///
    /// A batch is emitted exactly when a client push fills the buffer to
    /// the bound, or a tick finds it non-empty; it is never empty, takes
    /// the current id, and the id then moves up by one.
    pub fn step(&mut self, event: MempoolEvent) -> (r: Option<Batch>)
        requires
            old(self).wf(),
            old(self).batch_id < u64::MAX,
        ensures
            final(self).wf(),
            final(self).max_batch_len == old(self).max_batch_len,
            match r {
                Some(b) => {
                    &&& b.txs@.len() > 0
                    &&& b.id == old(self).batch_id
                    &&& final(self).batch_id == old(self).batch_id + 1
                    &&& final(self).cur@.len() == 0
                },
                None => final(self).batch_id == old(self).batch_id,
            },
            match event {
                MempoolEvent::ClientTx(t) => {
                    if old(self).cur@.len() + 1 >= old(self).max_batch_len {
                        r matches Some(b) && b.txs@ == old(self).cur@.push(t)
                    } else {
                        r is None && final(self).cur@ == old(self).cur@.push(t)
                    }
                },
                MempoolEvent::GossipTx(t) => r is None && final(self).cur@ == old(
                    self,
                ).cur@.push(t),
                MempoolEvent::FlushTick => {
                    if old(self).cur@.len() > 0 {
                        r matches Some(b) && b.txs@ == old(self).cur@
                    } else {
                        r is None && final(self).cur@ == old(self).cur@
                    }
                },
            },
    {
        match event {
            MempoolEvent::ClientTx(t) => {
                self.cur.push(t);
                if self.cur.len() >= self.max_batch_len {
                    let mut txs: Vec<Tx> = Vec::new();
                    core::mem::swap(&mut txs, &mut self.cur);
                    let b = Batch { id: self.batch_id, txs };
                    self.batch_id = self.batch_id + 1;
                    Some(b)
                } else {
                    None
                }
            },
            MempoolEvent::GossipTx(t) => {
                self.cur.push(t);
                None
            },
            MempoolEvent::FlushTick => {
                if self.cur.len() > 0 {
                    let mut txs: Vec<Tx> = Vec::new();
                    core::mem::swap(&mut txs, &mut self.cur);
                    let b = Batch { id: self.batch_id, txs };
                    self.batch_id = self.batch_id + 1;
                    Some(b)
                } else {
                    None
                }
            },
        }
    }
}

} // verus!
