//! Transactions and their lifecycle.

use vstd::prelude::*;
use crate::row::RowID;

verus! {

/// Where a transaction stands. `Committed` and `Aborted` are final.
#[derive(Clone, Copy, Debug, PartialEq, Eq, Structural)]
pub enum TxState {
    Active,
    Committed,
    Aborted,
}

/// The store's record of one transaction.
#[derive(Debug)]
pub struct Transaction {
    pub tx_id: u64,
    pub snapshot_ts: u64,
    pub state: TxState,
    pub write_set: Vec<RowID>,
    pub commit_ts: Option<u64>,
}

/// The mathematical value of a [`Transaction`].
pub struct TxView {
    pub tx_id: u64,
    pub snapshot_ts: u64,
    pub state: TxState,
    pub write_set: Seq<RowID>,
    pub commit_ts: Option<u64>,
}

impl View for Transaction {
    type V = TxView;

    open spec fn view(&self) -> TxView {
        TxView {
            tx_id: self.tx_id,
            snapshot_ts: self.snapshot_ts,
            state: self.state,
            write_set: self.write_set@,
            commit_ts: self.commit_ts,
        }
    }
}

/// The views of a list of transaction records.
pub open spec fn tx_views(txs: Seq<Transaction>) -> Seq<TxView> {
    txs.map_values(|t: Transaction| t@)
}

/// A transaction that has just begun with the given snapshot.
pub open spec fn begun(tx_id: u64, snapshot_ts: u64) -> TxView {
    TxView {
        tx_id,
        snapshot_ts,
        state: TxState::Active,
        write_set: Seq::empty(),
        commit_ts: None,
    }
}

/// The write set after the transaction wrote row `id`.
pub open spec fn noted(write_set: Seq<RowID>, id: RowID) -> Seq<RowID> {
    if write_set.contains(id) {
        write_set
    } else {
        write_set.push(id)
    }
}

impl Transaction {
    /// The record of a transaction that begins with snapshot `snapshot_ts`.
    pub fn begin(tx_id: u64, snapshot_ts: u64) -> (tx: Transaction)
        ensures
            tx@ == begun(tx_id, snapshot_ts),
    {
        Transaction {
            tx_id,
            snapshot_ts,
            state: TxState::Active,
            write_set: Vec::new(),
            commit_ts: None,
        }
    }

    /// Whether the transaction may still read and write.
    pub fn is_active(&self) -> (active: bool)
        ensures
            active == (self@.state == TxState::Active),
    {
        match self.state {
            TxState::Active => true,
            _ => false,
        }
    }

    /// Whether the transaction wrote row `id`.
    pub fn wrote(&self, id: RowID) -> (found: bool)
        ensures
            found == self@.write_set.contains(id),
    {
        let mut k: usize = 0;
        while k < self.write_set.len()
            invariant
                k <= self.write_set.len(),
                forall|m: int| 0 <= m < k ==> self.write_set@[m] != id,
            decreases self.write_set.len() - k,
        {
            if self.write_set[k] == id {
                return true;
            }
            k += 1;
        }
        false
    }

    /// Adds row `id` to the write set.
    pub fn note_write(&mut self, id: RowID)
        ensures
            final(self)@ == (TxView { write_set: noted(old(self)@.write_set, id), ..old(self)@ }),
    {
        if !self.wrote(id) {
            self.write_set.push(id);
        }
    }
}

} // verus!
