//! The abstract state of the store and the effect of every operation on it.

use vstd::prelude::*;
use crate::error::MvccError;
use crate::row::{RowID, RowView};
use crate::transaction::{begun, noted, TxState, TxView};
use crate::version::{
    discarded_all, finalized_all, has_commit_after, pending_owner, pending_version, reclaimed_all,
    row_seen, written, ChainView, VersionView,
};

verus! {

/// The store as a mathematical value: the latest timestamp issued, every
/// transaction ever begun (a transaction's id is its index), and one version
/// chain per row identity, in the order in which the rows were inserted.
pub struct StoreView {
    pub latest: u64,
    pub txs: Seq<TxView>,
    pub rows: Seq<ChainView>,
}

/// The oldest snapshot among the active transactions, if any is active.
pub open spec fn oldest_active_snapshot(txs: Seq<TxView>) -> Option<u64>
    decreases txs.len(),
{
    if txs.len() == 0 {
        None
    } else {
        let rest = oldest_active_snapshot(txs.drop_last());
        let t = txs.last();
        if t.state == TxState::Active {
            match rest {
                Some(w) => Some(if t.snapshot_ts < w { t.snapshot_ts } else { w }),
                None => Some(t.snapshot_ts),
            }
        } else {
            rest
        }
    }
}

/// Whether one of the chains has the identity `id`.
pub open spec fn holds_row(rows: Seq<ChainView>, id: RowID) -> bool {
    exists|i: int| 0 <= i < rows.len() && (#[trigger] rows[i]).id == id
}

/// Where the chain with the identity `id` stands.
pub open spec fn position_of(rows: Seq<ChainView>, id: RowID) -> int {
    choose|i: int| 0 <= i < rows.len() && (#[trigger] rows[i]).id == id
}

/// The test for an identity to belong to table `table_id`.
pub open spec fn in_table(table_id: u64) -> spec_fn(RowID) -> bool {
    |id: RowID| id.table_id == table_id
}

/// The identities of the chains that belong to table `table_id`, in order.
pub open spec fn ids_in_table(rows: Seq<ChainView>, table_id: u64) -> Seq<RowID> {
    rows.map_values(|c: ChainView| c.id).filter(in_table(table_id))
}

impl StoreView {
    /// A store without transactions and rows.
    pub open spec fn empty(latest: u64) -> StoreView {
        StoreView { latest, txs: Seq::empty(), rows: Seq::empty() }
    }

    /// Whether a transaction with this id was ever begun.
    pub open spec fn knows(self, tx_id: u64) -> bool {
        tx_id < self.txs.len()
    }

    /// Whether the transaction exists and is active.
    pub open spec fn is_active(self, tx_id: u64) -> bool {
        self.knows(tx_id) && self.txs[tx_id as int].state == TxState::Active
    }

    /// Whether a row with this identity was ever inserted.
    pub open spec fn has_row(self, id: RowID) -> bool {
        holds_row(self.rows, id)
    }

    /// Where the chain of row `id` stands.
    pub open spec fn position(self, id: RowID) -> int {
        position_of(self.rows, id)
    }

    /// The versions of row `id`, oldest first; empty for an unknown row.
    pub open spec fn chain(self, id: RowID) -> Seq<VersionView> {
        if self.has_row(id) {
            self.rows[self.position(id)].versions
        } else {
            Seq::empty()
        }
    }

    /// What transaction `tx_id` reads for row `id`.
    pub open spec fn seen(self, tx_id: u64, id: RowID) -> Option<RowView> {
        row_seen(self.chain(id), tx_id, self.txs[tx_id as int].snapshot_ts)
    }

    /// The identities of the rows of one table, in insertion order.
    pub open spec fn table_row_ids(self, table_id: u64) -> Seq<RowID> {
        ids_in_table(self.rows, table_id)
    }

    /// The state after a transaction began with snapshot `ts`.
    pub open spec fn after_begin(self, ts: u64) -> StoreView {
        StoreView { latest: ts, txs: self.txs.push(begun(self.txs.len() as u64, ts)), ..self }
    }

    /// The transaction record after it wrote row `id`.
    pub open spec fn tx_after_write(self, tx_id: u64, id: RowID) -> TxView {
        let t = self.txs[tx_id as int];
        TxView { write_set: noted(t.write_set, id), ..t }
    }

    /// How an insert of a row with identity `id` by `tx_id` ends.
    pub open spec fn insert_outcome(self, tx_id: u64, id: RowID) -> Result<RowID, MvccError> {
        if !self.is_active(tx_id) {
            Err(MvccError::InvalidTransactionState)
        } else if self.has_row(id) {
            Err(MvccError::DuplicateKey)
        } else {
            Ok(id)
        }
    }

    /// The state after `tx_id` inserted `row`.
    pub open spec fn after_insert(self, tx_id: u64, row: RowView) -> StoreView {
        StoreView {
            txs: self.txs.update(tx_id as int, self.tx_after_write(tx_id, row.id)),
            rows: self.rows.push(
                ChainView { id: row.id, versions: seq![pending_version(row.id, tx_id, Some(row))] },
            ),
            ..self
        }
    }

    /// How an update or a delete of row `id` by `tx_id` ends.
    pub open spec fn write_outcome(self, tx_id: u64, id: RowID) -> Result<(), MvccError> {
        if !self.is_active(tx_id) {
            Err(MvccError::InvalidTransactionState)
        } else if self.seen(tx_id, id) is None {
            Err(MvccError::NotFound)
        } else if pending_owner(self.chain(id)) is Some && pending_owner(self.chain(id)) != Some(
            tx_id,
        ) {
            Err(MvccError::WriteConflict)
        } else {
            Ok(())
        }
    }

    /// The state after `tx_id` wrote `data` to the existing row `id`; `None`
    /// deletes the row.
    pub open spec fn after_write(self, tx_id: u64, id: RowID, data: Option<RowView>) -> StoreView {
        let i = self.position(id);
        StoreView {
            txs: self.txs.update(tx_id as int, self.tx_after_write(tx_id, id)),
            rows: self.rows.update(
                i,
                ChainView { id, versions: written(self.rows[i].versions, id, tx_id, data) },
            ),
            ..self
        }
    }

    /// Whether a row that `tx_id` wrote has a version committed after the
    /// transaction's snapshot.
    pub open spec fn has_conflict(self, tx_id: u64) -> bool {
        let t = self.txs[tx_id as int];
        exists|k: int|
            0 <= k < t.write_set.len() && has_commit_after(
                self.chain(#[trigger] t.write_set[k]),
                t.snapshot_ts,
            )
    }

    /// The state after `tx_id` committed at `ts`.
    pub open spec fn after_commit(self, tx_id: u64, ts: u64) -> StoreView {
        StoreView {
            latest: ts,
            txs: self.txs.update(
                tx_id as int,
                TxView {
                    state: TxState::Committed,
                    commit_ts: Some(ts),
                    ..self.txs[tx_id as int]
                },
            ),
            rows: finalized_all(self.rows, tx_id, ts),
        }
    }

    /// The state after `tx_id` aborted.
    pub open spec fn after_abort(self, tx_id: u64) -> StoreView {
        StoreView {
            txs: self.txs.update(
                tx_id as int,
                TxView { state: TxState::Aborted, ..self.txs[tx_id as int] },
            ),
            rows: discarded_all(self.rows, tx_id),
            ..self
        }
    }

    /// The watermark of garbage collection: the oldest active snapshot.
    pub open spec fn watermark(self) -> Option<u64> {
        oldest_active_snapshot(self.txs)
    }

    /// The state after a collection cycle. With `purge`, the cycle also
    /// reclaims tombstones that nothing superseded, where no transaction is
    /// active.
    pub open spec fn after_gc(self, purge: bool) -> StoreView {
        StoreView { rows: reclaimed_all(self.rows, self.watermark(), purge), ..self }
    }
}

/// One operation on the store, with what the clock hands out where the
/// operation asks it for a timestamp.
pub enum Op {
    Begin { ts: u64 },
    Insert { tx_id: u64, row: RowView },
    Update { tx_id: u64, id: RowID, columns: Seq<i64> },
    Delete { tx_id: u64, id: RowID },
    Commit { tx_id: u64, ts: u64 },
    Abort { tx_id: u64 },
    CollectGarbage { purge: bool },
}

impl Op {
    /// The transaction on whose behalf the operation runs.
    pub open spec fn actor(self) -> Option<u64> {
        match self {
            Op::Begin { .. } => None,
            Op::Insert { tx_id, .. } => Some(tx_id),
            Op::Update { tx_id, .. } => Some(tx_id),
            Op::Delete { tx_id, .. } => Some(tx_id),
            Op::Commit { tx_id, .. } => Some(tx_id),
            Op::Abort { tx_id } => Some(tx_id),
            Op::CollectGarbage { .. } => None,
        }
    }

    /// Whether the timestamp that the operation carries is one that the
    /// clock can issue in state `s`: it is later than every earlier one.
    pub open spec fn timely(self, s: StoreView) -> bool {
        match self {
            Op::Begin { ts } => ts > s.latest,
            Op::Commit { ts, .. } => ts > s.latest,
            _ => true,
        }
    }
}

impl StoreView {
    /// The state after one operation. An operation that is refused leaves the
    /// state as it is, except a commit refused for a conflict, which aborts.
    pub open spec fn step(self, op: Op) -> StoreView {
        match op {
            Op::Begin { ts } => self.after_begin(ts),
            Op::Insert { tx_id, row } => if self.insert_outcome(tx_id, row.id) is Ok {
                self.after_insert(tx_id, row)
            } else {
                self
            },
            Op::Update { tx_id, id, columns } => if self.write_outcome(tx_id, id) is Ok {
                self.after_write(tx_id, id, Some(RowView { id, columns }))
            } else {
                self
            },
            Op::Delete { tx_id, id } => if self.write_outcome(tx_id, id) is Ok {
                self.after_write(tx_id, id, None)
            } else {
                self
            },
            Op::Commit { tx_id, ts } => if !self.is_active(tx_id) {
                self
            } else if self.has_conflict(tx_id) {
                self.after_abort(tx_id)
            } else {
                self.after_commit(tx_id, ts)
            },
            Op::Abort { tx_id } => if self.is_active(tx_id) {
                self.after_abort(tx_id)
            } else {
                self
            },
            Op::CollectGarbage { purge } => self.after_gc(purge),
        }
    }

    /// The state after a sequence of operations.
    pub open spec fn run(self, ops: Seq<Op>) -> StoreView
        decreases ops.len(),
    {
        if ops.len() == 0 {
            self
        } else {
            self.run(ops.drop_last()).step(ops.last())
        }
    }

    /// Whether every operation of the sequence carries a timestamp that the
    /// clock can issue when the operation runs.
    pub open spec fn timely(self, ops: Seq<Op>) -> bool
        decreases ops.len(),
    {
        ops.len() > 0 ==> self.timely(ops.drop_last()) && ops.last().timely(
            self.run(ops.drop_last()),
        )
    }
}

} // verus!
