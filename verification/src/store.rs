//! The multi-version store: the transaction manager and the version store
//! behind one handle.

use vstd::prelude::*;
use crate::clock::LogicalClock;
use crate::consistency::{data_belongs, lemma_has_row, lemma_position};
use crate::error::MvccError;
use crate::laws::{lemma_reads_own_insert, lemma_reads_own_write};
use crate::model::{ids_in_table, in_table, oldest_active_snapshot, StoreView};
use crate::preservation::{
    lemma_abort_inv, lemma_begin_inv, lemma_commit_inv, lemma_empty_inv, lemma_gc_inv,
    lemma_insert_inv, lemma_write_finds_row, lemma_write_inv,
};
use crate::row::{view_opt, Row, RowID, RowView};
use crate::transaction::{tx_views, Transaction, TxState};
use crate::version::{
    chain_views, discard_all, finalize_all, has_commit_after, pending_owner, reclaim_all, ChainView,
    RowChain,
};

verus! {

/// A multi-version row store. Transactions are named by the id that
/// [`MvStore::begin`] hands out.
pub struct MvStore<Clock: LogicalClock> {
    clock: Clock,
    txs: Vec<Transaction>,
    rows: Vec<RowChain>,
}

/// The oldest snapshot among the active transactions of `txs`.
fn oldest_snapshot(txs: &Vec<Transaction>) -> (watermark: Option<u64>)
    ensures
        watermark == oldest_active_snapshot(tx_views(txs@)),
{
    let mut watermark: Option<u64> = None;
    let mut i: usize = 0;
    assert(tx_views(txs@).take(0) =~= Seq::empty());
    while i < txs.len()
        invariant
            i <= txs.len(),
            watermark == oldest_active_snapshot(tx_views(txs@).take(i as int)),
        decreases txs.len() - i,
    {
        proof {
            let upto = tx_views(txs@).take(i + 1);
            assert(upto.drop_last() =~= tx_views(txs@).take(i as int));
            assert(upto.last() == txs@[i as int]@);
        }
        if txs[i].is_active() {
            let snapshot_ts = txs[i].snapshot_ts;
            watermark = match watermark {
                Some(w) => Some(if snapshot_ts < w { snapshot_ts } else { w }),
                None => Some(snapshot_ts),
            };
        }
        i += 1;
    }
    assert(tx_views(txs@).take(txs.len() as int) =~= tx_views(txs@));
    watermark
}

impl<Clock: LogicalClock> MvStore<Clock> {
    /// The store as a mathematical value.
    pub closed spec fn view(&self) -> StoreView {
        StoreView {
            latest: self.clock.latest(),
            txs: tx_views(self.txs@),
            rows: chain_views(self.rows@),
        }
    }

    /// The clock from which the store takes its timestamps.
    pub closed spec fn clock(&self) -> Clock {
        self.clock
    }

    /// Whether the store is in a consistent state. Every operation keeps it
    /// so.
    pub open spec fn wf(&self) -> bool {
        &&& self@.inv()
        &&& self@.latest == self.clock().latest()
    }

    /// Whether the store's clock has no timestamp left.
    pub open spec fn clock_exhausted(&self) -> bool {
        self.clock().exhausted()
    }

    /// An empty store that takes its timestamps from `clock`.
    pub fn new(clock: Clock) -> (store: Self)
        ensures
            store.wf(),
            store@ == StoreView::empty(clock.latest()),
            store.clock() == clock,
    {
        let store = MvStore { clock, txs: Vec::new(), rows: Vec::new() };
        proof {
            assert(store@.txs =~= Seq::empty());
            assert(store@.rows =~= Seq::empty());
            lemma_empty_inv(clock.latest());
        }
        store
    }

    /// Whether transaction `tx_id` exists and is active.
    pub fn is_active(&self, tx_id: u64) -> (active: bool)
        ensures
            active == self@.is_active(tx_id),
    {
        if tx_id < self.txs.len() as u64 {
            let t = self.slot(tx_id);
            self.txs[t].is_active()
        } else {
            false
        }
    }

    /// Where the record of the known transaction `tx_id` stands.
    fn slot(&self, tx_id: u64) -> (t: usize)
        requires
            self@.knows(tx_id),
        ensures
            t == tx_id,
            t < self.txs.len(),
            self@.txs[tx_id as int] == self.txs@[t as int]@,
    {
        let n = self.txs.len();
        assert(self@.txs.len() == n);
        tx_id as usize
    }

    /// Where the chain of row `id` stands, if the store has the row.
    fn find_row(&self, id: RowID) -> (found: Option<usize>)
        ensures
            match found {
                Some(i) => i < self.rows.len() && self@.rows[i as int].id == id && self@.has_row(id),
                None => !self@.has_row(id),
            },
    {
        let mut i: usize = 0;
        while i < self.rows.len()
            invariant
                i <= self.rows.len(),
                forall|m: int| 0 <= m < i ==> (#[trigger] self@.rows[m]).id != id,
            decreases self.rows.len() - i,
        {
            if self.rows[i].id == id {
                assert(self@.rows[i as int].id == id);
                return Some(i);
            }
            i += 1;
        }
        None
    }

    /// Begins a transaction: takes a snapshot timestamp from the clock and
    /// returns the id of the new, active transaction.
    pub fn begin(&mut self) -> (r: Result<u64, MvccError>)
        requires
            old(self).wf(),
        ensures
            final(self).wf(),
            match r {
                Ok(tx_id) => {
                    &&& !old(self).clock_exhausted()
                    &&& tx_id == old(self)@.txs.len()
                    &&& final(self)@.latest > old(self)@.latest
                    &&& final(self)@ == old(self)@.after_begin(final(self)@.latest)
                    &&& old(self).clock().ticks_to(final(self)@.latest, &final(self).clock())
                    &&& final(self).clock_exhausted() == (final(self)@.latest == u64::MAX)
                },
                Err(e) => {
                    &&& old(self).clock_exhausted()
                    &&& e == MvccError::ClockExhausted
                    &&& final(self)@ == old(self)@
                    &&& final(self).clock_exhausted()
                },
            },
    {
        match self.clock.now() {
            Ok(ts) => {
                let tx_id = self.txs.len() as u64;
                self.txs.push(Transaction::begin(tx_id, ts));
                proof {
                    assert(self@.txs =~= old(self)@.after_begin(ts).txs);
                    lemma_begin_inv(old(self)@, ts);
                }
                Ok(tx_id)
            },
            Err(_) => Err(MvccError::ClockExhausted),
        }
    }

    /// Inserts `row` on behalf of `tx_id` and returns its identity. The row
    /// stays private to the transaction until it commits. An identity that
    /// was inserted once stays taken, also when its row was deleted or when
    /// the inserting transaction aborted.
    pub fn insert(&mut self, tx_id: u64, row: Row) -> (r: Result<RowID, MvccError>)
        requires
            old(self).wf(),
        ensures
            final(self).wf(),
            r == old(self)@.insert_outcome(tx_id, row.id),
            final(self)@ == if r is Ok {
                old(self)@.after_insert(tx_id, row@)
            } else {
                old(self)@
            },
            r is Ok ==> final(self)@.seen(tx_id, row.id) == Some(row@),
            final(self).clock() == old(self).clock(),
    {
        if !self.is_active(tx_id) {
            return Err(MvccError::InvalidTransactionState);
        }
        if self.find_row(row.id).is_some() {
            return Err(MvccError::DuplicateKey);
        }
        let id = row.id;
        let ghost row_view = row@;
        let t = self.slot(tx_id);
        self.rows.push(RowChain::started_by(id, tx_id, Some(row)));
        self.txs[t].note_write(id);
        proof {
            let target = old(self)@.after_insert(tx_id, row_view);
            assert(self@.rows =~= target.rows);
            assert(self@.txs =~= target.txs);
            lemma_insert_inv(old(self)@, tx_id, row_view);
            lemma_reads_own_insert(old(self)@, tx_id, row_view);
        }
        Ok(id)
    }

    /// Decides whether `tx_id` may write row `id`, and where the row's chain
    /// stands.
    fn check_write(&self, tx_id: u64, id: RowID) -> (r: Result<usize, MvccError>)
        requires
            self.wf(),
        ensures
            match r {
                Ok(i) => self@.write_outcome(tx_id, id) is Ok && i == self@.position(id),
                Err(e) => self@.write_outcome(tx_id, id) == Err::<(), MvccError>(e),
            },
    {
        if !self.is_active(tx_id) {
            return Err(MvccError::InvalidTransactionState);
        }
        match self.find_row(id) {
            None => Err(MvccError::NotFound),
            Some(i) => {
                proof {
                    lemma_position(self@, i as int);
                }
                let snapshot_ts = self.txs[self.slot(tx_id)].snapshot_ts;
                if !self.rows[i].shows_row(tx_id, snapshot_ts) {
                    Err(MvccError::NotFound)
                } else {
                    match self.rows[i].pending_owner() {
                        Some(owner) => if owner != tx_id {
                            Err(MvccError::WriteConflict)
                        } else {
                            Ok(i)
                        },
                        None => Ok(i),
                    }
                }
            },
        }
    }

    /// Writes `data` to row `id` on behalf of `tx_id`.
    fn write(&mut self, tx_id: u64, id: RowID, data: Option<Row>) -> (r: Result<(), MvccError>)
        requires
            old(self).wf(),
            data_belongs(view_opt(data), id),
        ensures
            final(self).wf(),
            r == old(self)@.write_outcome(tx_id, id),
            final(self)@ == if r is Ok {
                old(self)@.after_write(tx_id, id, view_opt(data))
            } else {
                old(self)@
            },
            r is Ok ==> final(self)@.seen(tx_id, id) == view_opt(data),
            final(self).clock() == old(self).clock(),
    {
        match self.check_write(tx_id, id) {
            Err(e) => Err(e),
            Ok(i) => {
                let ghost data_view = view_opt(data);
                proof {
                    lemma_write_finds_row(self@, tx_id, id);
                    lemma_has_row(self@, id);
                }
                let t = self.slot(tx_id);
                self.rows[i].write(tx_id, data);
                self.txs[t].note_write(id);
                proof {
                    let target = old(self)@.after_write(tx_id, id, data_view);
                    assert(self@.rows =~= target.rows);
                    assert(self@.txs =~= target.txs);
                    lemma_write_inv(old(self)@, tx_id, id, data_view);
                    lemma_reads_own_write(old(self)@, tx_id, id, data_view);
                }
                Ok(())
            },
        }
    }

    /// Replaces the row `row_id`, as `tx_id` sees it, by the column values
    /// of `new_row`, filed under `row_id`. The row must be visible to the
    /// transaction, else the update is refused as `NotFound`; and no other
    /// transaction may hold an uncommitted version of it, else it is refused
    /// as `WriteConflict`: of concurrent writers of a row the first wins. A
    /// transaction that writes a row again replaces its earlier write.
    pub fn update(&mut self, tx_id: u64, row_id: RowID, new_row: Row) -> (r: Result<(), MvccError>)
        requires
            old(self).wf(),
        ensures
            final(self).wf(),
            r == old(self)@.write_outcome(tx_id, row_id),
            final(self)@ == if r is Ok {
                old(self)@.after_write(
                    tx_id,
                    row_id,
                    Some(RowView { id: row_id, columns: new_row@.columns }),
                )
            } else {
                old(self)@
            },
            r is Ok ==> final(self)@.seen(tx_id, row_id) == Some(
                RowView { id: row_id, columns: new_row@.columns },
            ),
            final(self).clock() == old(self).clock(),
    {
        self.write(tx_id, row_id, Some(new_row.with_id(row_id)))
    }

    /// Deletes the row `row_id`, as `tx_id` sees it: records a tombstone. It
    /// is refused on the same grounds as an update.
    pub fn delete(&mut self, tx_id: u64, row_id: RowID) -> (r: Result<(), MvccError>)
        requires
            old(self).wf(),
        ensures
            final(self).wf(),
            r == old(self)@.write_outcome(tx_id, row_id),
            final(self)@ == if r is Ok {
                old(self)@.after_write(tx_id, row_id, None)
            } else {
                old(self)@
            },
            r is Ok ==> final(self)@.seen(tx_id, row_id) is None,
            final(self).clock() == old(self).clock(),
    {
        self.write(tx_id, row_id, None)
    }

    /// Reads row `id` as `tx_id` sees it: the row of the transaction's
    /// snapshot, or what the transaction wrote itself.
    pub fn read(&self, tx_id: u64, id: RowID) -> (r: Result<Option<Row>, MvccError>)
        requires
            self.wf(),
        ensures
            match r {
                Ok(row) => self@.is_active(tx_id) && view_opt(row) == self@.seen(tx_id, id),
                Err(e) => !self@.is_active(tx_id) && e == MvccError::InvalidTransactionState,
            },
    {
        if !self.is_active(tx_id) {
            return Err(MvccError::InvalidTransactionState);
        }
        match self.find_row(id) {
            None => Ok(None),
            Some(i) => {
                proof {
                    lemma_position(self@, i as int);
                }
                let snapshot_ts = self.txs[self.slot(tx_id)].snapshot_ts;
                Ok(self.rows[i].read(tx_id, snapshot_ts))
            },
        }
    }

    /// The identities of all rows ever inserted into table `table_id`, in
    /// insertion order, whatever any transaction sees of them.
    pub fn scan_row_ids_for_table(&self, table_id: u64) -> (ids: Vec<RowID>)
        ensures
            ids@ == self@.table_row_ids(table_id),
    {
        let mut ids: Vec<RowID> = Vec::new();
        let mut i: usize = 0;
        let ghost views = chain_views(self.rows@);
        proof {
            assert(views.take(0) =~= Seq::empty());
            assert(views.take(0).map_values(|c: ChainView| c.id) =~= Seq::empty());
            assert(ids_in_table(views.take(0), table_id) =~= Seq::empty()) by {
                reveal(Seq::filter);
            }
        }
        while i < self.rows.len()
            invariant
                i <= self.rows.len(),
                views == chain_views(self.rows@),
                ids@ == ids_in_table(views.take(i as int), table_id),
            decreases self.rows.len() - i,
        {
            proof {
                let before = views.take(i as int).map_values(|c: ChainView| c.id);
                let after = views.take(i + 1).map_values(|c: ChainView| c.id);
                assert(after =~= before.push(views[i as int].id));
                before.lemma_filter_push(views[i as int].id, in_table(table_id));
            }
            if self.rows[i].id.table_id == table_id {
                ids.push(self.rows[i].id);
            }
            i += 1;
        }
        assert(views.take(self.rows.len() as int) =~= views);
        ids
    }

    /// Whether a row that `tx_id` wrote has a version committed after the
    /// transaction's snapshot.
    fn has_conflict(&self, tx_id: u64) -> (conflict: bool)
        requires
            self.wf(),
            self@.knows(tx_id),
        ensures
            conflict == self@.has_conflict(tx_id),
    {
        let tx = &self.txs[self.slot(tx_id)];
        let mut k: usize = 0;
        while k < tx.write_set.len()
            invariant
                k <= tx.write_set.len(),
                self.wf(),
                self@.knows(tx_id),
                tx@ == self@.txs[tx_id as int],
                forall|m: int|
                    0 <= m < k ==> !has_commit_after(
                        self@.chain(#[trigger] tx@.write_set[m]),
                        tx.snapshot_ts,
                    ),
            decreases tx.write_set.len() - k,
        {
            let id = tx.write_set[k];
            match self.find_row(id) {
                Some(i) => {
                    proof {
                        lemma_position(self@, i as int);
                    }
                    if self.rows[i].has_commit_after(tx.snapshot_ts) {
                        assert(has_commit_after(
                            self@.chain(self@.txs[tx_id as int].write_set[k as int]),
                            self@.txs[tx_id as int].snapshot_ts,
                        ));
                        return true;
                    }
                },
                None => {},
            }
            k += 1;
        }
        false
    }

    /// Withdraws everything that the active transaction `tx_id` wrote and
    /// marks it aborted.
    fn abort_active(&mut self, tx_id: u64)
        requires
            old(self).wf(),
            old(self)@.is_active(tx_id),
        ensures
            final(self).wf(),
            final(self)@ == old(self)@.after_abort(tx_id),
            final(self).clock() == old(self).clock(),
    {
        let t = self.slot(tx_id);
        discard_all(&mut self.rows, tx_id);
        self.txs[t].state = TxState::Aborted;
        proof {
            let target = old(self)@.after_abort(tx_id);
            assert(self@.txs =~= target.txs);
            lemma_abort_inv(old(self)@, tx_id);
        }
    }

    /// Commits `tx_id`: checks that no row it wrote was committed by another
    /// transaction since its snapshot, then makes its versions visible at a
    /// fresh timestamp, which it returns. A transaction that fails the check
    /// is aborted.
    pub fn commit(&mut self, tx_id: u64) -> (r: Result<u64, MvccError>)
        requires
            old(self).wf(),
        ensures
            final(self).wf(),
            match r {
                Ok(ts) => {
                    &&& old(self)@.is_active(tx_id)
                    &&& !old(self)@.has_conflict(tx_id)
                    &&& !old(self).clock_exhausted()
                    &&& ts > old(self)@.latest
                    &&& final(self)@ == old(self)@.after_commit(tx_id, ts)
                    &&& old(self).clock().ticks_to(ts, &final(self).clock())
                    &&& final(self).clock_exhausted() == (ts == u64::MAX)
                },
                Err(MvccError::InvalidTransactionState) => {
                    &&& !old(self)@.is_active(tx_id)
                    &&& final(self)@ == old(self)@
                    &&& final(self).clock() == old(self).clock()
                },
                Err(MvccError::WriteConflict) => {
                    &&& old(self)@.is_active(tx_id)
                    &&& old(self)@.has_conflict(tx_id)
                    &&& final(self)@ == old(self)@.after_abort(tx_id)
                    &&& final(self).clock() == old(self).clock()
                },
                Err(MvccError::ClockExhausted) => {
                    &&& old(self)@.is_active(tx_id)
                    &&& !old(self)@.has_conflict(tx_id)
                    &&& old(self).clock_exhausted()
                    &&& final(self)@ == old(self)@
                    &&& final(self).clock_exhausted()
                },
                Err(_) => false,
            },
    {
        if !self.is_active(tx_id) {
            return Err(MvccError::InvalidTransactionState);
        }
        if self.has_conflict(tx_id) {
            self.abort_active(tx_id);
            return Err(MvccError::WriteConflict);
        }
        let t = self.slot(tx_id);
        match self.clock.now() {
            Err(_) => Err(MvccError::ClockExhausted),
            Ok(ts) => {
                finalize_all(&mut self.rows, tx_id, ts);
                self.txs[t].state = TxState::Committed;
                self.txs[t].commit_ts = Some(ts);
                proof {
                    let target = old(self)@.after_commit(tx_id, ts);
                    assert(self@.txs =~= target.txs);
                    lemma_commit_inv(old(self)@, tx_id, ts);
                }
                Ok(ts)
            },
        }
    }

    /// Aborts `tx_id`: withdraws everything it wrote. On a transaction that
    /// is not active, or unknown, this does nothing.
    pub fn abort(&mut self, tx_id: u64)
        requires
            old(self).wf(),
        ensures
            final(self).wf(),
            final(self)@ == if old(self)@.is_active(tx_id) {
                old(self)@.after_abort(tx_id)
            } else {
                old(self)@
            },
            final(self).clock() == old(self).clock(),
    {
        if self.is_active(tx_id) {
            self.abort_active(tx_id);
        }
    }

    /// Runs one collection cycle: removes every committed version that was
    /// superseded at or before the oldest active snapshot. The newest version
    /// of a row stays, with one exception that `purge_tombstones` switches
    /// on: a committed tombstone that nothing superseded is removed where no
    /// transaction is active, for then no transaction can need it.
    pub fn collect_garbage(&mut self, purge_tombstones: bool)
        requires
            old(self).wf(),
        ensures
            final(self).wf(),
            final(self)@ == old(self)@.after_gc(purge_tombstones),
            final(self).clock() == old(self).clock(),
    {
        let watermark = oldest_snapshot(&self.txs);
        reclaim_all(&mut self.rows, watermark, purge_tombstones);
        proof {
            lemma_gc_inv(old(self)@, purge_tombstones);
        }
    }

    /// The state of transaction `tx_id`, if it was ever begun.
    pub fn tx_state(&self, tx_id: u64) -> (state: Option<TxState>)
        ensures
            state == if self@.knows(tx_id) {
                Some(self@.txs[tx_id as int].state)
            } else {
                None
            },
    {
        if tx_id < self.txs.len() as u64 {
            Some(self.txs[self.slot(tx_id)].state)
        } else {
            None
        }
    }

    /// The snapshot timestamp of transaction `tx_id`, if it was ever begun.
    pub fn snapshot_ts(&self, tx_id: u64) -> (ts: Option<u64>)
        ensures
            ts == if self@.knows(tx_id) {
                Some(self@.txs[tx_id as int].snapshot_ts)
            } else {
                None
            },
    {
        if tx_id < self.txs.len() as u64 {
            Some(self.txs[self.slot(tx_id)].snapshot_ts)
        } else {
            None
        }
    }

    /// The commit timestamp of transaction `tx_id`, if it committed.
    pub fn commit_ts(&self, tx_id: u64) -> (ts: Option<u64>)
        ensures
            ts == if self@.knows(tx_id) {
                self@.txs[tx_id as int].commit_ts
            } else {
                None
            },
    {
        if tx_id < self.txs.len() as u64 {
            self.txs[self.slot(tx_id)].commit_ts
        } else {
            None
        }
    }

    /// The identities of the rows that transaction `tx_id` wrote, in the
    /// order of its first write to each: what a commit of the transaction
    /// makes visible and what a durable log of the commit has to cover.
    pub fn write_set(&self, tx_id: u64) -> (ids: Option<Vec<RowID>>)
        ensures
            match ids {
                Some(v) => self@.knows(tx_id) && v@ == self@.txs[tx_id as int].write_set,
                None => !self@.knows(tx_id),
            },
    {
        if tx_id < self.txs.len() as u64 {
            let tx = &self.txs[self.slot(tx_id)];
            let mut ids: Vec<RowID> = Vec::new();
            let mut k: usize = 0;
            while k < tx.write_set.len()
                invariant
                    k <= tx.write_set.len(),
                    ids@ == tx.write_set@.take(k as int),
                decreases tx.write_set.len() - k,
            {
                ids.push(tx.write_set[k]);
                k += 1;
                assert(tx.write_set@.take(k as int) == tx.write_set@.take(k - 1).push(
                    tx.write_set@[k - 1],
                ));
            }
            assert(tx.write_set@.take(tx.write_set.len() as int) == tx.write_set@);
            Some(ids)
        } else {
            None
        }
    }

    /// The oldest snapshot among the active transactions: the watermark at
    /// or below which superseded versions are reclaimed.
    pub fn watermark(&self) -> (w: Option<u64>)
        ensures
            w == self@.watermark(),
    {
        oldest_snapshot(&self.txs)
    }

    /// How many versions the store keeps of row `id`.
    pub fn version_count(&self, id: RowID) -> (n: usize)
        requires
            self.wf(),
        ensures
            n == self@.chain(id).len(),
    {
        match self.find_row(id) {
            Some(i) => {
                proof {
                    lemma_position(self@, i as int);
                }
                self.rows[i].versions.len()
            },
            None => 0,
        }
    }
}

} // verus!
