//! A forward-only cursor over the rows of one table, as one transaction
//! sees them.

use vstd::prelude::*;
use crate::clock::LogicalClock;
use crate::error::MvccError;
use crate::model::StoreView;
use crate::row::{view_opt, Row, RowID, RowView};
use crate::store::MvStore;

verus! {

/// A cursor over the identities that a table had when the cursor was
/// opened. The identities are fixed at that moment; the row behind each is
/// resolved against the store only when it is asked for. The cursor starts
/// before the first identity, moves on by one with every forward step, also
/// past the end, and does not skip rows that its transaction cannot see.
#[derive(Debug)]
pub struct ScanCursor {
    row_ids: Vec<RowID>,
    index: usize,
    started: bool,
    tx_id: u64,
}

/// The mathematical value of a [`ScanCursor`]. The position is `-1` before
/// the first forward step and counts the steps after it from 0; from the
/// number of identities on, the cursor is past the end.
pub struct CursorView {
    pub tx_id: u64,
    pub row_ids: Seq<RowID>,
    pub position: int,
}

impl CursorView {
    /// The identity at the current position.
    pub open spec fn current(self) -> Option<RowID> {
        if 0 <= self.position < self.row_ids.len() {
            Some(self.row_ids[self.position])
        } else {
            None
        }
    }

    /// The cursor one position further.
    pub open spec fn advanced(self) -> CursorView {
        CursorView { position: self.position + 1, ..self }
    }

    /// The row that the cursor shows at its current position in the store
    /// state `s`.
    pub open spec fn resolves(self, s: StoreView) -> Option<RowView> {
        match self.current() {
            Some(id) => s.seen(self.tx_id, id),
            None => None,
        }
    }
}

impl ScanCursor {
    /// The cursor as a mathematical value.
    pub closed spec fn view(&self) -> CursorView {
        CursorView {
            tx_id: self.tx_id,
            row_ids: self.row_ids@,
            position: if self.started {
                self.index as int
            } else {
                -1
            },
        }
    }

    /// Opens a cursor for transaction `tx_id` over table `table_id`. The
    /// identities of the table are taken from the store once, now.
    pub fn new<Clock: LogicalClock>(db: &MvStore<Clock>, tx_id: u64, table_id: u64) -> (r: Result<
        ScanCursor,
        MvccError,
    >)
        ensures
            r is Ok,
            r.unwrap()@ == (CursorView {
                tx_id,
                row_ids: db@.table_row_ids(table_id),
                position: -1,
            }),
    {
        let row_ids = db.scan_row_ids_for_table(table_id);
        Ok(ScanCursor { row_ids, index: 0, started: false, tx_id })
    }

    /// The transaction on whose behalf the cursor reads.
    pub fn tx_id(&self) -> (tx_id: u64)
        ensures
            tx_id == self@.tx_id,
    {
        self.tx_id
    }

    /// The identities that the cursor walks over, as they were taken when
    /// it was opened.
    pub fn row_ids(&self) -> (ids: &Vec<RowID>)
        ensures
            ids@ == self@.row_ids,
    {
        &self.row_ids
    }

    /// The current position: `None` before the first forward step, then the
    /// number of steps made after it.
    pub fn position(&self) -> (position: Option<usize>)
        ensures
            match position {
                Some(index) => self@.position == index,
                None => self@.position == -1,
            },
    {
        if self.started {
            Some(self.index)
        } else {
            None
        }
    }

    /// The position is `-1` or a number that fits the machine word, and so
    /// does the number of identities.
    pub proof fn lemma_position_range(&self)
        ensures
            -1 <= self@.position <= usize::MAX,
            self@.row_ids.len() <= usize::MAX,
    {
        assert(self.row_ids@.len() == self.row_ids.len());
    }

    /// The identity at the current position; none before the first forward
    /// step and none past the end.
    pub fn current_row_id(&self) -> (id: Option<RowID>)
        ensures
            id == self@.current(),
    {
        if !self.started || self.index >= self.row_ids.len() {
            return None;
        }
        Some(self.row_ids[self.index])
    }

    /// The row at the current position as the cursor's transaction sees it
    /// in `db`. `None` where the cursor stands on no identity, and where the
    /// transaction sees no row under the identity.
    pub fn current_row<Clock: LogicalClock>(&self, db: &MvStore<Clock>) -> (r: Result<
        Option<Row>,
        MvccError,
    >)
        requires
            db.wf(),
        ensures
            match r {
                Ok(row) => {
                    &&& view_opt(row) == self@.resolves(db@)
                    &&& self@.current() is Some ==> db@.is_active(self@.tx_id)
                },
                Err(e) => {
                    &&& self@.current() is Some
                    &&& !db@.is_active(self@.tx_id)
                    &&& e == MvccError::InvalidTransactionState
                },
            },
    {
        if !self.started || self.index >= self.row_ids.len() {
            return Ok(None);
        }
        let id = self.row_ids[self.index];
        db.read(self.tx_id, id)
    }

    /// Closes the cursor and gives up the identities it held. The
    /// transaction is not touched.
    pub fn close(self) -> (r: Result<(), MvccError>)
        ensures
            r is Ok,
    {
        Ok(())
    }

    /// Moves one position forward, on the list and past its end alike.
    /// Returns whether the cursor now stands on an identity. Only at the
    /// greatest position that the machine word holds does the cursor stay.
    pub fn forward(&mut self) -> (on_row: bool)
        ensures
            final(self)@ == if old(self)@.position < usize::MAX {
                old(self)@.advanced()
            } else {
                old(self)@
            },
            on_row == final(self)@.current().is_some(),
    {
        if !self.started {
            self.started = true;
            self.index = 0;
        } else if self.index < usize::MAX {
            self.index += 1;
        }
        self.index < self.row_ids.len()
    }

    /// Whether no position remains: before the first forward step, whether
    /// there is no identity at all; after it, whether the cursor stands past
    /// the end.
    pub fn is_empty(&self) -> (empty: bool)
        ensures
            empty == (if self@.position < 0 {
                self@.row_ids.len() == 0
            } else {
                self@.position >= self@.row_ids.len()
            }),
    {
        if self.started {
            self.index >= self.row_ids.len()
        } else {
            self.row_ids.len() == 0
        }
    }
}

} // verus!
