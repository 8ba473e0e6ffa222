use mvcc_store::clock::{LocalClock, LogicalClock};
use mvcc_store::error::MvccError;
use mvcc_store::row::{Row, RowID};
use mvcc_store::store::MvStore;
use mvcc_store::transaction::TxState;

fn rid(table_id: u64, row_id: u64) -> RowID {
    RowID { table_id, row_id }
}

fn row(table_id: u64, row_id: u64, columns: Vec<i64>) -> Row {
    Row::new(rid(table_id, row_id), columns)
}

fn fresh() -> MvStore<LocalClock> {
    MvStore::new(LocalClock::new())
}

#[test]
fn local_clock_counts_up_from_one() {
    let mut clock = LocalClock::new();
    assert_eq!(clock.now(), Ok(1));
    assert_eq!(clock.now(), Ok(2));
    assert_eq!(clock.now(), Ok(3));
}

#[test]
fn local_clock_resumes_after_a_timestamp() {
    let mut clock = LocalClock::resume_after(41);
    assert_eq!(clock.now(), Ok(42));
}

#[test]
fn local_clock_reports_exhaustion() {
    let mut clock = LocalClock::resume_after(u64::MAX - 1);
    assert_eq!(clock.now(), Ok(u64::MAX));
    assert_eq!(clock.now(), Err(MvccError::ClockExhausted));
    assert_eq!(clock.now(), Err(MvccError::ClockExhausted));
}

#[test]
fn begin_hands_out_ordinals_and_snapshots() {
    let mut store = fresh();
    assert_eq!(store.begin(), Ok(0));
    assert_eq!(store.begin(), Ok(1));
    assert_eq!(store.snapshot_ts(0), Some(1));
    assert_eq!(store.snapshot_ts(1), Some(2));
    assert_eq!(store.tx_state(0), Some(TxState::Active));
    assert_eq!(store.tx_state(2), None);
    assert_eq!(store.commit_ts(0), None);
    assert!(store.is_active(1));
    assert!(!store.is_active(2));
}

#[test]
fn begin_fails_when_the_clock_is_exhausted() {
    let mut store = MvStore::new(LocalClock::resume_after(u64::MAX));
    assert_eq!(store.begin(), Err(MvccError::ClockExhausted));
    assert_eq!(store.tx_state(0), None);
}

#[test]
fn commit_fails_when_the_clock_is_exhausted_and_leaves_the_transaction_active() {
    let mut store = MvStore::new(LocalClock::resume_after(u64::MAX - 1));
    let tx = store.begin().unwrap();
    assert_eq!(store.snapshot_ts(tx), Some(u64::MAX));
    assert_eq!(store.insert(tx, row(1, 1, vec![7])), Ok(rid(1, 1)));
    assert_eq!(store.commit(tx), Err(MvccError::ClockExhausted));
    assert_eq!(store.tx_state(tx), Some(TxState::Active));
    assert_eq!(store.read(tx, rid(1, 1)), Ok(Some(row(1, 1, vec![7]))));
}

#[test]
fn committed_insert_is_seen_by_later_transactions_only() {
    let mut store = fresh();
    let tx1 = store.begin().unwrap();
    let tx3 = store.begin().unwrap();
    let a = row(1, 10, vec![1, 2, 3]);
    assert_eq!(store.insert(tx1, Row::new(rid(1, 10), vec![1, 2, 3])), Ok(rid(1, 10)));
    assert_eq!(store.read(tx3, rid(1, 10)), Ok(None));
    assert_eq!(store.commit(tx1), Ok(3));
    let tx2 = store.begin().unwrap();
    assert_eq!(store.read(tx2, rid(1, 10)), Ok(Some(a)));
    assert_eq!(store.read(tx3, rid(1, 10)), Ok(None));
}

#[test]
fn commit_stamps_the_transaction() {
    let mut store = fresh();
    let tx = store.begin().unwrap();
    store.insert(tx, row(1, 1, vec![])).unwrap();
    assert_eq!(store.commit(tx), Ok(2));
    assert_eq!(store.tx_state(tx), Some(TxState::Committed));
    assert_eq!(store.commit_ts(tx), Some(2));
    assert_eq!(store.snapshot_ts(tx), Some(1));
}

#[test]
fn commit_of_a_read_only_transaction_succeeds() {
    let mut store = fresh();
    let tx = store.begin().unwrap();
    assert_eq!(store.commit(tx), Ok(2));
}

#[test]
fn operations_on_a_finished_transaction_are_refused() {
    let mut store = fresh();
    let tx = store.begin().unwrap();
    store.insert(tx, row(1, 1, vec![1])).unwrap();
    store.commit(tx).unwrap();
    assert_eq!(store.commit(tx), Err(MvccError::InvalidTransactionState));
    assert_eq!(store.read(tx, rid(1, 1)), Err(MvccError::InvalidTransactionState));
    assert_eq!(store.insert(tx, row(1, 2, vec![1])), Err(MvccError::InvalidTransactionState));
    assert_eq!(
        store.update(tx, rid(1, 1), row(1, 1, vec![2])),
        Err(MvccError::InvalidTransactionState)
    );
    assert_eq!(store.delete(tx, rid(1, 1)), Err(MvccError::InvalidTransactionState));
}

#[test]
fn operations_on_an_unknown_transaction_are_refused() {
    let mut store = fresh();
    assert_eq!(store.read(5, rid(1, 1)), Err(MvccError::InvalidTransactionState));
    assert_eq!(store.insert(5, row(1, 1, vec![])), Err(MvccError::InvalidTransactionState));
    assert_eq!(store.commit(5), Err(MvccError::InvalidTransactionState));
    store.abort(5);
    assert_eq!(store.tx_state(5), None);
}

#[test]
fn insert_of_an_existing_identity_is_a_duplicate() {
    let mut store = fresh();
    let tx1 = store.begin().unwrap();
    let tx2 = store.begin().unwrap();
    assert_eq!(store.insert(tx1, row(1, 1, vec![1])), Ok(rid(1, 1)));
    assert_eq!(store.insert(tx1, row(1, 1, vec![2])), Err(MvccError::DuplicateKey));
    assert_eq!(store.insert(tx2, row(1, 1, vec![3])), Err(MvccError::DuplicateKey));
    assert_eq!(store.insert(tx2, row(2, 1, vec![3])), Ok(rid(2, 1)));
}

#[test]
fn identity_outlives_delete_and_abort() {
    let mut store = fresh();
    let tx1 = store.begin().unwrap();
    store.insert(tx1, row(1, 1, vec![1])).unwrap();
    store.abort(tx1);
    let tx2 = store.begin().unwrap();
    assert_eq!(store.insert(tx2, row(1, 1, vec![2])), Err(MvccError::DuplicateKey));
    store.insert(tx2, row(1, 2, vec![2])).unwrap();
    store.delete(tx2, rid(1, 2)).unwrap();
    store.commit(tx2).unwrap();
    let tx3 = store.begin().unwrap();
    assert_eq!(store.insert(tx3, row(1, 2, vec![3])), Err(MvccError::DuplicateKey));
}

#[test]
fn update_is_read_back_before_commit() {
    let mut store = fresh();
    let tx1 = store.begin().unwrap();
    store.insert(tx1, row(1, 1, vec![1])).unwrap();
    store.commit(tx1).unwrap();
    let tx2 = store.begin().unwrap();
    let other = store.begin().unwrap();
    assert_eq!(store.update(tx2, rid(1, 1), row(1, 1, vec![5, 6])), Ok(()));
    assert_eq!(store.read(tx2, rid(1, 1)), Ok(Some(row(1, 1, vec![5, 6]))));
    assert_eq!(store.read(other, rid(1, 1)), Ok(Some(row(1, 1, vec![1]))));
    assert_eq!(store.update(tx2, rid(1, 1), row(1, 1, vec![9])), Ok(()));
    assert_eq!(store.read(tx2, rid(1, 1)), Ok(Some(row(1, 1, vec![9]))));
    assert_eq!(store.version_count(rid(1, 1)), 2);
}

#[test]
fn update_files_the_columns_under_the_updated_identity() {
    let mut store = fresh();
    let tx = store.begin().unwrap();
    store.insert(tx, row(1, 1, vec![1])).unwrap();
    assert_eq!(store.update(tx, rid(1, 1), row(9, 9, vec![4])), Ok(()));
    assert_eq!(store.read(tx, rid(1, 1)), Ok(Some(row(1, 1, vec![4]))));
    assert_eq!(store.read(tx, rid(9, 9)), Ok(None));
}

#[test]
fn delete_is_read_back_before_commit_and_seen_after() {
    let mut store = fresh();
    let tx1 = store.begin().unwrap();
    store.insert(tx1, row(1, 1, vec![1])).unwrap();
    store.commit(tx1).unwrap();
    let tx2 = store.begin().unwrap();
    let old_reader = store.begin().unwrap();
    assert_eq!(store.delete(tx2, rid(1, 1)), Ok(()));
    assert_eq!(store.read(tx2, rid(1, 1)), Ok(None));
    assert_eq!(store.read(old_reader, rid(1, 1)), Ok(Some(row(1, 1, vec![1]))));
    store.commit(tx2).unwrap();
    let tx3 = store.begin().unwrap();
    assert_eq!(store.read(tx3, rid(1, 1)), Ok(None));
    assert_eq!(store.read(old_reader, rid(1, 1)), Ok(Some(row(1, 1, vec![1]))));
}

#[test]
fn update_and_delete_of_an_unseen_row_are_not_found() {
    let mut store = fresh();
    let tx1 = store.begin().unwrap();
    let tx2 = store.begin().unwrap();
    assert_eq!(store.update(tx1, rid(1, 1), row(1, 1, vec![1])), Err(MvccError::NotFound));
    assert_eq!(store.delete(tx1, rid(1, 1)), Err(MvccError::NotFound));
    store.insert(tx1, row(1, 1, vec![1])).unwrap();
    // uncommitted insert of another transaction
    assert_eq!(store.update(tx2, rid(1, 1), row(1, 1, vec![2])), Err(MvccError::NotFound));
    store.commit(tx1).unwrap();
    // committed after the snapshot of tx2
    assert_eq!(store.delete(tx2, rid(1, 1)), Err(MvccError::NotFound));
    // deleted rows are gone for the deleting transaction
    let tx3 = store.begin().unwrap();
    store.delete(tx3, rid(1, 1)).unwrap();
    assert_eq!(store.update(tx3, rid(1, 1), row(1, 1, vec![3])), Err(MvccError::NotFound));
    assert_eq!(store.delete(tx3, rid(1, 1)), Err(MvccError::NotFound));
}

#[test]
fn second_writer_of_a_row_is_refused_at_once() {
    let mut store = fresh();
    let setup = store.begin().unwrap();
    store.insert(setup, row(1, 1, vec![0])).unwrap();
    store.commit(setup).unwrap();
    let tx1 = store.begin().unwrap();
    let tx2 = store.begin().unwrap();
    assert_eq!(store.update(tx1, rid(1, 1), row(1, 1, vec![1])), Ok(()));
    assert_eq!(store.update(tx2, rid(1, 1), row(1, 1, vec![2])), Err(MvccError::WriteConflict));
    assert_eq!(store.delete(tx2, rid(1, 1)), Err(MvccError::WriteConflict));
    assert_eq!(store.tx_state(tx2), Some(TxState::Active));
    assert_eq!(store.commit(tx1), Ok(5));
    let later = store.begin().unwrap();
    assert_eq!(store.read(later, rid(1, 1)), Ok(Some(row(1, 1, vec![1]))));
}

#[test]
fn writer_that_lost_the_race_fails_at_commit_and_is_aborted() {
    let mut store = fresh();
    let setup = store.begin().unwrap();
    store.insert(setup, row(1, 1, vec![0])).unwrap();
    store.commit(setup).unwrap();
    let tx1 = store.begin().unwrap();
    let tx2 = store.begin().unwrap();
    assert_eq!(store.update(tx2, rid(1, 1), row(1, 1, vec![2])), Ok(()));
    assert_eq!(store.commit(tx2), Ok(5));
    // tx1 still sees the old row and may write to it, but cannot commit
    assert_eq!(store.read(tx1, rid(1, 1)), Ok(Some(row(1, 1, vec![0]))));
    assert_eq!(store.update(tx1, rid(1, 1), row(1, 1, vec![1])), Ok(()));
    assert_eq!(store.read(tx1, rid(1, 1)), Ok(Some(row(1, 1, vec![1]))));
    assert_eq!(store.commit(tx1), Err(MvccError::WriteConflict));
    assert_eq!(store.tx_state(tx1), Some(TxState::Aborted));
    assert_eq!(store.commit_ts(tx1), None);
    store.abort(tx1);
    assert_eq!(store.tx_state(tx1), Some(TxState::Aborted));
    let later = store.begin().unwrap();
    assert_eq!(store.read(later, rid(1, 1)), Ok(Some(row(1, 1, vec![2]))));
    assert_eq!(store.version_count(rid(1, 1)), 2);
}

#[test]
fn of_two_concurrent_writers_one_commits() {
    let mut store = fresh();
    let setup = store.begin().unwrap();
    store.insert(setup, row(1, 1, vec![0])).unwrap();
    store.commit(setup).unwrap();
    let tx1 = store.begin().unwrap();
    let tx2 = store.begin().unwrap();
    let first = store.update(tx1, rid(1, 1), row(1, 1, vec![1]));
    let second = store.update(tx2, rid(1, 1), row(1, 1, vec![2]));
    assert_eq!(first, Ok(()));
    assert_eq!(second, Err(MvccError::WriteConflict));
    store.abort(tx2);
    assert!(store.commit(tx1).is_ok());
    assert_eq!(store.commit(tx2), Err(MvccError::InvalidTransactionState));
    let later = store.begin().unwrap();
    assert_eq!(store.read(later, rid(1, 1)), Ok(Some(row(1, 1, vec![1]))));
}

#[test]
fn writers_of_different_rows_do_not_conflict() {
    let mut store = fresh();
    let setup = store.begin().unwrap();
    store.insert(setup, row(1, 1, vec![0])).unwrap();
    store.insert(setup, row(1, 2, vec![0])).unwrap();
    store.commit(setup).unwrap();
    let tx1 = store.begin().unwrap();
    let tx2 = store.begin().unwrap();
    assert_eq!(store.update(tx1, rid(1, 1), row(1, 1, vec![1])), Ok(()));
    assert_eq!(store.update(tx2, rid(1, 2), row(1, 2, vec![2])), Ok(()));
    assert!(store.commit(tx1).is_ok());
    assert!(store.commit(tx2).is_ok());
}

#[test]
fn abort_withdraws_writes_and_is_idempotent() {
    let mut store = fresh();
    let setup = store.begin().unwrap();
    store.insert(setup, row(1, 1, vec![0])).unwrap();
    store.commit(setup).unwrap();
    let tx = store.begin().unwrap();
    store.update(tx, rid(1, 1), row(1, 1, vec![1])).unwrap();
    store.insert(tx, row(1, 2, vec![2])).unwrap();
    assert_eq!(store.version_count(rid(1, 1)), 2);
    store.abort(tx);
    assert_eq!(store.tx_state(tx), Some(TxState::Aborted));
    assert_eq!(store.version_count(rid(1, 1)), 1);
    assert_eq!(store.version_count(rid(1, 2)), 0);
    store.abort(tx);
    assert_eq!(store.tx_state(tx), Some(TxState::Aborted));
    assert_eq!(store.commit(tx), Err(MvccError::InvalidTransactionState));
    let later = store.begin().unwrap();
    assert_eq!(store.read(later, rid(1, 1)), Ok(Some(row(1, 1, vec![0]))));
    assert_eq!(store.read(later, rid(1, 2)), Ok(None));
    // the row is free for the next writer
    assert_eq!(store.update(later, rid(1, 1), row(1, 1, vec![3])), Ok(()));
}

#[test]
fn abort_does_not_undo_a_commit() {
    let mut store = fresh();
    let tx = store.begin().unwrap();
    store.insert(tx, row(1, 1, vec![1])).unwrap();
    store.commit(tx).unwrap();
    store.abort(tx);
    assert_eq!(store.tx_state(tx), Some(TxState::Committed));
    let later = store.begin().unwrap();
    assert_eq!(store.read(later, rid(1, 1)), Ok(Some(row(1, 1, vec![1]))));
}

#[test]
fn reads_are_repeatable_under_concurrent_commits() {
    let mut store = fresh();
    let setup = store.begin().unwrap();
    store.insert(setup, row(1, 1, vec![0])).unwrap();
    store.commit(setup).unwrap();
    let reader = store.begin().unwrap();
    assert_eq!(store.read(reader, rid(1, 1)), Ok(Some(row(1, 1, vec![0]))));
    for round in 1..4 {
        let writer = store.begin().unwrap();
        store.update(writer, rid(1, 1), row(1, 1, vec![round])).unwrap();
        assert_eq!(store.read(reader, rid(1, 1)), Ok(Some(row(1, 1, vec![0]))));
        store.commit(writer).unwrap();
        assert_eq!(store.read(reader, rid(1, 1)), Ok(Some(row(1, 1, vec![0]))));
    }
    let deleter = store.begin().unwrap();
    store.delete(deleter, rid(1, 1)).unwrap();
    store.commit(deleter).unwrap();
    store.collect_garbage(false);
    assert_eq!(store.read(reader, rid(1, 1)), Ok(Some(row(1, 1, vec![0]))));
}

#[test]
fn aborted_transaction_leaves_nothing_to_read() {
    let mut store = fresh();
    let loser = store.begin().unwrap();
    store.insert(loser, row(1, 1, vec![1])).unwrap();
    store.abort(loser);
    let later = store.begin().unwrap();
    assert_eq!(store.read(later, rid(1, 1)), Ok(None));
    assert_eq!(store.version_count(rid(1, 1)), 0);
}

#[test]
fn write_set_lists_each_written_row_once() {
    let mut store = fresh();
    let tx = store.begin().unwrap();
    assert_eq!(store.write_set(tx), Some(vec![]));
    store.insert(tx, row(1, 2, vec![1])).unwrap();
    store.insert(tx, row(1, 1, vec![1])).unwrap();
    store.update(tx, rid(1, 2), row(1, 2, vec![2])).unwrap();
    store.delete(tx, rid(1, 1)).unwrap();
    assert_eq!(store.update(tx, rid(1, 3), row(1, 3, vec![2])), Err(MvccError::NotFound));
    assert_eq!(store.write_set(tx), Some(vec![rid(1, 2), rid(1, 1)]));
    store.commit(tx).unwrap();
    assert_eq!(store.write_set(tx), Some(vec![rid(1, 2), rid(1, 1)]));
    assert_eq!(store.write_set(tx + 1), None);
}

#[test]
fn refused_write_leaves_the_write_set_alone() {
    let mut store = fresh();
    let setup = store.begin().unwrap();
    store.insert(setup, row(1, 1, vec![0])).unwrap();
    store.commit(setup).unwrap();
    let tx1 = store.begin().unwrap();
    let tx2 = store.begin().unwrap();
    store.update(tx1, rid(1, 1), row(1, 1, vec![1])).unwrap();
    assert_eq!(store.update(tx2, rid(1, 1), row(1, 1, vec![2])), Err(MvccError::WriteConflict));
    assert_eq!(store.write_set(tx2), Some(vec![]));
    assert_eq!(store.version_count(rid(1, 1)), 2);
    // with an empty write set the commit of tx2 has nothing to conflict on
    assert!(store.commit(tx1).is_ok());
    assert!(store.commit(tx2).is_ok());
    let later = store.begin().unwrap();
    assert_eq!(store.read(later, rid(1, 1)), Ok(Some(row(1, 1, vec![1]))));
}

#[test]
fn local_clock_shows_the_timestamp_it_issued_last() {
    let mut clock = LocalClock::new();
    assert_eq!(clock.ticks, 0);
    clock.now().unwrap();
    clock.now().unwrap();
    assert_eq!(clock.ticks, 2);
    let mut spent = LocalClock::resume_after(u64::MAX);
    assert_eq!(spent.now(), Err(MvccError::ClockExhausted));
    assert_eq!(spent.ticks, u64::MAX);
}

#[test]
fn the_last_timestamp_can_still_be_issued() {
    let mut store = MvStore::new(LocalClock::resume_after(u64::MAX - 3));
    let tx = store.begin().unwrap();
    assert_eq!(store.snapshot_ts(tx), Some(u64::MAX - 2));
    store.insert(tx, row(1, 1, vec![1])).unwrap();
    assert_eq!(store.commit(tx), Ok(u64::MAX - 1));
    let last = store.begin().unwrap();
    assert_eq!(store.snapshot_ts(last), Some(u64::MAX));
    assert_eq!(store.read(last, rid(1, 1)), Ok(Some(row(1, 1, vec![1]))));
    assert_eq!(store.begin(), Err(MvccError::ClockExhausted));
    assert_eq!(store.commit(last), Err(MvccError::ClockExhausted));
    store.abort(last);
    assert_eq!(store.tx_state(last), Some(TxState::Aborted));
}
