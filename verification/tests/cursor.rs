use mvcc_store::clock::LocalClock;
use mvcc_store::cursor::ScanCursor;
use mvcc_store::error::MvccError;
use mvcc_store::row::{Row, RowID};
use mvcc_store::store::MvStore;

fn rid(table_id: u64, row_id: u64) -> RowID {
    RowID { table_id, row_id }
}

fn row(table_id: u64, row_id: u64, columns: Vec<i64>) -> Row {
    Row::new(rid(table_id, row_id), columns)
}

fn two_tables() -> MvStore<LocalClock> {
    let mut store = MvStore::new(LocalClock::new());
    let tx = store.begin().unwrap();
    store.insert(tx, row(1, 1, vec![11])).unwrap();
    store.insert(tx, row(2, 1, vec![21])).unwrap();
    store.insert(tx, row(1, 2, vec![12])).unwrap();
    store.insert(tx, row(1, 3, vec![13])).unwrap();
    store.commit(tx).unwrap();
    store
}

#[test]
fn scan_lists_the_identities_of_one_table_in_insertion_order() {
    let store = two_tables();
    assert_eq!(store.scan_row_ids_for_table(1), vec![rid(1, 1), rid(1, 2), rid(1, 3)]);
    assert_eq!(store.scan_row_ids_for_table(2), vec![rid(2, 1)]);
    assert_eq!(store.scan_row_ids_for_table(3), vec![]);
}

#[test]
fn scan_does_not_filter_by_visibility() {
    let mut store = two_tables();
    let tx = store.begin().unwrap();
    store.delete(tx, rid(1, 2)).unwrap();
    store.insert(tx, row(1, 4, vec![14])).unwrap();
    store.commit(tx).unwrap();
    let aborted = store.begin().unwrap();
    store.insert(aborted, row(1, 5, vec![15])).unwrap();
    store.abort(aborted);
    assert_eq!(
        store.scan_row_ids_for_table(1),
        vec![rid(1, 1), rid(1, 2), rid(1, 3), rid(1, 4), rid(1, 5)]
    );
}

#[test]
fn cursor_starts_before_the_first_row() {
    let mut store = two_tables();
    let tx = store.begin().unwrap();
    let mut cursor = ScanCursor::new(&store, tx, 1).unwrap();
    assert_eq!(cursor.position(), None);
    assert_eq!(cursor.current_row_id(), None);
    assert_eq!(cursor.current_row(&store), Ok(None));
    assert!(!cursor.is_empty());
    assert!(cursor.forward());
    assert_eq!(cursor.position(), Some(0));
    assert_eq!(cursor.current_row_id(), Some(rid(1, 1)));
    assert_eq!(cursor.current_row(&store), Ok(Some(row(1, 1, vec![11]))));
}

#[test]
fn cursor_walks_the_table_and_stops_past_the_end() {
    let mut store = two_tables();
    let tx = store.begin().unwrap();
    let mut cursor = ScanCursor::new(&store, tx, 1).unwrap();
    let mut seen = Vec::new();
    while cursor.forward() {
        assert!(!cursor.is_empty());
        seen.push(cursor.current_row(&store).unwrap().unwrap());
    }
    assert_eq!(seen, vec![row(1, 1, vec![11]), row(1, 2, vec![12]), row(1, 3, vec![13])]);
    assert!(cursor.is_empty());
    assert_eq!(cursor.position(), Some(3));
    assert_eq!(cursor.current_row_id(), None);
    assert_eq!(cursor.current_row(&store), Ok(None));
    assert!(!cursor.forward());
    assert!(!cursor.forward());
    assert!(cursor.is_empty());
    assert_eq!(cursor.current_row_id(), None);
    assert_eq!(cursor.close(), Ok(()));
}

#[test]
fn cursor_over_an_empty_table() {
    let mut store = two_tables();
    let tx = store.begin().unwrap();
    let mut cursor = ScanCursor::new(&store, tx, 7).unwrap();
    // no position remains, before the first step as after it
    assert_eq!(cursor.row_ids(), &vec![]);
    assert!(cursor.is_empty());
    assert_eq!(cursor.position(), None);
    assert_eq!(cursor.current_row_id(), None);
    assert_eq!(cursor.current_row(&store), Ok(None));
    assert!(!cursor.forward());
    assert_eq!(cursor.position(), Some(0));
    assert!(cursor.is_empty());
    assert_eq!(cursor.current_row_id(), None);
    assert_eq!(cursor.current_row(&store), Ok(None));
}

#[test]
fn cursor_does_not_skip_rows_that_it_cannot_see() {
    let mut store = two_tables();
    let deleter = store.begin().unwrap();
    store.delete(deleter, rid(1, 2)).unwrap();
    store.commit(deleter).unwrap();
    let writer = store.begin().unwrap();
    store.insert(writer, row(1, 4, vec![14])).unwrap();
    let tx = store.begin().unwrap();
    let mut cursor = ScanCursor::new(&store, tx, 1).unwrap();
    assert!(cursor.forward());
    assert_eq!(cursor.current_row(&store), Ok(Some(row(1, 1, vec![11]))));
    assert!(cursor.forward());
    assert_eq!(cursor.current_row_id(), Some(rid(1, 2)));
    assert_eq!(cursor.current_row(&store), Ok(None));
    assert!(cursor.forward());
    assert_eq!(cursor.current_row(&store), Ok(Some(row(1, 3, vec![13]))));
    assert!(cursor.forward());
    assert_eq!(cursor.current_row_id(), Some(rid(1, 4)));
    assert_eq!(cursor.current_row(&store), Ok(None));
    assert!(!cursor.forward());
}

#[test]
fn cursor_never_shows_a_write_committed_after_it_was_opened() {
    let mut store = two_tables();
    let tx = store.begin().unwrap();
    let mut cursor = ScanCursor::new(&store, tx, 1).unwrap();
    assert!(cursor.forward());
    let writer = store.begin().unwrap();
    store.update(writer, rid(1, 1), row(1, 1, vec![110])).unwrap();
    store.update(writer, rid(1, 2), row(1, 2, vec![120])).unwrap();
    store.delete(writer, rid(1, 3)).unwrap();
    store.insert(writer, row(1, 4, vec![140])).unwrap();
    store.commit(writer).unwrap();
    store.collect_garbage(false);
    assert_eq!(cursor.current_row(&store), Ok(Some(row(1, 1, vec![11]))));
    assert!(cursor.forward());
    assert_eq!(cursor.current_row(&store), Ok(Some(row(1, 2, vec![12]))));
    assert!(cursor.forward());
    assert_eq!(cursor.current_row(&store), Ok(Some(row(1, 3, vec![13]))));
    // the identities were fixed when the cursor was opened
    assert!(!cursor.forward());
    let later = store.begin().unwrap();
    let mut fresh = ScanCursor::new(&store, later, 1).unwrap();
    assert!(fresh.forward());
    assert_eq!(fresh.current_row(&store), Ok(Some(row(1, 1, vec![110]))));
}

#[test]
fn cursor_shows_the_writes_of_its_own_transaction() {
    let mut store = two_tables();
    let tx = store.begin().unwrap();
    let mut cursor = ScanCursor::new(&store, tx, 1).unwrap();
    store.update(tx, rid(1, 1), row(1, 1, vec![5])).unwrap();
    assert!(cursor.forward());
    assert_eq!(cursor.current_row(&store), Ok(Some(row(1, 1, vec![5]))));
}

#[test]
fn cursor_of_a_finished_transaction_cannot_resolve_rows() {
    let mut store = two_tables();
    let tx = store.begin().unwrap();
    let mut cursor = ScanCursor::new(&store, tx, 1).unwrap();
    assert!(cursor.forward());
    store.commit(tx).unwrap();
    assert_eq!(cursor.current_row_id(), Some(rid(1, 1)));
    assert_eq!(cursor.current_row(&store), Err(MvccError::InvalidTransactionState));
    while cursor.forward() {}
    assert_eq!(cursor.current_row(&store), Ok(None));
}

#[test]
fn close_leaves_the_transaction_alone() {
    let mut store = two_tables();
    let tx = store.begin().unwrap();
    let cursor = ScanCursor::new(&store, tx, 1).unwrap();
    assert_eq!(cursor.close(), Ok(()));
    assert!(store.is_active(tx));
    assert!(store.commit(tx).is_ok());
}

#[test]
fn cursor_remembers_its_transaction_and_identities() {
    let mut store = two_tables();
    let tx = store.begin().unwrap();
    let cursor = ScanCursor::new(&store, tx, 1).unwrap();
    let writer = store.begin().unwrap();
    store.insert(writer, row(1, 9, vec![19])).unwrap();
    assert_eq!(cursor.tx_id(), tx);
    assert_eq!(cursor.row_ids(), &vec![rid(1, 1), rid(1, 2), rid(1, 3)]);
}

#[test]
fn forward_moves_on_past_the_end() {
    let mut store = two_tables();
    let tx = store.begin().unwrap();
    let mut cursor = ScanCursor::new(&store, tx, 2).unwrap();
    assert!(cursor.forward());
    assert_eq!(cursor.position(), Some(0));
    assert!(!cursor.is_empty());
    assert!(!cursor.forward());
    assert_eq!(cursor.position(), Some(1));
    assert!(cursor.is_empty());
    assert!(!cursor.forward());
    assert_eq!(cursor.position(), Some(2));
    assert!(!cursor.forward());
    assert_eq!(cursor.position(), Some(3));
    assert!(cursor.is_empty());
    assert_eq!(cursor.current_row_id(), None);
    assert_eq!(cursor.current_row(&store), Ok(None));
    assert_eq!(cursor.row_ids(), &vec![rid(2, 1)]);
}

#[test]
fn cursor_of_a_later_reader_shows_the_one_update_that_committed() {
    let mut store = two_tables();
    let tx1 = store.begin().unwrap();
    let tx2 = store.begin().unwrap();
    assert_eq!(store.update(tx1, rid(1, 2), row(1, 2, vec![100])), Ok(()));
    let first = store.commit(tx1);
    assert_eq!(store.update(tx2, rid(1, 2), row(1, 2, vec![200])), Ok(()));
    let second = store.commit(tx2);
    assert!(first.is_ok());
    assert_eq!(second, Err(MvccError::WriteConflict));
    let tx3 = store.begin().unwrap();
    let mut cursor = ScanCursor::new(&store, tx3, 1).unwrap();
    assert!(cursor.forward());
    assert!(cursor.forward());
    assert_eq!(cursor.current_row_id(), Some(rid(1, 2)));
    assert_eq!(cursor.current_row(&store), Ok(Some(row(1, 2, vec![100]))));
}

#[test]
fn new_cursor_over_an_empty_store_is_empty() {
    let mut store = MvStore::new(LocalClock::new());
    let tx = store.begin().unwrap();
    let cursor = ScanCursor::new(&store, tx, 7).unwrap();
    assert!(cursor.is_empty());
    assert_eq!(cursor.current_row_id(), None);
    assert_eq!(cursor.current_row(&store), Ok(None));
}

#[test]
fn is_empty_is_false_on_a_row_that_the_cursor_cannot_see() {
    let mut store = two_tables();
    let deleter = store.begin().unwrap();
    store.delete(deleter, rid(2, 1)).unwrap();
    store.commit(deleter).unwrap();
    let tx = store.begin().unwrap();
    let mut cursor = ScanCursor::new(&store, tx, 2).unwrap();
    assert!(!cursor.is_empty());
    assert!(cursor.forward());
    assert_eq!(cursor.current_row(&store), Ok(None));
    assert!(!cursor.is_empty());
    assert!(!cursor.forward());
    assert!(cursor.is_empty());
}
