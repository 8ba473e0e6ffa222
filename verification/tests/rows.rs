use mvcc_store::row::{copy_columns, Row, RowID};
use mvcc_store::transaction::Transaction;
use mvcc_store::version::{BeginStamp, EndStamp, RowChain, RowVersion};

fn rid(table_id: u64, row_id: u64) -> RowID {
    RowID { table_id, row_id }
}

fn committed(begin: u64, end: Option<u64>, value: Option<i64>) -> RowVersion {
    RowVersion {
        row_id: rid(1, 1),
        created_by: 0,
        begin: BeginStamp::Committed(begin),
        end: match end {
            Some(e) => EndStamp::At(e),
            None => EndStamp::Open,
        },
        data: value.map(|v| Row::new(rid(1, 1), vec![v])),
    }
}

#[test]
fn row_copies_are_equal_and_independent() {
    let original = Row::new(rid(3, 4), vec![1, -2, 3]);
    let mut copy = original.duplicate();
    assert_eq!(copy, original);
    copy.columns.push(9);
    assert_eq!(original.columns, vec![1, -2, 3]);
    assert_eq!(copy_columns(&vec![]), Vec::<i64>::new());
    assert_eq!(copy_columns(&vec![5, 6]), vec![5, 6]);
}

#[test]
fn row_with_id_keeps_the_columns() {
    let moved = Row::new(rid(3, 4), vec![7, 8]).with_id(rid(5, 6));
    assert_eq!(moved.id, rid(5, 6));
    assert_eq!(moved.columns, vec![7, 8]);
}

#[test]
fn committed_version_is_visible_within_its_lifetime() {
    let v = committed(10, Some(20), Some(1));
    assert!(!v.is_visible_to(0, 9));
    assert!(v.is_visible_to(0, 10));
    assert!(v.is_visible_to(0, 19));
    assert!(!v.is_visible_to(0, 20));
    let open = committed(10, None, Some(1));
    assert!(!open.is_visible_to(0, 9));
    assert!(open.is_visible_to(0, u64::MAX));
}

#[test]
fn uncommitted_version_is_visible_to_its_owner_only() {
    let chain = RowChain::started_by(rid(1, 1), 4, Some(Row::new(rid(1, 1), vec![1])));
    assert!(chain.versions[0].is_visible_to(4, 0));
    assert!(!chain.versions[0].is_visible_to(5, u64::MAX));
    assert_eq!(chain.pending_owner(), Some(4));
    assert_eq!(chain.read(4, 0), Some(Row::new(rid(1, 1), vec![1])));
    assert_eq!(chain.read(5, 100), None);
}

#[test]
fn version_is_reclaimable_once_it_ended_at_or_before_the_watermark() {
    let v = committed(10, Some(20), Some(1));
    assert!(!v.is_reclaimable(Some(19), false));
    assert!(!v.is_reclaimable(Some(19), true));
    assert!(v.is_reclaimable(Some(20), false));
    assert!(v.is_reclaimable(Some(21), false));
    assert!(v.is_reclaimable(None, false));
    assert!(!committed(10, None, Some(1)).is_reclaimable(None, false));
    assert!(!committed(10, None, Some(1)).is_reclaimable(None, true));
    let pending = RowChain::started_by(rid(1, 1), 4, None);
    assert!(!pending.versions[0].is_reclaimable(None, true));
}

#[test]
fn open_tombstone_is_reclaimable_only_by_a_purge_without_readers() {
    let tombstone = committed(10, None, None);
    assert!(!tombstone.is_reclaimable(None, false));
    assert!(tombstone.is_reclaimable(None, true));
    assert!(!tombstone.is_reclaimable(Some(50), true));
    assert!(!tombstone.is_reclaimable(Some(5), true));
}

#[test]
fn chain_reads_the_version_of_the_snapshot() {
    let chain = RowChain {
        id: rid(1, 1),
        versions: vec![
            committed(10, Some(20), Some(1)),
            committed(20, Some(30), None),
            committed(30, None, Some(3)),
        ],
    };
    assert_eq!(chain.read(9, 5), None);
    assert_eq!(chain.read(9, 15), Some(Row::new(rid(1, 1), vec![1])));
    assert_eq!(chain.read(9, 25), None);
    assert!(!chain.shows_row(9, 25));
    assert_eq!(chain.newest_visible(9, 25), Some(1));
    assert_eq!(chain.read(9, 35), Some(Row::new(rid(1, 1), vec![3])));
    assert_eq!(chain.newest_visible(9, 5), None);
    assert!(chain.has_commit_after(29));
    assert!(!chain.has_commit_after(30));
    assert_eq!(chain.pending_owner(), None);
}

#[test]
fn chain_write_finalize_and_discard() {
    let mut chain = RowChain { id: rid(1, 1), versions: vec![committed(10, None, Some(1))] };
    chain.write(7, Some(Row::new(rid(1, 1), vec![2])));
    chain.write(7, Some(Row::new(rid(1, 1), vec![3])));
    assert_eq!(chain.versions.len(), 2);
    assert_eq!(chain.read(7, 10), Some(Row::new(rid(1, 1), vec![3])));
    chain.discard(8);
    chain.finalize(8, 40);
    assert_eq!(chain.versions.len(), 2);
    assert_eq!(chain.pending_owner(), Some(7));
    chain.finalize(7, 50);
    assert_eq!(chain.versions[0].end, EndStamp::At(50));
    assert_eq!(chain.versions[1].begin, BeginStamp::Committed(50));
    assert_eq!(chain.versions[1].end, EndStamp::Open);
    chain.write(9, None);
    assert_eq!(chain.versions.len(), 3);
    chain.discard(9);
    assert_eq!(chain.versions.len(), 2);
    chain.reclaim(Some(49), false);
    assert_eq!(chain.versions.len(), 2);
    chain.reclaim(Some(50), true);
    assert_eq!(chain.versions.len(), 1);
    assert_eq!(chain.versions[0].begin, BeginStamp::Committed(50));
}

#[test]
fn write_set_holds_each_row_once() {
    let mut tx = Transaction::begin(3, 17);
    assert!(tx.is_active());
    assert!(!tx.wrote(rid(1, 1)));
    tx.note_write(rid(1, 1));
    tx.note_write(rid(1, 2));
    tx.note_write(rid(1, 1));
    assert_eq!(tx.write_set, vec![rid(1, 1), rid(1, 2)]);
    assert!(tx.wrote(rid(1, 2)));
    assert_eq!(tx.tx_id, 3);
    assert_eq!(tx.snapshot_ts, 17);
    assert_eq!(tx.commit_ts, None);
}
