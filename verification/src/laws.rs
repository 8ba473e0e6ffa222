//! What the store guarantees, proved of its abstract state.

use vstd::prelude::*;
use crate::chain_lemmas::{
    lemma_discarded_unseen, lemma_finalized_unseen, lemma_reclaimed_unseen, lemma_reclaimed_wf,
    lemma_visible_not_reclaimable, lemma_watermark_bounds, lemma_written_unseen, reclaim_count,
};
use crate::consistency::{
    chain_wf, committed_since, has_commit_since, lemma_has_row, lemma_position, precedes, serial,
    tx_wf, version_wf,
};
use crate::cursor::CursorView;
use crate::error::MvccError;
use crate::model::{Op, StoreView};
use crate::preservation::{
    lemma_abort_inv, lemma_chain_after_push, lemma_chain_after_update, lemma_chain_mapped,
    lemma_commit_inv, lemma_empty_inv, lemma_noted, lemma_run_inv, lemma_step_inv,
    lemma_write_finds_row, lemma_write_inv,
};
use crate::row::{RowID, RowView};
use crate::transaction::TxState;
use crate::version::{
    committed_after, discarded, finalized, has_commit_after, pending_owner, pending_version,
    reclaimable, reclaimed, row_seen, version_visible, written, BeginStamp, ChainView,
    VersionView,
};

verus! {

/// One operation of another transaction, or of nobody, changes nothing of
/// what an active transaction reads, and leaves it active.
pub proof fn lemma_step_unseen(s: StoreView, op: Op, tx_id: u64, id: RowID)
    requires
        s.inv(),
        op.timely(s),
        s.is_active(tx_id),
        op.actor() != Some(tx_id),
    ensures
        s.step(op).is_active(tx_id),
        s.step(op).txs[tx_id as int].snapshot_ts == s.txs[tx_id as int].snapshot_ts,
        s.step(op).seen(tx_id, id) == s.seen(tx_id, id),
{
    let s2 = s.step(op);
    let snapshot_ts = s.txs[tx_id as int].snapshot_ts;
    assert(tx_wf(s.txs[tx_id as int], tx_id as int, s.latest));
    match op {
        Op::Begin { ts } => {},
        Op::Insert { tx_id: writer, row } => {
            if s.insert_outcome(writer, row.id) is Ok {
                let c = ChainView {
                    id: row.id,
                    versions: seq![pending_version(row.id, writer, Some(row))],
                };
                lemma_chain_after_push(s, c, s2, id);
                if id == row.id {
                    assert(c.versions.drop_last() =~= Seq::empty());
                }
            }
        },
        Op::Update { tx_id: writer, id: target, columns } => {
            if s.write_outcome(writer, target) is Ok {
                lemma_unseen_write(
                    s,
                    writer,
                    target,
                    Some(RowView { id: target, columns }),
                    tx_id,
                    id,
                );
            }
        },
        Op::Delete { tx_id: writer, id: target } => {
            if s.write_outcome(writer, target) is Ok {
                lemma_unseen_write(s, writer, target, None, tx_id, id);
            }
        },
        Op::Commit { tx_id: writer, ts } => {
            if s.is_active(writer) {
                lemma_chain_mapped(s, s2, id);
                if s.has_row(id) {
                    let i = s.position(id);
                    assert(chain_wf(s.rows[i], s.txs, s.latest));
                    if s.has_conflict(writer) {
                        lemma_discarded_unseen(s.rows[i].versions, writer, tx_id, snapshot_ts);
                    } else {
                        lemma_finalized_unseen(s.rows[i].versions, writer, ts, tx_id, snapshot_ts);
                    }
                }
            }
        },
        Op::Abort { tx_id: writer } => {
            if s.is_active(writer) {
                lemma_chain_mapped(s, s2, id);
                if s.has_row(id) {
                    let i = s.position(id);
                    lemma_discarded_unseen(s.rows[i].versions, writer, tx_id, snapshot_ts);
                }
            }
        },
        Op::CollectGarbage { purge } => {
            lemma_chain_mapped(s, s2, id);
            lemma_watermark_bounds(s.txs, tx_id as int);
            if s.has_row(id) {
                let i = s.position(id);
                assert(chain_wf(s.rows[i], s.txs, s.latest));
                lemma_reclaimed_unseen(
                    s.rows[i],
                    s.txs,
                    s.latest,
                    s.watermark().unwrap(),
                    tx_id,
                    snapshot_ts,
                );
            } else {
                assert(reclaimed(Seq::<VersionView>::empty(), s.watermark(), purge)
                    =~= Seq::empty()) by {
                    reveal(Seq::filter);
                }
            }
        },
    }
}

/// A write by one transaction changes nothing of what another reads.
proof fn lemma_unseen_write(
    s: StoreView,
    writer: u64,
    target: RowID,
    data: Option<RowView>,
    reader: u64,
    id: RowID,
)
    requires
        s.inv(),
        s.write_outcome(writer, target) is Ok,
        s.is_active(reader),
        reader != writer,
    ensures
        s.after_write(writer, target, data).seen(reader, id) == s.seen(reader, id),
{
    let s2 = s.after_write(writer, target, data);
    lemma_write_finds_row(s, writer, target);
    lemma_has_row(s, target);
    let i = s.position(target);
    let c = ChainView { id: target, versions: written(s.rows[i].versions, target, writer, data) };
    lemma_chain_after_update(s, i, c, s2, id);
    if id == target {
        lemma_written_unseen(
            s.rows[i].versions,
            target,
            writer,
            data,
            reader,
            s.txs[reader as int].snapshot_ts,
        );
    }
}

/// Snapshot isolation. Whatever other transactions do, and whenever the
/// collector runs, an active transaction reads the same row under the same
/// identity: its reads are repeatable until it writes itself.
pub proof fn lemma_snapshot_isolation(s: StoreView, ops: Seq<Op>, tx_id: u64, id: RowID)
    requires
        s.inv(),
        s.timely(ops),
        s.is_active(tx_id),
        forall|k: int| 0 <= k < ops.len() ==> (#[trigger] ops[k]).actor() != Some(tx_id),
    ensures
        s.run(ops).inv(),
        s.run(ops).is_active(tx_id),
        s.run(ops).txs[tx_id as int].snapshot_ts == s.txs[tx_id as int].snapshot_ts,
        s.run(ops).seen(tx_id, id) == s.seen(tx_id, id),
    decreases ops.len(),
{
    if ops.len() > 0 {
        let before = ops.drop_last();
        assert forall|k: int| 0 <= k < before.len() implies (#[trigger] before[k]).actor() != Some(
            tx_id,
        ) by {
            assert(before[k] == ops[k]);
        }
        lemma_snapshot_isolation(s, before, tx_id, id);
        assert(ops.last() == ops[ops.len() - 1]);
        lemma_step_unseen(s.run(before), ops.last(), tx_id, id);
        lemma_step_inv(s.run(before), ops.last());
    }
}

/// Read your own writes. A transaction that wrote a row, or deleted it,
/// reads what it wrote.
pub proof fn lemma_reads_own_write(s: StoreView, tx_id: u64, id: RowID, data: Option<RowView>)
    requires
        s.inv(),
        s.write_outcome(tx_id, id) is Ok,
    ensures
        s.after_write(tx_id, id, data).seen(tx_id, id) == data,
{
    let s2 = s.after_write(tx_id, id, data);
    lemma_write_finds_row(s, tx_id, id);
    lemma_has_row(s, id);
    let i = s.position(id);
    let c = ChainView { id, versions: written(s.rows[i].versions, id, tx_id, data) };
    lemma_chain_after_update(s, i, c, s2, id);
}

/// A transaction that inserted a row reads that row.
pub proof fn lemma_reads_own_insert(s: StoreView, tx_id: u64, row: RowView)
    requires
        s.inv(),
        s.insert_outcome(tx_id, row.id) is Ok,
    ensures
        s.after_insert(tx_id, row).seen(tx_id, row.id) == Some(row),
{
    let s2 = s.after_insert(tx_id, row);
    let c = ChainView { id: row.id, versions: seq![pending_version(row.id, tx_id, Some(row))] };
    lemma_chain_after_push(s, c, s2, row.id);
}

/// No lost updates, among committed transactions: of two that wrote the
/// same row, one committed before the other took its snapshot.
pub proof fn lemma_no_lost_updates(s: StoreView, a: u64, b: u64, id: RowID)
    requires
        s.inv(),
        s.knows(a),
        s.knows(b),
        a != b,
        s.txs[a as int].state == TxState::Committed,
        s.txs[b as int].state == TxState::Committed,
        s.txs[a as int].write_set.contains(id),
        s.txs[b as int].write_set.contains(id),
    ensures
        serial(s.txs[a as int], s.txs[b as int]),
{
    assert(tx_wf(s.txs[a as int], a as int, s.latest));
    assert(tx_wf(s.txs[b as int], b as int, s.latest));
}

/// No lost updates, at commit: a transaction that wrote a row which another
/// transaction wrote and committed after its snapshot has a conflict, so its
/// commit is refused.
pub proof fn lemma_late_writer_conflicts(s: StoreView, tx_id: u64, winner: u64, id: RowID)
    requires
        s.inv(),
        s.is_active(tx_id),
        s.knows(winner),
        s.txs[winner as int].commit_ts.is_some(),
        s.txs[winner as int].commit_ts.unwrap() > s.txs[tx_id as int].snapshot_ts,
        s.txs[tx_id as int].write_set.contains(id),
        s.txs[winner as int].write_set.contains(id),
    ensures
        s.has_conflict(tx_id),
{
    let me = s.txs[tx_id as int];
    let c = s.txs[winner as int].commit_ts.unwrap();
    let vs = s.chain(id);
    assert(s.recorded(id, c));
    assert(has_commit_since(vs, c));
    let j = choose|j: int| 0 <= j < vs.len() && #[trigger] committed_since(vs[j], c);
    assert(committed_after(vs[j], me.snapshot_ts));
    let k = choose|k: int| 0 <= k < me.write_set.len() && me.write_set[k] == id;
    assert(has_commit_after(s.chain(me.write_set[k]), me.snapshot_ts));
}

/// No lost updates, at write: while an active transaction holds an
/// uncommitted version of a row, every other transaction that sees the row
/// is refused when it writes to it.
pub proof fn lemma_second_writer_refused(s: StoreView, tx_id: u64, holder: u64, id: RowID)
    requires
        s.inv(),
        s.is_active(tx_id),
        s.is_active(holder),
        holder != tx_id,
        s.txs[holder as int].write_set.contains(id),
        s.seen(tx_id, id) is Some,
    ensures
        s.write_outcome(tx_id, id) == Err::<(), MvccError>(MvccError::WriteConflict),
{
    assert(pending_owner(s.chain(id)) == Some(holder));
}

/// No lost updates, among active transactions: no two of them have written
/// the same row.
pub proof fn lemma_one_active_writer(s: StoreView, a: u64, b: u64, id: RowID)
    requires
        s.inv(),
        s.is_active(a),
        s.is_active(b),
        s.txs[a as int].write_set.contains(id),
        s.txs[b as int].write_set.contains(id),
    ensures
        a == b,
{
    assert(pending_owner(s.chain(id)) == Some(a));
    assert(pending_owner(s.chain(id)) == Some(b));
}

/// A commit publishes: whoever takes a snapshot at or after the commit
/// timestamp sees, of every row that the transaction wrote, the version that
/// the transaction read as its own before it committed.
pub proof fn lemma_commit_publishes(
    s: StoreView,
    tx_id: u64,
    ts: u64,
    id: RowID,
    reader: u64,
    snapshot_ts: u64,
)
    requires
        s.inv(),
        s.is_active(tx_id),
        s.txs[tx_id as int].write_set.contains(id),
        snapshot_ts >= ts,
    ensures
        row_seen(s.after_commit(tx_id, ts).chain(id), reader, snapshot_ts) == s.seen(tx_id, id),
{
    let s2 = s.after_commit(tx_id, ts);
    assert(pending_owner(s.chain(id)) == Some(tx_id));
    assert(s.same_ids(s2));
    lemma_chain_mapped(s, s2, id);
}

/// The state after `first` wrote `v1` to row `id` and committed at `ts`,
/// and `second` then wrote `v2` to the same row.
pub open spec fn after_two_updaters(
    s: StoreView,
    first: u64,
    second: u64,
    id: RowID,
    v1: Seq<i64>,
    v2: Seq<i64>,
    ts: u64,
) -> StoreView {
    s.after_write(first, id, Some(RowView { id, columns: v1 })).after_commit(first, ts).after_write(
        second,
        id,
        Some(RowView { id, columns: v2 }),
    )
}

/// No lost updates, for two updaters of one row. Two transactions are
/// active at the same time; the first updates a row and commits, with
/// nobody in its way; the second, which still sees the row of its snapshot,
/// updates it too. Then the commit of the second is refused for a conflict,
/// so exactly one of the two commits; and a transaction that begins after
/// both reads the value of the one that committed, not the other.
pub proof fn lemma_one_of_two_updaters_commits(
    s: StoreView,
    first: u64,
    second: u64,
    id: RowID,
    v1: Seq<i64>,
    v2: Seq<i64>,
    ts: u64,
    later: u64,
)
    requires
        s.inv(),
        s.is_active(first),
        s.is_active(second),
        first != second,
        s.write_outcome(first, id) is Ok,
        !s.after_write(first, id, Some(RowView { id, columns: v1 })).has_conflict(first),
        ts > s.latest,
        s.after_write(first, id, Some(RowView { id, columns: v1 })).after_commit(
            first,
            ts,
        ).write_outcome(second, id) is Ok,
        later > ts,
    ensures
        ({
            let raced = after_two_updaters(s, first, second, id, v1, v2, ts);
            let settled = raced.step(Op::Commit { tx_id: second, ts: later });
            let reader = settled.txs.len() as u64;
            &&& raced.inv()
            &&& raced.txs[first as int].state == TxState::Committed
            &&& raced.is_active(second)
            &&& raced.has_conflict(second)
            &&& settled == raced.after_abort(second)
            &&& settled.txs[second as int].state == TxState::Aborted
            &&& settled.after_begin(later).seen(reader, id) == Some(RowView { id, columns: v1 })
        }),
{
    let d1 = Some(RowView { id, columns: v1 });
    let d2 = Some(RowView { id, columns: v2 });
    let s1 = s.after_write(first, id, d1);
    let s2 = s1.after_commit(first, ts);
    let s3 = s2.after_write(second, id, d2);
    let s4 = s3.after_abort(second);
    let s5 = s4.after_begin(later);
    let reader = s4.txs.len() as u64;
    lemma_write_finds_row(s, first, id);
    lemma_write_inv(s, first, id, d1);
    lemma_reads_own_write(s, first, id, d1);
    lemma_noted(s.txs[first as int].write_set, id, id);
    lemma_commit_inv(s1, first, ts);
    lemma_commit_publishes(s1, first, ts, id, reader, later);
    lemma_write_finds_row(s2, second, id);
    lemma_write_inv(s2, second, id, d2);
    lemma_noted(s2.txs[second as int].write_set, id, id);
    assert(tx_wf(s.txs[second as int], second as int, s.latest));
    lemma_late_writer_conflicts(s3, second, first, id);
    lemma_abort_inv(s3, second);
    // the reader's view is the one that the commit of `first` published
    lemma_has_row(s2, id);
    let i = s2.position(id);
    let c3 = ChainView { id, versions: written(s2.rows[i].versions, id, second, d2) };
    lemma_chain_after_update(s2, i, c3, s3, id);
    lemma_written_unseen(s2.rows[i].versions, id, second, d2, reader, later);
    assert(s3.same_ids(s4));
    lemma_chain_mapped(s3, s4, id);
    lemma_discarded_unseen(s3.chain(id), second, reader, later);
    assert(s5.chain(id) == s4.chain(id));
}

/// Commit atomicity. No version in the store was written by an aborted
/// transaction: an uncommitted version belongs to an active transaction, and
/// a committed one carries the commit timestamp of a committed transaction.
pub proof fn lemma_versions_have_live_writers(s: StoreView, i: int, j: int)
    requires
        s.inv(),
        0 <= i < s.rows.len(),
        0 <= j < s.rows[i].versions.len(),
    ensures
        s.knows(s.rows[i].versions[j].created_by),
        match s.rows[i].versions[j].begin {
            BeginStamp::Pending(owner) => owner == s.rows[i].versions[j].created_by && s.is_active(
                owner,
            ),
            BeginStamp::Committed(begin_ts) => {
                &&& s.txs[s.rows[i].versions[j].created_by as int].state == TxState::Committed
                &&& s.txs[s.rows[i].versions[j].created_by as int].commit_ts == Some(begin_ts)
            },
        },
        s.txs[s.rows[i].versions[j].created_by as int].state != TxState::Aborted,
{
    let c = s.rows[i];
    assert(chain_wf(c, s.txs, s.latest));
    assert(version_wf(c.versions[j], c.id, j == c.versions.len() - 1, s.txs, s.latest));
}

/// The states `Committed` and `Aborted` are final: no operation changes
/// anything in the record of a transaction that has finished, and no
/// operation forgets a transaction.
pub proof fn lemma_finished_is_final(s: StoreView, op: Op, tx_id: u64)
    requires
        s.knows(tx_id),
        s.txs[tx_id as int].state != TxState::Active,
    ensures
        s.step(op).knows(tx_id),
        s.step(op).txs[tx_id as int] == s.txs[tx_id as int],
{
}

/// The store as a commit of `tx_id` at `ts` leaves it when it is interrupted
/// after `done` chains. A commit works through the chains first and marks
/// the transaction committed last.
pub open spec fn commit_interrupted(s: StoreView, tx_id: u64, ts: u64, done: int) -> StoreView {
    StoreView {
        latest: ts,
        rows: Seq::new(
            s.rows.len(),
            |i: int|
                if i < done {
                    ChainView {
                        id: s.rows[i].id,
                        versions: finalized(s.rows[i].versions, tx_id, ts),
                    }
                } else {
                    s.rows[i]
                },
        ),
        ..s
    }
}

/// The store as an abort of `tx_id` leaves it when it is interrupted after
/// `done` chains. An abort works through the chains first and marks the
/// transaction aborted last.
pub open spec fn abort_interrupted(s: StoreView, tx_id: u64, done: int) -> StoreView {
    StoreView {
        rows: Seq::new(
            s.rows.len(),
            |i: int|
                if i < done {
                    ChainView { id: s.rows[i].id, versions: discarded(s.rows[i].versions, tx_id) }
                } else {
                    s.rows[i]
                },
        ),
        ..s
    }
}

/// No version in the store was written by an aborted transaction.
pub open spec fn writers_live(s: StoreView) -> bool {
    forall|i: int, j: int|
        0 <= i < s.rows.len() && 0 <= j < s.rows[i].versions.len() ==> s.knows(
            (#[trigger] s.rows[i].versions[j]).created_by,
        ) && s.txs[s.rows[i].versions[j].created_by as int].state != TxState::Aborted
}

/// Commit atomicity under interruption. Wherever a commit or an abort is
/// interrupted, no version in the store belongs to a transaction that
/// reports itself as aborted: a transaction reports so only when all its
/// versions are gone. And until then every other active transaction reads
/// what it read before.
pub proof fn lemma_interruption_is_safe(
    s: StoreView,
    tx_id: u64,
    ts: u64,
    done: int,
    reader: u64,
    i: int,
)
    requires
        s.inv(),
        s.is_active(tx_id),
        ts > s.latest,
        0 <= done <= s.rows.len(),
        s.is_active(reader),
        reader != tx_id,
        0 <= i < s.rows.len(),
    ensures
        writers_live(commit_interrupted(s, tx_id, ts, done)),
        writers_live(abort_interrupted(s, tx_id, done)),
        commit_interrupted(s, tx_id, ts, done).is_active(tx_id),
        abort_interrupted(s, tx_id, done).is_active(tx_id),
        row_seen(
            commit_interrupted(s, tx_id, ts, done).rows[i].versions,
            reader,
            s.txs[reader as int].snapshot_ts,
        ) == s.seen(reader, s.rows[i].id),
        row_seen(
            abort_interrupted(s, tx_id, done).rows[i].versions,
            reader,
            s.txs[reader as int].snapshot_ts,
        ) == s.seen(reader, s.rows[i].id),
{
    let c = commit_interrupted(s, tx_id, ts, done);
    let a = abort_interrupted(s, tx_id, done);
    assert forall|m: int, j: int| 0 <= m < c.rows.len() && 0 <= j < c.rows[m].versions.len() implies c.knows(
        (#[trigger] c.rows[m].versions[j]).created_by,
    ) && c.txs[c.rows[m].versions[j].created_by as int].state != TxState::Aborted by {
        lemma_versions_have_live_writers(s, m, j);
    }
    assert forall|m: int, j: int| 0 <= m < a.rows.len() && 0 <= j < a.rows[m].versions.len() implies a.knows(
        (#[trigger] a.rows[m].versions[j]).created_by,
    ) && a.txs[a.rows[m].versions[j].created_by as int].state != TxState::Aborted by {
        lemma_versions_have_live_writers(s, m, j);
    }
    let snapshot_ts = s.txs[reader as int].snapshot_ts;
    assert(tx_wf(s.txs[reader as int], reader as int, s.latest));
    assert(chain_wf(s.rows[i], s.txs, s.latest));
    lemma_position(s, i);
    lemma_finalized_unseen(s.rows[i].versions, tx_id, ts, reader, snapshot_ts);
    lemma_discarded_unseen(s.rows[i].versions, tx_id, reader, snapshot_ts);
}

/// Every state that operations reach from the empty store satisfies the
/// invariant, whatever the order of the operations.
pub proof fn lemma_reachable_inv(latest: u64, ops: Seq<Op>)
    requires
        StoreView::empty(latest).timely(ops),
    ensures
        StoreView::empty(latest).run(ops).inv(),
{
    lemma_empty_inv(latest);
    lemma_run_inv(StoreView::empty(latest), ops);
}

/// At most one committed version of a row is visible to a transaction.
pub proof fn lemma_one_committed_visible(
    s: StoreView,
    i: int,
    j: int,
    k: int,
    tx_id: u64,
    snapshot_ts: u64,
)
    requires
        s.inv(),
        0 <= i < s.rows.len(),
        0 <= j < s.rows[i].versions.len(),
        0 <= k < s.rows[i].versions.len(),
        s.rows[i].versions[j].begin is Committed,
        s.rows[i].versions[k].begin is Committed,
        version_visible(s.rows[i].versions[j], tx_id, snapshot_ts),
        version_visible(s.rows[i].versions[k], tx_id, snapshot_ts),
    ensures
        j == k,
{
    let vs = s.rows[i].versions;
    assert(chain_wf(s.rows[i], s.txs, s.latest));
    if j < k {
        assert(precedes(vs[j], vs[k]));
    } else if k < j {
        assert(precedes(vs[k], vs[j]));
    }
}

/// Cursor stability. What a cursor shows at its position does not change
/// through the operations of other transactions, also where they commit
/// after the cursor was opened.
pub proof fn lemma_cursor_stability(cursor: CursorView, s: StoreView, ops: Seq<Op>)
    requires
        s.inv(),
        s.timely(ops),
        s.is_active(cursor.tx_id),
        forall|k: int| 0 <= k < ops.len() ==> (#[trigger] ops[k]).actor() != Some(cursor.tx_id),
    ensures
        cursor.resolves(s.run(ops)) == cursor.resolves(s),
        cursor.advanced().resolves(s.run(ops)) == cursor.advanced().resolves(s),
{
    if cursor.current() is Some {
        lemma_snapshot_isolation(s, ops, cursor.tx_id, cursor.current().unwrap());
    }
    if cursor.advanced().current() is Some {
        lemma_snapshot_isolation(s, ops, cursor.tx_id, cursor.advanced().current().unwrap());
    }
}

/// Safety of garbage collection. A version that an active transaction sees
/// is kept by a collection cycle, and the transaction reads the same row
/// after the cycle.
pub proof fn lemma_gc_keeps_visible(s: StoreView, purge: bool, tx_id: u64, i: int, j: int)
    requires
        s.inv(),
        s.is_active(tx_id),
        0 <= i < s.rows.len(),
        0 <= j < s.rows[i].versions.len(),
        version_visible(s.rows[i].versions[j], tx_id, s.txs[tx_id as int].snapshot_ts),
    ensures
        s.after_gc(purge).rows[i].versions.contains(s.rows[i].versions[j]),
        s.after_gc(purge).seen(tx_id, s.rows[i].id) == s.seen(tx_id, s.rows[i].id),
{
    let c = s.rows[i];
    let w = s.watermark();
    lemma_watermark_bounds(s.txs, tx_id as int);
    lemma_visible_not_reclaimable(c.versions[j], tx_id, s.txs[tx_id as int].snapshot_ts, w.unwrap());
    assert(!reclaimable(c.versions[j], w, purge));
    assert(chain_wf(c, s.txs, s.latest));
    lemma_reclaimed_wf(c, s.txs, s.latest, w, purge);
    let m = reclaim_count(c.versions, w, purge);
    assert(reclaimed(c.versions, w, purge)[j - m] == c.versions[j]);
    lemma_step_unseen(s, Op::CollectGarbage { purge }, tx_id, c.id);
}

} // verus!
