//! The invariant of the store: what holds of every state that the
//! operations can reach.

use vstd::prelude::*;
use crate::model::StoreView;
use crate::row::{RowID, RowView};
use crate::transaction::{TxState, TxView};
use crate::version::{pending_owner, BeginStamp, ChainView, EndStamp, VersionView};

verus! {

/// A transaction record is consistent: its id is its index, its timestamps
/// were issued by the clock, and it has a commit timestamp, later than its
/// snapshot, exactly when it is committed.
pub open spec fn tx_wf(t: TxView, index: int, latest: u64) -> bool {
    &&& t.tx_id == index
    &&& t.snapshot_ts <= latest
    &&& (t.state == TxState::Committed) == t.commit_ts.is_some()
    &&& t.commit_ts.is_some() ==> t.snapshot_ts < t.commit_ts.unwrap() <= latest
}

/// A payload stored under `id` belongs to `id`.
pub open spec fn data_belongs(data: Option<RowView>, id: RowID) -> bool {
    match data {
        Some(r) => r.id == id,
        None => true,
    }
}

/// A version is consistent with the transaction table. It belongs to the
/// chain it stands in; its creator is known and has the row in its write set;
/// an uncommitted version stands last, is open, and its owner is active; a
/// committed version begins at the commit timestamp of its creator, which is
/// committed, and ends later than it begins.
pub open spec fn version_wf(
    v: VersionView,
    id: RowID,
    is_last: bool,
    txs: Seq<TxView>,
    latest: u64,
) -> bool {
    &&& v.row_id == id
    &&& data_belongs(v.data, id)
    &&& v.created_by < txs.len()
    &&& txs[v.created_by as int].write_set.contains(id)
    &&& match v.begin {
        BeginStamp::Pending(owner) => {
            &&& owner == v.created_by
            &&& txs[owner as int].state == TxState::Active
            &&& v.end == EndStamp::Open
            &&& is_last
        },
        BeginStamp::Committed(begin_ts) => {
            &&& txs[v.created_by as int].state == TxState::Committed
            &&& txs[v.created_by as int].commit_ts == Some(begin_ts)
            &&& match v.end {
                EndStamp::Open => true,
                EndStamp::At(end_ts) => begin_ts < end_ts <= latest,
            }
        },
    }
}

/// Version `a` ended no later than the committed version `b` began.
pub open spec fn precedes(a: VersionView, b: VersionView) -> bool {
    match (a.end, b.begin) {
        (EndStamp::At(end_ts), BeginStamp::Committed(begin_ts)) => end_ts <= begin_ts,
        _ => false,
    }
}

/// The committed versions of a chain do not overlap: each one ended before
/// any later one began.
pub open spec fn chain_ordered(versions: Seq<VersionView>) -> bool {
    forall|j: int, k: int|
        0 <= j < k < versions.len() && (#[trigger] versions[k]).begin is Committed ==> precedes(
            #[trigger] versions[j],
            versions[k],
        )
}

/// The newest committed version of a chain is not superseded.
pub open spec fn newest_committed_open(versions: Seq<VersionView>) -> bool {
    let n = versions.len() as int;
    &&& n >= 1 && versions[n - 1].begin is Committed ==> versions[n - 1].end == EndStamp::Open
    &&& n >= 2 && versions[n - 1].begin is Pending ==> versions[n - 2].end == EndStamp::Open
}

/// A chain is well formed with respect to the transaction table.
pub open spec fn chain_wf(c: ChainView, txs: Seq<TxView>, latest: u64) -> bool {
    &&& forall|j: int|
        0 <= j < c.versions.len() ==> version_wf(
            #[trigger] c.versions[j],
            c.id,
            j == c.versions.len() - 1,
            txs,
            latest,
        )
    &&& chain_ordered(c.versions)
    &&& newest_committed_open(c.versions)
}

/// Whether the version was committed at `ts` or later.
pub open spec fn committed_since(v: VersionView, ts: u64) -> bool {
    match v.begin {
        BeginStamp::Pending(_) => false,
        BeginStamp::Committed(begin_ts) => begin_ts >= ts,
    }
}

/// Whether the chain holds a version committed at `ts` or later.
pub open spec fn has_commit_since(versions: Seq<VersionView>, ts: u64) -> bool {
    exists|j: int| 0 <= j < versions.len() && #[trigger] committed_since(versions[j], ts)
}

/// Whether every active transaction took its snapshot after `ts`.
pub open spec fn all_active_after(txs: Seq<TxView>, ts: u64) -> bool {
    forall|u: int|
        0 <= u < txs.len() && (#[trigger] txs[u]).state == TxState::Active ==> ts
            < txs[u].snapshot_ts
}

/// Of two committed transactions, one committed before the other began.
pub open spec fn serial(a: TxView, b: TxView) -> bool {
    match (a.commit_ts, b.commit_ts) {
        (Some(ca), Some(cb)) => ca < b.snapshot_ts || cb < a.snapshot_ts,
        _ => false,
    }
}

impl StoreView {
    /// Every transaction record is consistent, and every transaction took a
    /// timestamp of its own from the clock.
    pub open spec fn txs_wf(self) -> bool {
        &&& self.txs.len() <= self.latest
        &&& forall|t: int| 0 <= t < self.txs.len() ==> tx_wf(#[trigger] self.txs[t], t, self.latest)
    }

    /// No commit timestamp is also a snapshot timestamp.
    pub open spec fn stamps_distinct(self) -> bool {
        forall|a: int, b: int|
            0 <= a < self.txs.len() && 0 <= b < self.txs.len() ==> (#[trigger] self.txs[a]).commit_ts
                != Some((#[trigger] self.txs[b]).snapshot_ts)
    }

    /// No two chains have the same identity.
    pub open spec fn rows_distinct(self) -> bool {
        forall|i: int, j: int|
            0 <= i < j < self.rows.len() ==> (#[trigger] self.rows[i]).id != (
            #[trigger] self.rows[j]).id
    }

    /// Every chain is well formed.
    pub open spec fn chains_wf(self) -> bool {
        forall|i: int|
            0 <= i < self.rows.len() ==> chain_wf(#[trigger] self.rows[i], self.txs, self.latest)
    }

    /// An active transaction holds an uncommitted version of every row in
    /// its write set.
    pub open spec fn writes_pending(self) -> bool {
        forall|t: int, id: RowID|
            0 <= t < self.txs.len() && self.txs[t].state == TxState::Active && (
            #[trigger] self.txs[t].write_set.contains(id)) ==> pending_owner(self.chain(id))
                == Some(t as u64)
    }

    /// Whether a write to row `id` that was committed at `ts` is still on
    /// record for the transactions that it could race with: the row has a
    /// version committed no earlier, or every active transaction began later.
    pub open spec fn recorded(self, id: RowID, ts: u64) -> bool {
        has_commit_since(self.chain(id), ts) || all_active_after(self.txs, ts)
    }

    /// Every write of a committed transaction is on record.
    pub open spec fn commits_recorded(self) -> bool {
        forall|t: int, id: RowID|
            0 <= t < self.txs.len() && self.txs[t].commit_ts.is_some() && (
            #[trigger] self.txs[t].write_set.contains(id)) ==> self.recorded(
                id,
                self.txs[t].commit_ts.unwrap(),
            )
    }

    /// Two committed transactions that wrote the same row did not run
    /// concurrently.
    pub open spec fn writers_serial(self) -> bool {
        forall|a: int, b: int, id: RowID|
            0 <= a < self.txs.len() && 0 <= b < self.txs.len() && a != b
                && self.txs[a].commit_ts.is_some() && self.txs[b].commit_ts.is_some() && (
            #[trigger] self.txs[a].write_set.contains(id)) && (
            #[trigger] self.txs[b].write_set.contains(id)) ==> serial(self.txs[a], self.txs[b])
    }

    /// The invariant of the store.
    pub open spec fn inv(self) -> bool {
        &&& self.txs_wf()
        &&& self.stamps_distinct()
        &&& self.rows_distinct()
        &&& self.chains_wf()
        &&& self.writes_pending()
        &&& self.commits_recorded()
        &&& self.writers_serial()
    }

    /// Whether `other` has the same row identities at the same places.
    pub open spec fn same_ids(self, other: StoreView) -> bool {
        &&& other.rows.len() == self.rows.len()
        &&& forall|i: int| 0 <= i < self.rows.len() ==> (#[trigger] other.rows[i]).id == self.rows[i].id
    }
}

/// In a store with distinct identities, the chain found for the identity of
/// the `i`-th chain is the `i`-th chain.
pub proof fn lemma_position(s: StoreView, i: int)
    requires
        s.rows_distinct(),
        0 <= i < s.rows.len(),
    ensures
        s.has_row(s.rows[i].id),
        s.position(s.rows[i].id) == i,
        s.chain(s.rows[i].id) == s.rows[i].versions,
{
    let id = s.rows[i].id;
    let p = s.position(id);
    assert(0 <= p < s.rows.len() && s.rows[p].id == id);
    if p < i {
        assert(s.rows[p].id != s.rows[i].id);
    } else if i < p {
        assert(s.rows[i].id != s.rows[p].id);
    }
}

/// A row that a store has stands at its position.
pub proof fn lemma_has_row(s: StoreView, id: RowID)
    requires
        s.has_row(id),
    ensures
        0 <= s.position(id) < s.rows.len(),
        s.rows[s.position(id)].id == id,
        s.chain(id) == s.rows[s.position(id)].versions,
{
}

/// Two stores with the same identities at the same places find the same
/// rows at the same positions.
pub proof fn lemma_same_ids(s: StoreView, other: StoreView, id: RowID)
    requires
        s.rows_distinct(),
        s.same_ids(other),
    ensures
        other.rows_distinct(),
        other.has_row(id) == s.has_row(id),
        s.has_row(id) ==> other.position(id) == s.position(id),
{
    assert forall|i: int, j: int| 0 <= i < j < other.rows.len() implies (#[trigger] other.rows[i]).id
        != (#[trigger] other.rows[j]).id by {
        assert(s.rows[i].id != s.rows[j].id);
    }
    if s.has_row(id) {
        let p = s.position(id);
        assert(other.rows[p].id == id);
        lemma_position(other, p);
    }
    if other.has_row(id) {
        let p = other.position(id);
        assert(s.rows[p].id == id);
    }
}

} // verus!
