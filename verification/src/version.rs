//! Row versions, version chains and the visibility rule.

use vstd::prelude::*;
use crate::row::{view_opt, Row, RowID, RowView};

verus! {

/// When a version starts to exist for readers.
#[derive(Clone, Copy, Debug, PartialEq, Eq, Structural)]
pub enum BeginStamp {
    /// Written by the transaction with this id, which has not committed yet.
    Pending(u64),
    /// Committed at this timestamp.
    Committed(u64),
}

/// When a version stops to exist for readers.
#[derive(Clone, Copy, Debug, PartialEq, Eq, Structural)]
pub enum EndStamp {
    /// Not superseded.
    Open,
    /// Superseded by a version committed at this timestamp.
    At(u64),
}

/// One link in the history of a row. `data` is `None` for a tombstone, the
/// version that records a deletion.
#[derive(Debug)]
pub struct RowVersion {
    pub row_id: RowID,
    pub created_by: u64,
    pub begin: BeginStamp,
    pub end: EndStamp,
    pub data: Option<Row>,
}

/// The mathematical value of a [`RowVersion`].
pub struct VersionView {
    pub row_id: RowID,
    pub created_by: u64,
    pub begin: BeginStamp,
    pub end: EndStamp,
    pub data: Option<RowView>,
}

impl View for RowVersion {
    type V = VersionView;

    open spec fn view(&self) -> VersionView {
        VersionView {
            row_id: self.row_id,
            created_by: self.created_by,
            begin: self.begin,
            end: self.end,
            data: view_opt(self.data),
        }
    }
}

/// The versions of one row, oldest first.
#[derive(Debug)]
pub struct RowChain {
    pub id: RowID,
    pub versions: Vec<RowVersion>,
}

/// The mathematical value of a [`RowChain`].
pub struct ChainView {
    pub id: RowID,
    pub versions: Seq<VersionView>,
}

impl View for RowChain {
    type V = ChainView;

    open spec fn view(&self) -> ChainView {
        ChainView { id: self.id, versions: self.versions@.map_values(|v: RowVersion| v@) }
    }
}

/// The visibility rule of snapshot isolation. A transaction with id `tx_id`
/// and snapshot `snapshot_ts` sees a committed version whose lifetime contains
/// the snapshot, and it always sees a version that it wrote itself.
pub open spec fn version_visible(v: VersionView, tx_id: u64, snapshot_ts: u64) -> bool {
    match v.begin {
        BeginStamp::Pending(owner) => owner == tx_id,
        BeginStamp::Committed(begin_ts) => begin_ts <= snapshot_ts && match v.end {
            EndStamp::Open => true,
            EndStamp::At(end_ts) => end_ts > snapshot_ts,
        },
    }
}

/// The newest version of a chain that the transaction sees, if it sees any.
pub open spec fn newest_visible(
    versions: Seq<VersionView>,
    tx_id: u64,
    snapshot_ts: u64,
) -> Option<VersionView>
    decreases versions.len(),
{
    if versions.len() == 0 {
        None
    } else if version_visible(versions.last(), tx_id, snapshot_ts) {
        Some(versions.last())
    } else {
        newest_visible(versions.drop_last(), tx_id, snapshot_ts)
    }
}

/// The row that the transaction reads from a chain: the payload of the newest
/// visible version, and nothing where that version is a tombstone or where no
/// version is visible.
pub open spec fn row_seen(versions: Seq<VersionView>, tx_id: u64, snapshot_ts: u64) -> Option<
    RowView,
> {
    match newest_visible(versions, tx_id, snapshot_ts) {
        Some(v) => v.data,
        None => None,
    }
}

/// The transaction that holds an uncommitted version at the end of the chain.
pub open spec fn pending_owner(versions: Seq<VersionView>) -> Option<u64> {
    if versions.len() > 0 {
        match versions.last().begin {
            BeginStamp::Pending(owner) => Some(owner),
            BeginStamp::Committed(_) => None,
        }
    } else {
        None
    }
}

/// Whether the version was committed after `snapshot_ts`.
pub open spec fn committed_after(v: VersionView, snapshot_ts: u64) -> bool {
    match v.begin {
        BeginStamp::Pending(_) => false,
        BeginStamp::Committed(begin_ts) => begin_ts > snapshot_ts,
    }
}

/// Whether some version of the chain was committed after `snapshot_ts`.
pub open spec fn has_commit_after(versions: Seq<VersionView>, snapshot_ts: u64) -> bool {
    exists|j: int| 0 <= j < versions.len() && #[trigger] committed_after(versions[j], snapshot_ts)
}

/// An uncommitted version of row `id` written by `tx_id`.
pub open spec fn pending_version(id: RowID, tx_id: u64, data: Option<RowView>) -> VersionView {
    VersionView {
        row_id: id,
        created_by: tx_id,
        begin: BeginStamp::Pending(tx_id),
        end: EndStamp::Open,
        data,
    }
}

/// The chain after `tx_id` wrote `data`: its own uncommitted version is
/// replaced where it has one, else a new one is appended.
pub open spec fn written(
    versions: Seq<VersionView>,
    id: RowID,
    tx_id: u64,
    data: Option<RowView>,
) -> Seq<VersionView> {
    if pending_owner(versions) == Some(tx_id) {
        versions.update(versions.len() - 1, VersionView { data, ..versions.last() })
    } else {
        versions.push(pending_version(id, tx_id, data))
    }
}

/// The chain after `tx_id` committed at `commit_ts`: its uncommitted version
/// begins at `commit_ts`, and the version before it ends there.
pub open spec fn finalized(versions: Seq<VersionView>, tx_id: u64, commit_ts: u64) -> Seq<
    VersionView,
> {
    if pending_owner(versions) == Some(tx_id) {
        let n = versions.len() as int;
        let closed = if n >= 2 {
            versions.update(n - 2, VersionView { end: EndStamp::At(commit_ts), ..versions[n - 2] })
        } else {
            versions
        };
        closed.update(
            n - 1,
            VersionView { begin: BeginStamp::Committed(commit_ts), ..versions[n - 1] },
        )
    } else {
        versions
    }
}

/// The chain after `tx_id` aborted: its uncommitted version is gone.
pub open spec fn discarded(versions: Seq<VersionView>, tx_id: u64) -> Seq<VersionView> {
    if pending_owner(versions) == Some(tx_id) {
        versions.drop_last()
    } else {
        versions
    }
}

/// Whether a version may be reclaimed under `watermark`, the oldest active
/// snapshot (`None`: no transaction is active). A committed version that was
/// superseded is reclaimable once it ended at or before the watermark. A
/// committed tombstone that was not superseded is reclaimable only where
/// `purge` allows it and no transaction is active.
pub open spec fn reclaimable(v: VersionView, watermark: Option<u64>, purge: bool) -> bool {
    v.begin is Committed && match v.end {
        EndStamp::Open => purge && watermark is None && v.data is None,
        EndStamp::At(end_ts) => match watermark {
            Some(w) => end_ts <= w,
            None => true,
        },
    }
}

/// The test for a version to survive collection.
pub open spec fn kept(watermark: Option<u64>, purge: bool) -> spec_fn(VersionView) -> bool {
    |v: VersionView| !reclaimable(v, watermark, purge)
}

/// The chain without its reclaimable versions.
pub open spec fn reclaimed(versions: Seq<VersionView>, watermark: Option<u64>, purge: bool) -> Seq<
    VersionView,
> {
    versions.filter(kept(watermark, purge))
}

/// The views of a list of chains.
pub open spec fn chain_views(rows: Seq<RowChain>) -> Seq<ChainView> {
    rows.map_values(|c: RowChain| c@)
}

/// Every chain after `tx_id` committed at `commit_ts`.
pub open spec fn finalized_all(rows: Seq<ChainView>, tx_id: u64, commit_ts: u64) -> Seq<ChainView> {
    Seq::new(
        rows.len(),
        |i: int| ChainView { id: rows[i].id, versions: finalized(rows[i].versions, tx_id, commit_ts) },
    )
}

/// Every chain after `tx_id` aborted.
pub open spec fn discarded_all(rows: Seq<ChainView>, tx_id: u64) -> Seq<ChainView> {
    Seq::new(
        rows.len(),
        |i: int| ChainView { id: rows[i].id, versions: discarded(rows[i].versions, tx_id) },
    )
}

/// Every chain without its reclaimable versions.
pub open spec fn reclaimed_all(rows: Seq<ChainView>, watermark: Option<u64>, purge: bool) -> Seq<
    ChainView,
> {
    Seq::new(
        rows.len(),
        |i: int|
            ChainView { id: rows[i].id, versions: reclaimed(rows[i].versions, watermark, purge) },
    )
}

impl RowVersion {
    /// Whether the transaction sees this version.
    pub fn is_visible_to(&self, tx_id: u64, snapshot_ts: u64) -> (visible: bool)
        ensures
            visible == version_visible(self@, tx_id, snapshot_ts),
    {
        match self.begin {
            BeginStamp::Pending(owner) => owner == tx_id,
            BeginStamp::Committed(begin_ts) => begin_ts <= snapshot_ts && match self.end {
                EndStamp::Open => true,
                EndStamp::At(end_ts) => end_ts > snapshot_ts,
            },
        }
    }

    /// Whether the collector may reclaim this version.
    pub fn is_reclaimable(&self, watermark: Option<u64>, purge: bool) -> (yes: bool)
        ensures
            yes == reclaimable(self@, watermark, purge),
    {
        match (self.begin, self.end) {
            (BeginStamp::Committed(_), EndStamp::At(end_ts)) => match watermark {
                Some(w) => end_ts <= w,
                None => true,
            },
            (BeginStamp::Committed(_), EndStamp::Open) => purge && watermark.is_none()
                && self.data.is_none(),
            _ => false,
        }
    }
}

impl RowChain {
    /// A chain for `id` whose only version is uncommitted and owned by
    /// `tx_id`.
    pub fn started_by(id: RowID, tx_id: u64, data: Option<Row>) -> (chain: RowChain)
        ensures
            chain@ == (ChainView {
                id,
                versions: seq![pending_version(id, tx_id, view_opt(data))],
            }),
    {
        let mut versions: Vec<RowVersion> = Vec::new();
        versions.push(
            RowVersion {
                row_id: id,
                created_by: tx_id,
                begin: BeginStamp::Pending(tx_id),
                end: EndStamp::Open,
                data,
            },
        );
        let chain = RowChain { id, versions };
        assert(chain@.versions =~= seq![pending_version(id, tx_id, view_opt(data))]);
        chain
    }

    /// The row that the transaction reads from this chain.
    pub fn read(&self, tx_id: u64, snapshot_ts: u64) -> (row: Option<Row>)
        ensures
            view_opt(row) == row_seen(self@.versions, tx_id, snapshot_ts),
    {
        match self.newest_visible(tx_id, snapshot_ts) {
            Some(j) => match &self.versions[j].data {
                Some(r) => Some(r.duplicate()),
                None => None,
            },
            None => None,
        }
    }

    /// Whether the transaction reads a row from this chain.
    pub fn shows_row(&self, tx_id: u64, snapshot_ts: u64) -> (shown: bool)
        ensures
            shown == row_seen(self@.versions, tx_id, snapshot_ts).is_some(),
    {
        match self.newest_visible(tx_id, snapshot_ts) {
            Some(j) => self.versions[j].data.is_some(),
            None => false,
        }
    }

    /// Where the newest version that the transaction sees stands.
    pub fn newest_visible(&self, tx_id: u64, snapshot_ts: u64) -> (found: Option<usize>)
        ensures
            match found {
                Some(j) => j < self.versions.len() && newest_visible(
                    self@.versions,
                    tx_id,
                    snapshot_ts,
                ) == Some(self.versions[j as int]@),
                None => newest_visible(self@.versions, tx_id, snapshot_ts) is None,
            },
    {
        let mut j: usize = self.versions.len();
        assert(self@.versions.take(j as int) == self@.versions);
        while j > 0
            invariant
                j <= self.versions.len(),
                newest_visible(self@.versions, tx_id, snapshot_ts) == newest_visible(
                    self@.versions.take(j as int),
                    tx_id,
                    snapshot_ts,
                ),
            decreases j,
        {
            j -= 1;
            proof {
                let prefix = self@.versions.take(j + 1);
                assert(prefix.last() == self.versions@[j as int]@);
                assert(prefix.drop_last() == self@.versions.take(j as int));
            }
            if self.versions[j].is_visible_to(tx_id, snapshot_ts) {
                return Some(j);
            }
        }
        None
    }

    /// The transaction that holds an uncommitted version in this chain.
    pub fn pending_owner(&self) -> (owner: Option<u64>)
        ensures
            owner == pending_owner(self@.versions),
    {
        let n = self.versions.len();
        if n == 0 {
            None
        } else {
            match self.versions[n - 1].begin {
                BeginStamp::Pending(owner) => Some(owner),
                BeginStamp::Committed(_) => None,
            }
        }
    }

    /// Whether some version of this chain was committed after `snapshot_ts`.
    pub fn has_commit_after(&self, snapshot_ts: u64) -> (found: bool)
        ensures
            found == has_commit_after(self@.versions, snapshot_ts),
    {
        let mut j: usize = 0;
        while j < self.versions.len()
            invariant
                j <= self.versions.len(),
                forall|k: int|
                    0 <= k < j ==> !#[trigger] committed_after(self@.versions[k], snapshot_ts),
            decreases self.versions.len() - j,
        {
            match self.versions[j].begin {
                BeginStamp::Committed(begin_ts) => {
                    if begin_ts > snapshot_ts {
                        assert(committed_after(self@.versions[j as int], snapshot_ts));
                        return true;
                    }
                },
                BeginStamp::Pending(_) => {},
            }
            j += 1;
        }
        false
    }

    /// Records that `tx_id` wrote `data`: replaces the version that the
    /// transaction holds here, or appends one.
    pub fn write(&mut self, tx_id: u64, data: Option<Row>)
        ensures
            final(self)@ == (ChainView {
                id: old(self).id,
                versions: written(old(self)@.versions, old(self).id, tx_id, view_opt(data)),
            }),
    {
        let n = self.versions.len();
        if self.pending_owner() == Some(tx_id) {
            self.versions[n - 1].data = data;
            assert(self@.versions =~= written(
                old(self)@.versions,
                old(self).id,
                tx_id,
                view_opt(data),
            ));
        } else {
            self.versions.push(
                RowVersion {
                    row_id: self.id,
                    created_by: tx_id,
                    begin: BeginStamp::Pending(tx_id),
                    end: EndStamp::Open,
                    data,
                },
            );
            assert(self@.versions =~= written(
                old(self)@.versions,
                old(self).id,
                tx_id,
                view_opt(data),
            ));
        }
    }

    /// Commits the version that `tx_id` holds here, if any, at `commit_ts`.
    pub fn finalize(&mut self, tx_id: u64, commit_ts: u64)
        ensures
            final(self)@ == (ChainView {
                id: old(self).id,
                versions: finalized(old(self)@.versions, tx_id, commit_ts),
            }),
    {
        let n = self.versions.len();
        if self.pending_owner() == Some(tx_id) {
            if n >= 2 {
                self.versions[n - 2].end = EndStamp::At(commit_ts);
            }
            self.versions[n - 1].begin = BeginStamp::Committed(commit_ts);
        }
        assert(self@.versions =~= finalized(old(self)@.versions, tx_id, commit_ts));
    }

    /// Drops the version that `tx_id` holds here, if any.
    pub fn discard(&mut self, tx_id: u64)
        ensures
            final(self)@ == (ChainView {
                id: old(self).id,
                versions: discarded(old(self)@.versions, tx_id),
            }),
    {
        if self.pending_owner() == Some(tx_id) {
            self.versions.pop();
        }
        assert(self@.versions =~= discarded(old(self)@.versions, tx_id));
    }

    /// Removes every version that the collector may reclaim under
    /// `watermark`, keeping the others in order.
    pub fn reclaim(&mut self, watermark: Option<u64>, purge: bool)
        ensures
            final(self)@ == (ChainView {
                id: old(self).id,
                versions: reclaimed(old(self)@.versions, watermark, purge),
            }),
    {
        let ghost orig = self@.versions;
        let ghost keep = kept(watermark, purge);
        let ghost mut k: int = 0;
        let mut j: usize = 0;
        proof {
            assert(orig.take(0) =~= Seq::empty());
            assert(orig.take(0).filter(keep) =~= Seq::empty()) by {
                reveal(Seq::filter);
            }
            assert(orig.skip(0) =~= orig);
        }
        while j < self.versions.len()
            invariant
                self.id == old(self).id,
                orig == old(self)@.versions,
                keep == kept(watermark, purge),
                0 <= k <= orig.len(),
                j == orig.take(k).filter(keep).len(),
                self@.versions == orig.take(k).filter(keep) + orig.skip(k),
            decreases orig.len() - k,
        {
            let ghost before = self@.versions;
            assert(before[j as int] == orig.skip(k)[0]);
            assert(k < orig.len());
            proof {
                orig.take(k).lemma_filter_push(orig[k], keep);
                assert(orig.take(k + 1) =~= orig.take(k).push(orig[k]));
            }
            if self.versions[j].is_reclaimable(watermark, purge) {
                self.versions.remove(j);
                proof {
                    let head = orig.take(k).filter(keep);
                    assert(!keep(orig[k]));
                    assert(self@.versions =~= before.remove(j as int));
                    assert(before.remove(j as int) =~= head + orig.skip(k + 1));
                }
            } else {
                j += 1;
                assert(self@.versions =~= orig.take(k + 1).filter(keep) + orig.skip(k + 1));
            }
            proof {
                k = k + 1;
            }
        }
        proof {
            assert(orig.skip(k).len() == 0);
            assert(orig.take(k) =~= orig);
            assert(self@.versions =~= reclaimed(orig, watermark, purge));
        }
    }
}

/// Commits, in every chain, the version that `tx_id` holds.
pub fn finalize_all(rows: &mut Vec<RowChain>, tx_id: u64, commit_ts: u64)
    ensures
        chain_views(final(rows)@) == finalized_all(chain_views(old(rows)@), tx_id, commit_ts),
{
    let n = rows.len();
    let mut i: usize = 0;
    while i < n
        invariant
            i <= n,
            rows.len() == n,
            old(rows).len() == n,
            forall|m: int|
                0 <= m < i ==> (#[trigger] rows@[m])@ == (ChainView {
                    id: old(rows)@[m].id,
                    versions: finalized(old(rows)@[m]@.versions, tx_id, commit_ts),
                }),
            forall|m: int| i <= m < n ==> #[trigger] rows@[m] == old(rows)@[m],
        decreases n - i,
    {
        rows[i].finalize(tx_id, commit_ts);
        i += 1;
    }
    assert(chain_views(rows@) =~= finalized_all(chain_views(old(rows)@), tx_id, commit_ts));
}

/// Drops, in every chain, the version that `tx_id` holds.
pub fn discard_all(rows: &mut Vec<RowChain>, tx_id: u64)
    ensures
        chain_views(final(rows)@) == discarded_all(chain_views(old(rows)@), tx_id),
{
    let n = rows.len();
    let mut i: usize = 0;
    while i < n
        invariant
            i <= n,
            rows.len() == n,
            old(rows).len() == n,
            forall|m: int|
                0 <= m < i ==> (#[trigger] rows@[m])@ == (ChainView {
                    id: old(rows)@[m].id,
                    versions: discarded(old(rows)@[m]@.versions, tx_id),
                }),
            forall|m: int| i <= m < n ==> #[trigger] rows@[m] == old(rows)@[m],
        decreases n - i,
    {
        rows[i].discard(tx_id);
        i += 1;
    }
    assert(chain_views(rows@) =~= discarded_all(chain_views(old(rows)@), tx_id));
}

/// Removes, from every chain, the versions that the collector may reclaim
/// under `watermark`.
pub fn reclaim_all(rows: &mut Vec<RowChain>, watermark: Option<u64>, purge: bool)
    ensures
        chain_views(final(rows)@) == reclaimed_all(chain_views(old(rows)@), watermark, purge),
{
    let n = rows.len();
    let mut i: usize = 0;
    while i < n
        invariant
            i <= n,
            rows.len() == n,
            old(rows).len() == n,
            forall|m: int|
                0 <= m < i ==> (#[trigger] rows@[m])@ == (ChainView {
                    id: old(rows)@[m].id,
                    versions: reclaimed(old(rows)@[m]@.versions, watermark, purge),
                }),
            forall|m: int| i <= m < n ==> #[trigger] rows@[m] == old(rows)@[m],
        decreases n - i,
    {
        rows[i].reclaim(watermark, purge);
        i += 1;
    }
    assert(chain_views(rows@) =~= reclaimed_all(chain_views(old(rows)@), watermark, purge));
}

} // verus!
