//! Facts about single version chains.

use vstd::prelude::*;
use crate::consistency::{chain_ordered, chain_wf, newest_committed_open, precedes, version_wf};
use crate::model::oldest_active_snapshot;
use crate::row::{RowID, RowView};
use crate::transaction::{TxState, TxView};
use crate::version::{
    discarded, finalized, kept, newest_visible, pending_owner, reclaimable, reclaimed, row_seen,
    version_visible, written, BeginStamp, ChainView, EndStamp, VersionView,
};

verus! {

/// A version that has an end was committed, before that end.
pub open spec fn well_timed(v: VersionView) -> bool {
    match (v.begin, v.end) {
        (BeginStamp::Committed(begin_ts), EndStamp::At(end_ts)) => begin_ts < end_ts,
        (BeginStamp::Pending(_), EndStamp::At(_)) => false,
        _ => true,
    }
}

/// How many versions at the front of the chain the collector reclaims.
pub open spec fn reclaim_count(
    versions: Seq<VersionView>,
    watermark: Option<u64>,
    purge: bool,
) -> int {
    versions.len() - reclaimed(versions, watermark, purge).len()
}

/// In a chain whose versions do not overlap, the reclaimable versions are
/// the oldest ones: collection cuts off a front part of the chain.
pub proof fn lemma_reclaimed_suffix(
    versions: Seq<VersionView>,
    watermark: Option<u64>,
    purge: bool,
)
    requires
        chain_ordered(versions),
        forall|j: int| 0 <= j < versions.len() ==> well_timed(#[trigger] versions[j]),
    ensures
        0 <= reclaim_count(versions, watermark, purge) <= versions.len(),
        reclaimed(versions, watermark, purge) == versions.skip(
            reclaim_count(versions, watermark, purge),
        ),
        forall|j: int|
            0 <= j < versions.len() ==> reclaimable(#[trigger] versions[j], watermark, purge) == (j
                < reclaim_count(versions, watermark, purge)),
    decreases versions.len(),
{
    let keep = kept(watermark, purge);
    let n = versions.len() as int;
    if n == 0 {
        assert(versions.filter(keep) =~= Seq::empty()) by {
            reveal(Seq::filter);
        }
        assert(versions.skip(0) =~= versions);
    } else {
        let front = versions.drop_last();
        let last = versions.last();
        assert(chain_ordered(front)) by {
            assert forall|j: int, k: int|
                0 <= j < k < front.len() && (#[trigger] front[k]).begin is Committed implies precedes(
                #[trigger] front[j],
                front[k],
            ) by {
                assert(precedes(versions[j], versions[k]));
            }
        }
        assert forall|j: int| 0 <= j < front.len() implies well_timed(#[trigger] front[j]) by {
            assert(well_timed(versions[j]));
        }
        lemma_reclaimed_suffix(front, watermark, purge);
        let m0 = reclaim_count(front, watermark, purge);
        assert(versions =~= front.push(last));
        front.lemma_filter_push(last, keep);
        if keep(last) {
            assert(front.skip(m0).push(last) =~= versions.skip(m0));
            assert forall|j: int| 0 <= j < n implies reclaimable(
                #[trigger] versions[j],
                watermark,
                purge,
            ) == (j < m0) by {
                if j < n - 1 {
                    assert(reclaimable(front[j], watermark, purge) == (j < m0));
                }
            }
        } else {
            assert(well_timed(last));
            assert forall|j: int| 0 <= j < n - 1 implies reclaimable(
                #[trigger] front[j],
                watermark,
                purge,
            ) by {
                assert(precedes(versions[j], versions[n - 1]));
                assert(well_timed(versions[j]));
            }
            if m0 < n - 1 {
                assert(reclaimable(front[m0], watermark, purge) == (m0 < m0));
            }
            assert(reclaimed(versions, watermark, purge) =~= versions.skip(n));
            assert forall|j: int| 0 <= j < n implies reclaimable(
                #[trigger] versions[j],
                watermark,
                purge,
            ) == (j < n) by {
                if j < n - 1 {
                    assert(reclaimable(front[j], watermark, purge));
                }
            }
        }
    }
}

/// Every version of a well-formed chain is well timed.
pub proof fn lemma_chain_well_timed(c: ChainView, txs: Seq<TxView>, latest: u64)
    requires
        chain_wf(c, txs, latest),
    ensures
        forall|j: int| 0 <= j < c.versions.len() ==> well_timed(#[trigger] c.versions[j]),
{
    assert forall|j: int| 0 <= j < c.versions.len() implies well_timed(#[trigger] c.versions[j]) by {
        assert(version_wf(c.versions[j], c.id, j == c.versions.len() - 1, txs, latest));
    }
}

/// What collection leaves of a well-formed chain is a well-formed chain: the
/// chain without a front part. Unless it purges tombstones, collection
/// leaves the newest version in place.
pub proof fn lemma_reclaimed_wf(
    c: ChainView,
    txs: Seq<TxView>,
    latest: u64,
    watermark: Option<u64>,
    purge: bool,
)
    requires
        chain_wf(c, txs, latest),
    ensures
        chain_wf(
            ChainView { id: c.id, versions: reclaimed(c.versions, watermark, purge) },
            txs,
            latest,
        ),
        reclaimed(c.versions, watermark, purge) == c.versions.skip(
            reclaim_count(c.versions, watermark, purge),
        ),
        0 <= reclaim_count(c.versions, watermark, purge) <= c.versions.len(),
        forall|j: int|
            0 <= j < c.versions.len() ==> reclaimable(#[trigger] c.versions[j], watermark, purge)
                == (j < reclaim_count(c.versions, watermark, purge)),
        watermark is Some || !purge ==> {
            &&& c.versions.len() > 0 ==> reclaim_count(c.versions, watermark, purge)
                < c.versions.len()
            &&& pending_owner(reclaimed(c.versions, watermark, purge)) == pending_owner(c.versions)
        },
{
    let vs = c.versions;
    let n = vs.len() as int;
    lemma_chain_well_timed(c, txs, latest);
    lemma_reclaimed_suffix(vs, watermark, purge);
    let m = reclaim_count(vs, watermark, purge);
    let ws = reclaimed(vs, watermark, purge);
    if n > 0 {
        assert(version_wf(vs[n - 1], c.id, true, txs, latest));
        if watermark is Some || !purge {
            assert(!reclaimable(vs[n - 1], watermark, purge));
        }
    }
    assert forall|j: int| 0 <= j < ws.len() implies version_wf(
        #[trigger] ws[j],
        c.id,
        j == ws.len() - 1,
        txs,
        latest,
    ) by {
        assert(version_wf(vs[j + m], c.id, j + m == n - 1, txs, latest));
    }
    assert forall|j: int, k: int|
        0 <= j < k < ws.len() && (#[trigger] ws[k]).begin is Committed implies precedes(
        #[trigger] ws[j],
        ws[k],
    ) by {
        assert(precedes(vs[j + m], vs[k + m]));
    }
}

/// What a transaction reads from a chain does not change when another
/// transaction writes to the chain.
pub proof fn lemma_written_unseen(
    versions: Seq<VersionView>,
    id: RowID,
    writer: u64,
    data: Option<RowView>,
    reader: u64,
    snapshot_ts: u64,
)
    requires
        reader != writer,
    ensures
        row_seen(written(versions, id, writer, data), reader, snapshot_ts) == row_seen(
            versions,
            reader,
            snapshot_ts,
        ),
{
    let after = written(versions, id, writer, data);
    if pending_owner(versions) == Some(writer) {
        assert(after.drop_last() =~= versions.drop_last());
    } else {
        assert(after.drop_last() =~= versions);
    }
}

/// What a transaction reads from a chain does not change when another
/// transaction withdraws its uncommitted version.
pub proof fn lemma_discarded_unseen(
    versions: Seq<VersionView>,
    writer: u64,
    reader: u64,
    snapshot_ts: u64,
)
    requires
        reader != writer,
    ensures
        row_seen(discarded(versions, writer), reader, snapshot_ts) == row_seen(
            versions,
            reader,
            snapshot_ts,
        ),
{
}

/// What a transaction reads from a chain does not change when another
/// transaction commits after the reader's snapshot.
pub proof fn lemma_finalized_unseen(
    versions: Seq<VersionView>,
    writer: u64,
    commit_ts: u64,
    reader: u64,
    snapshot_ts: u64,
)
    requires
        reader != writer,
        snapshot_ts < commit_ts,
        newest_committed_open(versions),
    ensures
        row_seen(finalized(versions, writer, commit_ts), reader, snapshot_ts) == row_seen(
            versions,
            reader,
            snapshot_ts,
        ),
{
    let after = finalized(versions, writer, commit_ts);
    let n = versions.len() as int;
    if pending_owner(versions) == Some(writer) {
        assert(!version_visible(after.last(), reader, snapshot_ts));
        assert(!version_visible(versions.last(), reader, snapshot_ts));
        let a = after.drop_last();
        let b = versions.drop_last();
        assert(newest_visible(after, reader, snapshot_ts) == newest_visible(
            a,
            reader,
            snapshot_ts,
        ));
        assert(newest_visible(versions, reader, snapshot_ts) == newest_visible(
            b,
            reader,
            snapshot_ts,
        ));
        if n >= 2 {
            assert(a.last() == after[n - 2]);
            assert(b.last() == versions[n - 2]);
            assert(a.last().data == b.last().data);
            assert(version_visible(a.last(), reader, snapshot_ts) == version_visible(
                b.last(),
                reader,
                snapshot_ts,
            ));
            assert(a.drop_last() =~= b.drop_last());
            if !version_visible(a.last(), reader, snapshot_ts) {
                assert(newest_visible(a, reader, snapshot_ts) == newest_visible(
                    a.drop_last(),
                    reader,
                    snapshot_ts,
                ));
                assert(newest_visible(b, reader, snapshot_ts) == newest_visible(
                    b.drop_last(),
                    reader,
                    snapshot_ts,
                ));
            }
        } else {
            assert(a =~= b);
        }
    }
}

/// Cutting off a front part of a chain that holds no version visible to a
/// transaction does not change the newest version it sees.
pub proof fn lemma_skip_unseen(versions: Seq<VersionView>, m: int, reader: u64, snapshot_ts: u64)
    requires
        0 <= m <= versions.len(),
        forall|j: int| 0 <= j < m ==> !version_visible(#[trigger] versions[j], reader, snapshot_ts),
    ensures
        newest_visible(versions.skip(m), reader, snapshot_ts) == newest_visible(
            versions,
            reader,
            snapshot_ts,
        ),
    decreases versions.len(),
{
    let n = versions.len() as int;
    if n > 0 {
        let front = versions.drop_last();
        if m == n {
            assert(!version_visible(versions[n - 1], reader, snapshot_ts));
            lemma_skip_unseen(front, n - 1, reader, snapshot_ts);
            assert(front.skip(n - 1) =~= Seq::empty());
            assert(versions.skip(n) =~= Seq::empty());
        } else {
            lemma_skip_unseen(front, m, reader, snapshot_ts);
            assert(versions.skip(m).drop_last() =~= front.skip(m));
            assert(versions.skip(m).last() == versions.last());
        }
    } else {
        assert(versions.skip(0) =~= versions);
    }
}

/// The watermark is a snapshot no later than that of any active transaction.
pub proof fn lemma_watermark_bounds(txs: Seq<TxView>, t: int)
    requires
        0 <= t < txs.len(),
        txs[t].state == TxState::Active,
    ensures
        oldest_active_snapshot(txs) is Some,
        oldest_active_snapshot(txs).unwrap() <= txs[t].snapshot_ts,
    decreases txs.len(),
{
    if t < txs.len() - 1 {
        lemma_watermark_bounds(txs.drop_last(), t);
    }
}

/// No version that a transaction sees is reclaimable under a watermark that
/// is no later than the transaction's snapshot.
pub proof fn lemma_visible_not_reclaimable(
    v: VersionView,
    reader: u64,
    snapshot_ts: u64,
    watermark: u64,
)
    requires
        version_visible(v, reader, snapshot_ts),
        watermark <= snapshot_ts,
    ensures
        forall|purge: bool| !#[trigger] reclaimable(v, Some(watermark), purge),
{
}

/// What a transaction reads from a well-formed chain does not change when
/// the chain is collected under a watermark no later than its snapshot.
pub proof fn lemma_reclaimed_unseen(
    c: ChainView,
    txs: Seq<TxView>,
    latest: u64,
    watermark: u64,
    reader: u64,
    snapshot_ts: u64,
)
    requires
        chain_wf(c, txs, latest),
        watermark <= snapshot_ts,
    ensures
        forall|purge: bool|
            newest_visible(
                #[trigger] reclaimed(c.versions, Some(watermark), purge),
                reader,
                snapshot_ts,
            ) == newest_visible(c.versions, reader, snapshot_ts),
{
    assert forall|purge: bool|
        newest_visible(
            #[trigger] reclaimed(c.versions, Some(watermark), purge),
            reader,
            snapshot_ts,
        ) == newest_visible(c.versions, reader, snapshot_ts) by {
        lemma_reclaimed_cut_unseen(c, txs, latest, watermark, purge, reader, snapshot_ts);
    }
}

/// The same, for one setting of the purge option.
proof fn lemma_reclaimed_cut_unseen(
    c: ChainView,
    txs: Seq<TxView>,
    latest: u64,
    watermark: u64,
    purge: bool,
    reader: u64,
    snapshot_ts: u64,
)
    requires
        chain_wf(c, txs, latest),
        watermark <= snapshot_ts,
    ensures
        newest_visible(reclaimed(c.versions, Some(watermark), purge), reader, snapshot_ts)
            == newest_visible(c.versions, reader, snapshot_ts),
{
    lemma_reclaimed_wf(c, txs, latest, Some(watermark), purge);
    let m = reclaim_count(c.versions, Some(watermark), purge);
    assert forall|j: int| 0 <= j < m implies !version_visible(
        #[trigger] c.versions[j],
        reader,
        snapshot_ts,
    ) by {
        assert(reclaimable(c.versions[j], Some(watermark), purge));
    }
    lemma_skip_unseen(c.versions, m, reader, snapshot_ts);
}

} // verus!
