//! Every operation keeps the invariant of the store.

use vstd::prelude::*;
use crate::chain_lemmas::{lemma_reclaimed_wf, lemma_watermark_bounds, reclaim_count};
use crate::consistency::{
    all_active_after, chain_wf, committed_since, data_belongs, has_commit_since, lemma_has_row,
    lemma_position, lemma_same_ids, newest_committed_open, precedes, serial, tx_wf, version_wf,
};
use crate::model::{Op, StoreView};
use crate::row::{RowID, RowView};
use crate::transaction::{begun, noted, TxState, TxView};
use crate::version::{
    committed_after, discarded, finalized, has_commit_after, pending_owner, pending_version,
    reclaimable, reclaimed, written, ChainView, VersionView,
};

verus! {

/// A write set that noted a row holds that row and what it held before.
pub proof fn lemma_noted(write_set: Seq<RowID>, id: RowID, other: RowID)
    ensures
        noted(write_set, id).contains(other) == (write_set.contains(other) || other == id),
{
    if !write_set.contains(id) {
        let grown = write_set.push(id);
        assert(grown[write_set.len() as int] == id);
        if write_set.contains(other) {
            let k = choose|k: int| 0 <= k < write_set.len() && write_set[k] == other;
            assert(grown[k] == other);
        }
        if grown.contains(other) {
            let k = choose|k: int| 0 <= k < grown.len() && grown[k] == other;
            if k < write_set.len() {
                assert(write_set[k] == other);
            }
        }
    }
}

/// A well-formed chain stays well formed when the clock advances, when
/// transactions are added, and when write sets grow, as long as the creators
/// of its versions keep their state and commit timestamp.
pub proof fn lemma_chain_wf_carries(
    c: ChainView,
    txs: Seq<TxView>,
    latest: u64,
    txs2: Seq<TxView>,
    latest2: u64,
)
    requires
        chain_wf(c, txs, latest),
        latest <= latest2,
        txs.len() <= txs2.len(),
        forall|j: int|
            0 <= j < c.versions.len() ==> {
                let t = txs[(#[trigger] c.versions[j]).created_by as int];
                let t2 = txs2[c.versions[j].created_by as int];
                &&& t2.state == t.state
                &&& t2.commit_ts == t.commit_ts
                &&& t2.write_set.contains(c.id)
            },
    ensures
        chain_wf(c, txs2, latest2),
{
    assert forall|j: int| 0 <= j < c.versions.len() implies version_wf(
        #[trigger] c.versions[j],
        c.id,
        j == c.versions.len() - 1,
        txs2,
        latest2,
    ) by {
        assert(version_wf(c.versions[j], c.id, j == c.versions.len() - 1, txs, latest));
    }
}

/// Beginning a transaction keeps the invariant.
pub proof fn lemma_begin_inv(s: StoreView, ts: u64)
    requires
        s.inv(),
        ts > s.latest,
    ensures
        s.after_begin(ts).inv(),
{
    let s2 = s.after_begin(ts);
    assert(s2.txs_wf()) by {
        assert forall|t: int| 0 <= t < s2.txs.len() implies tx_wf(
            #[trigger] s2.txs[t],
            t,
            s2.latest,
        ) by {
            if t < s.txs.len() {
                assert(tx_wf(s.txs[t], t, s.latest));
            }
        }
    }
    assert(s2.stamps_distinct()) by {
        assert forall|a: int, b: int| 0 <= a < s2.txs.len() && 0 <= b < s2.txs.len() implies (
        #[trigger] s2.txs[a]).commit_ts != Some((#[trigger] s2.txs[b]).snapshot_ts) by {
            if a < s.txs.len() {
                assert(tx_wf(s.txs[a], a, s.latest));
                if b < s.txs.len() {
                    assert(s.txs[a].commit_ts != Some(s.txs[b].snapshot_ts));
                }
            }
        }
    }
    assert(s2.rows_distinct());
    assert(s2.chains_wf()) by {
        assert forall|i: int| 0 <= i < s2.rows.len() implies chain_wf(
            #[trigger] s2.rows[i],
            s2.txs,
            s2.latest,
        ) by {
            let c = s.rows[i];
            assert(chain_wf(c, s.txs, s.latest));
            assert forall|j: int| 0 <= j < c.versions.len() implies (#[trigger] c.versions[j]).created_by
                < s.txs.len() by {
                assert(version_wf(c.versions[j], c.id, j == c.versions.len() - 1, s.txs, s.latest));
            }
            lemma_chain_wf_carries(c, s.txs, s.latest, s2.txs, s2.latest);
        }
    }
    assert(s2.writes_pending()) by {
        assert forall|t: int, id: RowID|
            0 <= t < s2.txs.len() && s2.txs[t].state == TxState::Active && (
            #[trigger] s2.txs[t].write_set.contains(id)) implies pending_owner(s2.chain(id))
            == Some(t as u64) by {
            assert(s2.chain(id) == s.chain(id));
            if t == s.txs.len() {
                assert(!begun(s.txs.len() as u64, ts).write_set.contains(id));
            }
            assert(s.txs[t].write_set.contains(id));
        }
    }
    assert(s2.commits_recorded()) by {
        assert forall|t: int, id: RowID|
            0 <= t < s2.txs.len() && s2.txs[t].commit_ts.is_some() && (
            #[trigger] s2.txs[t].write_set.contains(id)) implies s2.recorded(
            id,
            s2.txs[t].commit_ts.unwrap(),
        ) by {
            assert(s2.chain(id) == s.chain(id));
            assert(s.txs[t].write_set.contains(id));
            assert(tx_wf(s.txs[t], t, s.latest));
            let c = s.txs[t].commit_ts.unwrap();
            assert(s.recorded(id, c));
            if all_active_after(s.txs, c) {
                assert forall|u: int|
                    0 <= u < s2.txs.len() && (#[trigger] s2.txs[u]).state
                        == TxState::Active implies c < s2.txs[u].snapshot_ts by {
                    if u < s.txs.len() {
                        assert(s.txs[u].state == TxState::Active);
                    }
                }
            }
        }
    }
    assert(s2.writers_serial()) by {
        assert forall|a: int, b: int, id: RowID|
            0 <= a < s2.txs.len() && 0 <= b < s2.txs.len() && a != b
                && s2.txs[a].commit_ts.is_some() && s2.txs[b].commit_ts.is_some() && (
            #[trigger] s2.txs[a].write_set.contains(id)) && (
            #[trigger] s2.txs[b].write_set.contains(id)) implies serial(s2.txs[a], s2.txs[b]) by {
            assert(s.txs[a].write_set.contains(id));
            assert(s.txs[b].write_set.contains(id));
        }
    }
}

/// After a chain with a new identity is appended, that identity finds the new
/// chain and every other identity finds what it found before.
pub proof fn lemma_chain_after_push(s: StoreView, c: ChainView, s2: StoreView, id: RowID)
    requires
        s.rows_distinct(),
        !s.has_row(c.id),
        s2.rows == s.rows.push(c),
    ensures
        s2.rows_distinct(),
        s2.chain(id) == if id == c.id {
            c.versions
        } else {
            s.chain(id)
        },
{
    let n = s.rows.len() as int;
    assert forall|i: int, j: int| 0 <= i < j < s2.rows.len() implies (#[trigger] s2.rows[i]).id != (
    #[trigger] s2.rows[j]).id by {
        if j < n {
            assert(s.rows[i].id != s.rows[j].id);
        } else {
            assert(s.rows[i].id != c.id);
        }
    }
    if id == c.id {
        lemma_position(s2, n);
    } else if s.has_row(id) {
        let p = s.position(id);
        assert(s2.rows[p].id == id);
        lemma_position(s2, p);
    } else {
        if s2.has_row(id) {
            let p = s2.position(id);
            if p < n {
                assert(s.rows[p].id == id);
            }
        }
    }
}

/// Inserting a row with a new identity keeps the invariant.
pub proof fn lemma_insert_inv(s: StoreView, tx_id: u64, row: RowView)
    requires
        s.inv(),
        s.is_active(tx_id),
        !s.has_row(row.id),
    ensures
        s.after_insert(tx_id, row).inv(),
{
    let s2 = s.after_insert(tx_id, row);
    let c = ChainView { id: row.id, versions: seq![pending_version(row.id, tx_id, Some(row))] };
    assert(s2.rows == s.rows.push(c));
    assert forall|t: int, id: RowID| 0 <= t < s.txs.len() implies (
    #[trigger] s2.txs[t].write_set.contains(id)) == (s.txs[t].write_set.contains(id) || (t
        == tx_id && id == row.id)) by {
        lemma_noted(s.txs[t].write_set, row.id, id);
    }
    assert(s2.txs_wf()) by {
        assert forall|t: int| 0 <= t < s2.txs.len() implies tx_wf(
            #[trigger] s2.txs[t],
            t,
            s2.latest,
        ) by {
            assert(tx_wf(s.txs[t], t, s.latest));
        }
    }
    assert(s2.stamps_distinct()) by {
        assert forall|a: int, b: int| 0 <= a < s2.txs.len() && 0 <= b < s2.txs.len() implies (
        #[trigger] s2.txs[a]).commit_ts != Some((#[trigger] s2.txs[b]).snapshot_ts) by {
            assert(s.txs[a].commit_ts != Some(s.txs[b].snapshot_ts));
        }
    }
    assert(s2.rows_distinct()) by {
        lemma_chain_after_push(s, c, s2, row.id);
    }
    assert(s2.chains_wf()) by {
        assert forall|i: int| 0 <= i < s2.rows.len() implies chain_wf(
            #[trigger] s2.rows[i],
            s2.txs,
            s2.latest,
        ) by {
            if i < s.rows.len() {
                let d = s.rows[i];
                assert(chain_wf(d, s.txs, s.latest));
                assert forall|j: int| 0 <= j < d.versions.len() implies {
                    let t = s.txs[(#[trigger] d.versions[j]).created_by as int];
                    let t2 = s2.txs[d.versions[j].created_by as int];
                    &&& t2.state == t.state
                    &&& t2.commit_ts == t.commit_ts
                    &&& t2.write_set.contains(d.id)
                } by {
                    assert(version_wf(
                        d.versions[j],
                        d.id,
                        j == d.versions.len() - 1,
                        s.txs,
                        s.latest,
                    ));
                }
                lemma_chain_wf_carries(d, s.txs, s.latest, s2.txs, s2.latest);
            } else {
                assert(s2.rows[i] == c);
                assert(s2.txs[tx_id as int].write_set.contains(row.id));
            }
        }
    }
    assert(s2.writes_pending()) by {
        assert forall|t: int, id: RowID|
            0 <= t < s2.txs.len() && s2.txs[t].state == TxState::Active && (
            #[trigger] s2.txs[t].write_set.contains(id)) implies pending_owner(s2.chain(id))
            == Some(t as u64) by {
            lemma_chain_after_push(s, c, s2, id);
            if id != row.id {
                assert(s.txs[t].write_set.contains(id));
            } else if s.txs[t].write_set.contains(id) {
                assert(pending_owner(s.chain(id)) == Some(t as u64));
            }
        }
    }
    assert(s2.commits_recorded()) by {
        assert forall|t: int, id: RowID|
            0 <= t < s2.txs.len() && s2.txs[t].commit_ts.is_some() && (
            #[trigger] s2.txs[t].write_set.contains(id)) implies s2.recorded(
            id,
            s2.txs[t].commit_ts.unwrap(),
        ) by {
            lemma_chain_after_push(s, c, s2, id);
            assert(tx_wf(s.txs[t], t, s.latest));
            assert(s.txs[t].write_set.contains(id));
            let ts = s.txs[t].commit_ts.unwrap();
            assert(s.recorded(id, ts));
            if !has_commit_since(s.chain(id), ts) {
                assert forall|u: int|
                    0 <= u < s2.txs.len() && (#[trigger] s2.txs[u]).state
                        == TxState::Active implies ts < s2.txs[u].snapshot_ts by {
                    assert(s.txs[u].state == TxState::Active);
                }
            }
        }
    }
    assert(s2.writers_serial()) by {
        assert forall|a: int, b: int, id: RowID|
            0 <= a < s2.txs.len() && 0 <= b < s2.txs.len() && a != b
                && s2.txs[a].commit_ts.is_some() && s2.txs[b].commit_ts.is_some() && (
            #[trigger] s2.txs[a].write_set.contains(id)) && (
            #[trigger] s2.txs[b].write_set.contains(id)) implies serial(s2.txs[a], s2.txs[b]) by {
            assert(tx_wf(s.txs[a], a, s.latest));
            assert(tx_wf(s.txs[b], b, s.latest));
            assert(s.txs[a].write_set.contains(id));
            assert(s.txs[b].write_set.contains(id));
        }
    }
}

/// After the chain at one place is replaced by a chain with the same
/// identity, that identity finds the new chain and every other identity
/// finds what it found before.
pub proof fn lemma_chain_after_update(
    s: StoreView,
    i: int,
    c: ChainView,
    s2: StoreView,
    id: RowID,
)
    requires
        s.rows_distinct(),
        0 <= i < s.rows.len(),
        c.id == s.rows[i].id,
        s2.rows == s.rows.update(i, c),
    ensures
        s2.rows_distinct(),
        s2.chain(id) == if id == c.id {
            c.versions
        } else {
            s.chain(id)
        },
{
    assert(s.same_ids(s2));
    lemma_same_ids(s, s2, id);
    lemma_position(s, i);
    lemma_position(s2, i);
    if s.has_row(id) {
        lemma_has_row(s, id);
        lemma_has_row(s2, id);
    }
}

/// A transaction that may write a row finds the row in the store.
pub proof fn lemma_write_finds_row(s: StoreView, tx_id: u64, id: RowID)
    requires
        s.write_outcome(tx_id, id) is Ok,
    ensures
        s.is_active(tx_id),
        s.has_row(id),
        s.chain(id).len() > 0,
        pending_owner(s.chain(id)) is None || pending_owner(s.chain(id)) == Some(tx_id),
{
}

/// Writing to a row, or deleting it, keeps the invariant.
pub proof fn lemma_write_inv(s: StoreView, tx_id: u64, id: RowID, data: Option<RowView>)
    requires
        s.inv(),
        s.write_outcome(tx_id, id) is Ok,
        data_belongs(data, id),
    ensures
        s.after_write(tx_id, id, data).inv(),
{
    let s2 = s.after_write(tx_id, id, data);
    lemma_write_finds_row(s, tx_id, id);
    lemma_has_row(s, id);
    let i = s.position(id);
    let old_chain = s.rows[i];
    let vs = old_chain.versions;
    let c = ChainView { id, versions: written(vs, id, tx_id, data) };
    assert(s2.rows == s.rows.update(i, c));
    assert(chain_wf(old_chain, s.txs, s.latest));
    assert forall|t: int, other: RowID| 0 <= t < s.txs.len() implies (
    #[trigger] s2.txs[t].write_set.contains(other)) == (s.txs[t].write_set.contains(other) || (t
        == tx_id && other == id)) by {
        lemma_noted(s.txs[t].write_set, id, other);
    }
    assert(s2.txs_wf()) by {
        assert forall|t: int| 0 <= t < s2.txs.len() implies tx_wf(
            #[trigger] s2.txs[t],
            t,
            s2.latest,
        ) by {
            assert(tx_wf(s.txs[t], t, s.latest));
        }
    }
    assert(s2.stamps_distinct()) by {
        assert forall|a: int, b: int| 0 <= a < s2.txs.len() && 0 <= b < s2.txs.len() implies (
        #[trigger] s2.txs[a]).commit_ts != Some((#[trigger] s2.txs[b]).snapshot_ts) by {
            assert(s.txs[a].commit_ts != Some(s.txs[b].snapshot_ts));
        }
    }
    assert(s2.rows_distinct()) by {
        lemma_chain_after_update(s, i, c, s2, id);
    }
    assert(chain_wf(c, s2.txs, s2.latest)) by {
        let ws = c.versions;
        assert forall|j: int| 0 <= j < ws.len() implies version_wf(
            #[trigger] ws[j],
            id,
            j == ws.len() - 1,
            s2.txs,
            s2.latest,
        ) by {
            if j < vs.len() {
                assert(version_wf(vs[j], id, j == vs.len() - 1, s.txs, s.latest));
            }
        }
        assert forall|j: int, k: int|
            0 <= j < k < ws.len() && (#[trigger] ws[k]).begin is Committed implies precedes(
            #[trigger] ws[j],
            ws[k],
        ) by {
            assert(version_wf(vs[k], id, k == vs.len() - 1, s.txs, s.latest));
            assert(precedes(vs[j], vs[k]));
        }
        assert(newest_committed_open(ws)) by {
            let n = vs.len() as int;
            if n >= 1 {
                assert(version_wf(vs[n - 1], id, true, s.txs, s.latest));
            }
        }
    }
    assert(s2.chains_wf()) by {
        assert forall|m: int| 0 <= m < s2.rows.len() implies chain_wf(
            #[trigger] s2.rows[m],
            s2.txs,
            s2.latest,
        ) by {
            if m != i {
                let d = s.rows[m];
                assert(chain_wf(d, s.txs, s.latest));
                assert forall|j: int| 0 <= j < d.versions.len() implies {
                    let t = s.txs[(#[trigger] d.versions[j]).created_by as int];
                    let t2 = s2.txs[d.versions[j].created_by as int];
                    &&& t2.state == t.state
                    &&& t2.commit_ts == t.commit_ts
                    &&& t2.write_set.contains(d.id)
                } by {
                    assert(version_wf(
                        d.versions[j],
                        d.id,
                        j == d.versions.len() - 1,
                        s.txs,
                        s.latest,
                    ));
                }
                lemma_chain_wf_carries(d, s.txs, s.latest, s2.txs, s2.latest);
            }
        }
    }
    assert(s2.writes_pending()) by {
        assert forall|t: int, other: RowID|
            0 <= t < s2.txs.len() && s2.txs[t].state == TxState::Active && (
            #[trigger] s2.txs[t].write_set.contains(other)) implies pending_owner(s2.chain(other))
            == Some(t as u64) by {
            lemma_chain_after_update(s, i, c, s2, other);
            if s.txs[t].write_set.contains(other) {
                assert(pending_owner(s.chain(other)) == Some(t as u64));
            }
        }
    }
    assert(s2.commits_recorded()) by {
        assert forall|t: int, other: RowID|
            0 <= t < s2.txs.len() && s2.txs[t].commit_ts.is_some() && (
            #[trigger] s2.txs[t].write_set.contains(other)) implies s2.recorded(
            other,
            s2.txs[t].commit_ts.unwrap(),
        ) by {
            lemma_chain_after_update(s, i, c, s2, other);
            assert(tx_wf(s.txs[t], t, s.latest));
            assert(s.txs[t].write_set.contains(other));
            let ts = s.txs[t].commit_ts.unwrap();
            assert(s.recorded(other, ts));
            if has_commit_since(s.chain(other), ts) {
                if other == id {
                    let j = choose|j: int|
                        0 <= j < vs.len() && #[trigger] committed_since(vs[j], ts);
                    assert(committed_since(c.versions[j], ts));
                }
            } else {
                assert forall|u: int|
                    0 <= u < s2.txs.len() && (#[trigger] s2.txs[u]).state
                        == TxState::Active implies ts < s2.txs[u].snapshot_ts by {
                    assert(s.txs[u].state == TxState::Active);
                }
            }
        }
    }
    assert(s2.writers_serial()) by {
        assert forall|a: int, b: int, other: RowID|
            0 <= a < s2.txs.len() && 0 <= b < s2.txs.len() && a != b
                && s2.txs[a].commit_ts.is_some() && s2.txs[b].commit_ts.is_some() && (
            #[trigger] s2.txs[a].write_set.contains(other)) && (
            #[trigger] s2.txs[b].write_set.contains(other)) implies serial(
            s2.txs[a],
            s2.txs[b],
        ) by {
            assert(tx_wf(s.txs[a], a, s.latest));
            assert(tx_wf(s.txs[b], b, s.latest));
            assert(s.txs[a].write_set.contains(other));
            assert(s.txs[b].write_set.contains(other));
        }
    }
}

/// Where two stores have the same identities at the same places, an identity
/// finds in the second store the chain that stands where its chain stands in
/// the first.
pub proof fn lemma_chain_mapped(s: StoreView, s2: StoreView, id: RowID)
    requires
        s.rows_distinct(),
        s.same_ids(s2),
    ensures
        s2.rows_distinct(),
        s2.has_row(id) == s.has_row(id),
        s.has_row(id) ==> {
            &&& 0 <= s.position(id) < s.rows.len()
            &&& s.rows[s.position(id)].id == id
            &&& s.chain(id) == s.rows[s.position(id)].versions
            &&& s2.chain(id) == s2.rows[s.position(id)].versions
        },
        !s.has_row(id) ==> s.chain(id) == Seq::<VersionView>::empty() && s2.chain(id) == Seq::<
            VersionView,
        >::empty(),
{
    lemma_same_ids(s, s2, id);
    if s.has_row(id) {
        lemma_has_row(s, id);
        lemma_has_row(s2, id);
    }
}

/// Where two stores have the same identities at the same places and the
/// identities of one are distinct, so are those of the other.
pub proof fn lemma_distinct_mapped(s: StoreView, s2: StoreView)
    requires
        s.rows_distinct(),
        s.same_ids(s2),
    ensures
        s2.rows_distinct(),
{
    assert forall|i: int, j: int| 0 <= i < j < s2.rows.len() implies (#[trigger] s2.rows[i]).id != (
    #[trigger] s2.rows[j]).id by {
        assert(s.rows[i].id != s.rows[j].id);
    }
}

/// No version of a well-formed chain was created by an active transaction
/// that holds no uncommitted version in it.
pub proof fn lemma_active_creates_pending(
    c: ChainView,
    txs: Seq<TxView>,
    latest: u64,
    tx_id: u64,
    j: int,
)
    requires
        chain_wf(c, txs, latest),
        0 <= tx_id < txs.len(),
        txs[tx_id as int].state == TxState::Active,
        0 <= j < c.versions.len(),
        c.versions[j].created_by == tx_id,
    ensures
        j == c.versions.len() - 1,
        pending_owner(c.versions) == Some(tx_id),
{
    assert(version_wf(c.versions[j], c.id, j == c.versions.len() - 1, txs, latest));
}

/// Committing keeps every chain well formed.
proof fn lemma_commit_chain_wf(s: StoreView, tx_id: u64, ts: u64, i: int)
    requires
        s.inv(),
        s.is_active(tx_id),
        ts > s.latest,
        0 <= i < s.rows.len(),
    ensures
        chain_wf(s.after_commit(tx_id, ts).rows[i], s.after_commit(tx_id, ts).txs, ts),
{
    let s2 = s.after_commit(tx_id, ts);
    let c = s.rows[i];
    let vs = c.versions;
    let n = vs.len() as int;
    let c2 = s2.rows[i];
    let ws = c2.versions;
    assert(chain_wf(c, s.txs, s.latest));
    assert(ws == finalized(vs, tx_id, ts));
    assert forall|j: int| 0 <= j < n implies version_wf(#[trigger] vs[j], c.id, j == n - 1, s.txs, s.latest)
        && tx_wf(s.txs[vs[j].created_by as int], vs[j].created_by as int, s.latest) by {
        assert(version_wf(vs[j], c.id, j == n - 1, s.txs, s.latest));
    }
    if pending_owner(vs) == Some(tx_id) {
        assert forall|j: int| 0 <= j < ws.len() implies version_wf(
            #[trigger] ws[j],
            c2.id,
            j == ws.len() - 1,
            s2.txs,
            ts,
        ) by {
            assert(version_wf(vs[j], c.id, j == n - 1, s.txs, s.latest));
        }
        assert forall|j: int, k: int|
            0 <= j < k < ws.len() && (#[trigger] ws[k]).begin is Committed implies precedes(
            #[trigger] ws[j],
            ws[k],
        ) by {
            assert(version_wf(vs[j], c.id, j == n - 1, s.txs, s.latest));
            assert(version_wf(vs[k], c.id, k == n - 1, s.txs, s.latest));
            if k < n - 1 {
                assert(precedes(vs[j], vs[k]));
            } else if j < n - 2 {
                assert(version_wf(vs[n - 2], c.id, false, s.txs, s.latest));
                assert(precedes(vs[j], vs[n - 2]));
            }
        }
    } else {
        assert forall|j: int| 0 <= j < n implies {
            let t = s.txs[(#[trigger] vs[j]).created_by as int];
            let t2 = s2.txs[vs[j].created_by as int];
            &&& t2.state == t.state
            &&& t2.commit_ts == t.commit_ts
            &&& t2.write_set.contains(c.id)
        } by {
            assert(version_wf(vs[j], c.id, j == n - 1, s.txs, s.latest));
            if vs[j].created_by == tx_id {
                lemma_active_creates_pending(c, s.txs, s.latest, tx_id, j);
            }
        }
        lemma_chain_wf_carries(c, s.txs, s.latest, s2.txs, ts);
        assert(c2 == c);
    }
}

/// Committing a transaction that has no conflict keeps the invariant.
pub proof fn lemma_commit_inv(s: StoreView, tx_id: u64, ts: u64)
    requires
        s.inv(),
        s.is_active(tx_id),
        !s.has_conflict(tx_id),
        ts > s.latest,
    ensures
        s.after_commit(tx_id, ts).inv(),
{
    let s2 = s.after_commit(tx_id, ts);
    let me = s.txs[tx_id as int];
    assert(s.same_ids(s2));
    assert(s2.txs_wf()) by {
        assert forall|t: int| 0 <= t < s2.txs.len() implies tx_wf(
            #[trigger] s2.txs[t],
            t,
            s2.latest,
        ) by {
            assert(tx_wf(s.txs[t], t, s.latest));
        }
    }
    assert(s2.stamps_distinct()) by {
        assert forall|a: int, b: int| 0 <= a < s2.txs.len() && 0 <= b < s2.txs.len() implies (
        #[trigger] s2.txs[a]).commit_ts != Some((#[trigger] s2.txs[b]).snapshot_ts) by {
            assert(s.txs[a].commit_ts != Some(s.txs[b].snapshot_ts));
            assert(tx_wf(s.txs[b], b, s.latest));
        }
    }
    assert(s2.rows_distinct()) by {
        lemma_distinct_mapped(s, s2);
    }
    assert(s2.chains_wf()) by {
        assert forall|i: int| 0 <= i < s2.rows.len() implies chain_wf(
            #[trigger] s2.rows[i],
            s2.txs,
            s2.latest,
        ) by {
            lemma_commit_chain_wf(s, tx_id, ts, i);
        }
    }
    assert(s2.writes_pending()) by {
        assert forall|t: int, id: RowID|
            0 <= t < s2.txs.len() && s2.txs[t].state == TxState::Active && (
            #[trigger] s2.txs[t].write_set.contains(id)) implies pending_owner(s2.chain(id))
            == Some(t as u64) by {
            lemma_chain_mapped(s, s2, id);
            assert(s.txs[t].write_set.contains(id));
            assert(pending_owner(s.chain(id)) == Some(t as u64));
        }
    }
    assert(s2.commits_recorded()) by {
        assert forall|t: int, id: RowID|
            0 <= t < s2.txs.len() && s2.txs[t].commit_ts.is_some() && (
            #[trigger] s2.txs[t].write_set.contains(id)) implies s2.recorded(
            id,
            s2.txs[t].commit_ts.unwrap(),
        ) by {
            lemma_chain_mapped(s, s2, id);
            assert(s.txs[t].write_set.contains(id));
            assert(tx_wf(s.txs[t], t, s.latest));
            let vs = s.chain(id);
            let ws = s2.chain(id);
            if t == tx_id {
                assert(pending_owner(vs) == Some(tx_id));
                assert(committed_since(ws[vs.len() - 1], ts));
            } else {
                let c = s.txs[t].commit_ts.unwrap();
                assert(s.recorded(id, c));
                if has_commit_since(vs, c) {
                    let j = choose|j: int|
                        0 <= j < vs.len() && #[trigger] committed_since(vs[j], c);
                    assert(committed_since(ws[j], c));
                } else {
                    assert forall|u: int|
                        0 <= u < s2.txs.len() && (#[trigger] s2.txs[u]).state
                            == TxState::Active implies c < s2.txs[u].snapshot_ts by {
                        assert(s.txs[u].state == TxState::Active);
                    }
                }
            }
        }
    }
    assert(s2.writers_serial()) by {
        assert forall|a: int, b: int, id: RowID|
            0 <= a < s2.txs.len() && 0 <= b < s2.txs.len() && a != b
                && s2.txs[a].commit_ts.is_some() && s2.txs[b].commit_ts.is_some() && (
            #[trigger] s2.txs[a].write_set.contains(id)) && (
            #[trigger] s2.txs[b].write_set.contains(id)) implies serial(s2.txs[a], s2.txs[b]) by {
            assert(s.txs[a].write_set.contains(id));
            assert(s.txs[b].write_set.contains(id));
            assert(tx_wf(s.txs[a], a, s.latest));
            assert(tx_wf(s.txs[b], b, s.latest));
            if a == tx_id {
                lemma_commit_after_writer(s, tx_id, b, id);
            } else if b == tx_id {
                lemma_commit_after_writer(s, tx_id, a, id);
            }
        }
    }
}

/// A transaction that has no conflict began after every committed writer of
/// the rows it wrote.
pub proof fn lemma_commit_after_writer(s: StoreView, tx_id: u64, other: int, id: RowID)
    requires
        s.inv(),
        s.is_active(tx_id),
        !s.has_conflict(tx_id),
        0 <= other < s.txs.len(),
        s.txs[other].commit_ts.is_some(),
        s.txs[tx_id as int].write_set.contains(id),
        s.txs[other].write_set.contains(id),
    ensures
        s.txs[other].commit_ts.unwrap() < s.txs[tx_id as int].snapshot_ts,
{
    let me = s.txs[tx_id as int];
    let c = s.txs[other].commit_ts.unwrap();
    let vs = s.chain(id);
    assert(s.recorded(id, c));
    if has_commit_since(vs, c) {
        let j = choose|j: int| 0 <= j < vs.len() && #[trigger] committed_since(vs[j], c);
        let k = choose|k: int| 0 <= k < me.write_set.len() && me.write_set[k] == id;
        assert(!has_commit_after(s.chain(me.write_set[k]), me.snapshot_ts));
        assert(!committed_after(vs[j], me.snapshot_ts));
        assert(s.txs[other].commit_ts != Some(s.txs[tx_id as int].snapshot_ts));
    } else {
        assert(s.txs[tx_id as int].state == TxState::Active);
    }
}

/// Aborting keeps every chain well formed.
proof fn lemma_abort_chain_wf(s: StoreView, tx_id: u64, i: int)
    requires
        s.inv(),
        s.is_active(tx_id),
        0 <= i < s.rows.len(),
    ensures
        chain_wf(s.after_abort(tx_id).rows[i], s.after_abort(tx_id).txs, s.latest),
{
    let s2 = s.after_abort(tx_id);
    let c = s.rows[i];
    let vs = c.versions;
    let n = vs.len() as int;
    let c2 = s2.rows[i];
    let ws = c2.versions;
    assert(chain_wf(c, s.txs, s.latest));
    assert(ws == discarded(vs, tx_id));
    assert forall|j: int| 0 <= j < ws.len() implies version_wf(
        #[trigger] ws[j],
        c2.id,
        j == ws.len() - 1,
        s2.txs,
        s.latest,
    ) by {
        assert(version_wf(vs[j], c.id, j == n - 1, s.txs, s.latest));
        if vs[j].created_by == tx_id {
            lemma_active_creates_pending(c, s.txs, s.latest, tx_id, j);
        }
    }
    assert forall|j: int, k: int|
        0 <= j < k < ws.len() && (#[trigger] ws[k]).begin is Committed implies precedes(
        #[trigger] ws[j],
        ws[k],
    ) by {
        assert(precedes(vs[j], vs[k]));
    }
    assert(newest_committed_open(ws)) by {
        if ws.len() >= 1 {
            assert(version_wf(vs[ws.len() - 1], c.id, ws.len() == n, s.txs, s.latest));
        }
    }
}

/// Aborting an active transaction keeps the invariant.
pub proof fn lemma_abort_inv(s: StoreView, tx_id: u64)
    requires
        s.inv(),
        s.is_active(tx_id),
    ensures
        s.after_abort(tx_id).inv(),
{
    let s2 = s.after_abort(tx_id);
    assert(s.same_ids(s2));
    assert(s2.txs_wf()) by {
        assert forall|t: int| 0 <= t < s2.txs.len() implies tx_wf(
            #[trigger] s2.txs[t],
            t,
            s2.latest,
        ) by {
            assert(tx_wf(s.txs[t], t, s.latest));
        }
    }
    assert(s2.stamps_distinct()) by {
        assert forall|a: int, b: int| 0 <= a < s2.txs.len() && 0 <= b < s2.txs.len() implies (
        #[trigger] s2.txs[a]).commit_ts != Some((#[trigger] s2.txs[b]).snapshot_ts) by {
            assert(s.txs[a].commit_ts != Some(s.txs[b].snapshot_ts));
        }
    }
    assert(s2.rows_distinct()) by {
        lemma_distinct_mapped(s, s2);
    }
    assert(s2.chains_wf()) by {
        assert forall|i: int| 0 <= i < s2.rows.len() implies chain_wf(
            #[trigger] s2.rows[i],
            s2.txs,
            s2.latest,
        ) by {
            lemma_abort_chain_wf(s, tx_id, i);
        }
    }
    assert(s2.writes_pending()) by {
        assert forall|t: int, id: RowID|
            0 <= t < s2.txs.len() && s2.txs[t].state == TxState::Active && (
            #[trigger] s2.txs[t].write_set.contains(id)) implies pending_owner(s2.chain(id))
            == Some(t as u64) by {
            lemma_chain_mapped(s, s2, id);
            assert(s.txs[t].write_set.contains(id));
            assert(pending_owner(s.chain(id)) == Some(t as u64));
        }
    }
    assert(s2.commits_recorded()) by {
        assert forall|t: int, id: RowID|
            0 <= t < s2.txs.len() && s2.txs[t].commit_ts.is_some() && (
            #[trigger] s2.txs[t].write_set.contains(id)) implies s2.recorded(
            id,
            s2.txs[t].commit_ts.unwrap(),
        ) by {
            lemma_chain_mapped(s, s2, id);
            assert(s.txs[t].write_set.contains(id));
            assert(tx_wf(s.txs[t], t, s.latest));
            let vs = s.chain(id);
            let ws = s2.chain(id);
            let c = s.txs[t].commit_ts.unwrap();
            assert(s.recorded(id, c));
            if has_commit_since(vs, c) {
                let j = choose|j: int| 0 <= j < vs.len() && #[trigger] committed_since(vs[j], c);
                assert(committed_since(ws[j], c));
            } else {
                assert forall|u: int|
                    0 <= u < s2.txs.len() && (#[trigger] s2.txs[u]).state
                        == TxState::Active implies c < s2.txs[u].snapshot_ts by {
                    assert(s.txs[u].state == TxState::Active);
                }
            }
        }
    }
    assert(s2.writers_serial()) by {
        assert forall|a: int, b: int, id: RowID|
            0 <= a < s2.txs.len() && 0 <= b < s2.txs.len() && a != b
                && s2.txs[a].commit_ts.is_some() && s2.txs[b].commit_ts.is_some() && (
            #[trigger] s2.txs[a].write_set.contains(id)) && (
            #[trigger] s2.txs[b].write_set.contains(id)) implies serial(s2.txs[a], s2.txs[b]) by {
            assert(s.txs[a].write_set.contains(id));
            assert(s.txs[b].write_set.contains(id));
            assert(tx_wf(s.txs[a], a, s.latest));
            assert(tx_wf(s.txs[b], b, s.latest));
        }
    }
}

/// Unless it purges tombstones, collection keeps, in every well-formed
/// chain, a version committed no earlier than any version the chain held.
proof fn lemma_reclaimed_keeps_newest(
    c: ChainView,
    txs: Seq<TxView>,
    latest: u64,
    watermark: Option<u64>,
    purge: bool,
    ts: u64,
)
    requires
        chain_wf(c, txs, latest),
        has_commit_since(c.versions, ts),
        watermark is Some || !purge,
    ensures
        has_commit_since(reclaimed(c.versions, watermark, purge), ts),
{
    let vs = c.versions;
    let n = vs.len() as int;
    let ws = reclaimed(vs, watermark, purge);
    lemma_reclaimed_wf(c, txs, latest, watermark, purge);
    let m = reclaim_count(vs, watermark, purge);
    let j = choose|j: int| 0 <= j < vs.len() && #[trigger] committed_since(vs[j], ts);
    assert(version_wf(vs[j], c.id, j == n - 1, txs, latest));
    assert(version_wf(vs[n - 1], c.id, true, txs, latest));
    let q = if vs[n - 1].begin is Committed {
        n - 1
    } else {
        n - 2
    };
    assert(version_wf(vs[q], c.id, q == n - 1, txs, latest));
    if j < q {
        assert(precedes(vs[j], vs[q]));
    }
    assert(!reclaimable(vs[q], watermark, purge));
    assert(committed_since(ws[q - m], ts));
}

/// A collection cycle keeps the invariant.
pub proof fn lemma_gc_inv(s: StoreView, purge: bool)
    requires
        s.inv(),
    ensures
        s.after_gc(purge).inv(),
{
    let s2 = s.after_gc(purge);
    let w = s.watermark();
    assert(s.same_ids(s2));
    assert(s2.txs_wf());
    assert(s2.stamps_distinct());
    assert(s2.rows_distinct()) by {
        lemma_distinct_mapped(s, s2);
    }
    assert(s2.chains_wf()) by {
        assert forall|i: int| 0 <= i < s2.rows.len() implies chain_wf(
            #[trigger] s2.rows[i],
            s2.txs,
            s2.latest,
        ) by {
            assert(chain_wf(s.rows[i], s.txs, s.latest));
            lemma_reclaimed_wf(s.rows[i], s.txs, s.latest, w, purge);
        }
    }
    assert(s2.writes_pending()) by {
        assert forall|t: int, id: RowID|
            0 <= t < s2.txs.len() && s2.txs[t].state == TxState::Active && (
            #[trigger] s2.txs[t].write_set.contains(id)) implies pending_owner(s2.chain(id))
            == Some(t as u64) by {
            lemma_chain_mapped(s, s2, id);
            assert(pending_owner(s.chain(id)) == Some(t as u64));
            let i = s.position(id);
            assert(chain_wf(s.rows[i], s.txs, s.latest));
            lemma_watermark_bounds(s.txs, t);
            lemma_reclaimed_wf(s.rows[i], s.txs, s.latest, w, purge);
        }
    }
    assert(s2.commits_recorded()) by {
        assert forall|t: int, id: RowID|
            0 <= t < s2.txs.len() && s2.txs[t].commit_ts.is_some() && (
            #[trigger] s2.txs[t].write_set.contains(id)) implies s2.recorded(
            id,
            s2.txs[t].commit_ts.unwrap(),
        ) by {
            lemma_chain_mapped(s, s2, id);
            let c = s.txs[t].commit_ts.unwrap();
            assert(s.recorded(id, c));
            if has_commit_since(s.chain(id), c) {
                if w is Some || !purge {
                    let i = s.position(id);
                    assert(chain_wf(s.rows[i], s.txs, s.latest));
                    lemma_reclaimed_keeps_newest(s.rows[i], s.txs, s.latest, w, purge, c);
                } else {
                    assert forall|u: int|
                        0 <= u < s2.txs.len() && (#[trigger] s2.txs[u]).state
                            == TxState::Active implies c < s2.txs[u].snapshot_ts by {
                        lemma_watermark_bounds(s.txs, u);
                    }
                }
            }
        }
    }
    assert(s2.writers_serial());
}

/// The empty store satisfies the invariant.
pub proof fn lemma_empty_inv(latest: u64)
    ensures
        StoreView::empty(latest).inv(),
{
    let s = StoreView::empty(latest);
    assert forall|t: int, id: RowID|
        0 <= t < s.txs.len() && s.txs[t].state == TxState::Active && (
        #[trigger] s.txs[t].write_set.contains(id)) implies pending_owner(s.chain(id)) == Some(
        t as u64,
    ) by {}
}

/// Every operation keeps the invariant.
pub proof fn lemma_step_inv(s: StoreView, op: Op)
    requires
        s.inv(),
        op.timely(s),
    ensures
        s.step(op).inv(),
{
    match op {
        Op::Begin { ts } => {
            lemma_begin_inv(s, ts);
        },
        Op::Insert { tx_id, row } => {
            if s.insert_outcome(tx_id, row.id) is Ok {
                lemma_insert_inv(s, tx_id, row);
            }
        },
        Op::Update { tx_id, id, columns } => {
            if s.write_outcome(tx_id, id) is Ok {
                lemma_write_inv(s, tx_id, id, Some(RowView { id, columns }));
            }
        },
        Op::Delete { tx_id, id } => {
            if s.write_outcome(tx_id, id) is Ok {
                lemma_write_inv(s, tx_id, id, None);
            }
        },
        Op::Commit { tx_id, ts } => {
            if s.is_active(tx_id) {
                if s.has_conflict(tx_id) {
                    lemma_abort_inv(s, tx_id);
                } else {
                    lemma_commit_inv(s, tx_id, ts);
                }
            }
        },
        Op::Abort { tx_id } => {
            if s.is_active(tx_id) {
                lemma_abort_inv(s, tx_id);
            }
        },
        Op::CollectGarbage { purge } => {
            lemma_gc_inv(s, purge);
        },
    }
}

/// Every sequence of operations keeps the invariant.
pub proof fn lemma_run_inv(s: StoreView, ops: Seq<Op>)
    requires
        s.inv(),
        s.timely(ops),
    ensures
        s.run(ops).inv(),
    decreases ops.len(),
{
    if ops.len() > 0 {
        lemma_run_inv(s, ops.drop_last());
        lemma_step_inv(s.run(ops.drop_last()), ops.last());
    }
}

} // verus!
