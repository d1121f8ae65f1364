use vstd::prelude::*;

use crate::item::ItemModel;
use crate::nestedmap::delete::{first_id_idx, lemma_first_id_idx};
use crate::nestedmap::insert::updated_hist;
use crate::nestedmap::query::{
    collector_seq, spec_collect, spec_collect_children, spec_query, spec_query_children,
    take_up_to, wildcard_seq,
};
use crate::nestedmap::{idx_of, lemma_idx_of, marker_seq, NestedMap, NestedValue};
use crate::store::{expired_to, Datastore};

verus! {

/// A write is read back: after any write, the history at the written
/// path is non-empty and its newest version is the written record.
pub proof fn lemma_set_then_get(h: Seq<ItemModel>, it: ItemModel, preserve: bool, max: nat)
    ensures
        updated_hist(h, it, preserve, max).len() > 0,
        updated_hist(h, it, preserve, max)[0] == it,
{
}

/// Histories never outgrow the bound: in a well-formed trie every
/// history, at every path, holds at most `max_history` versions.
pub proof fn lemma_history_bounded(m: NestedMap, p: Seq<Seq<char>>)
    requires
        m.node_wf(),
    ensures
        m.node_hist(p).len() <= m.max_history,
    decreases p.len(),
{
    if p.len() == 0 {
        let i = idx_of(m.data@, marker_seq());
        lemma_idx_of(m.data@, marker_seq());
        if 0 <= i < m.data@.len() {
            assert(m.data@[i] == m.data@[i]);
        }
    } else {
        let i = idx_of(m.data@, p[0]);
        lemma_idx_of(m.data@, p[0]);
        if 0 <= i < m.data@.len() {
            match m.data@[i].val {
                NestedValue::Node(c) => {
                    assert(c.node_wf() && c.max_history == m.max_history);
                    lemma_history_bounded(c, p.drop_first());
                },
                NestedValue::Items(_) => {},
            }
        }
    }
}

/// A query whose pattern holds no wildcard and no collector reads the
/// same history that an exact read does: up to `k` newest versions of
/// the history at that path, so with `k == 1` exactly the version an
/// exact read returns, or nothing when the path is absent.
pub proof fn lemma_query_literal(m: NestedMap, pat: Seq<Seq<char>>, k: nat)
    requires
        forall|j: int| 0 <= j < pat.len() ==> (#[trigger] pat[j]) != wildcard_seq(),
        forall|j: int| 0 <= j < pat.len() ==> (#[trigger] pat[j]) != collector_seq(),
    ensures
        spec_query(m, pat, k) == take_up_to(m.node_hist(pat), k),
        k == 1 && m.node_hist(pat).len() > 0 ==> spec_query(m, pat, k) == seq![
            m.node_hist(pat)[0],
        ],
        m.node_hist(pat).len() == 0 ==> spec_query(m, pat, k) == Seq::<ItemModel>::empty(),
    decreases pat.len(),
{
    if pat.len() == 0 {
    } else {
        let i = idx_of(m.data@, pat[0]);
        lemma_idx_of(m.data@, pat[0]);
        if 0 <= i < m.data@.len() {
            match m.data@[i].val {
                NestedValue::Node(c) => {
                    assert(forall|j: int|
                        0 <= j < pat.drop_first().len() ==> (#[trigger] pat.drop_first()[j])
                            != wildcard_seq());
                    assert(forall|j: int|
                        0 <= j < pat.drop_first().len() ==> (#[trigger] pat.drop_first()[j])
                            != collector_seq());
                    lemma_query_literal(c, pat.drop_first(), k);
                },
                NestedValue::Items(_) => {},
            }
        }
    }
    if k == 1 && m.node_hist(pat).len() > 0 {
        assert(take_up_to(m.node_hist(pat), 1) =~= seq![m.node_hist(pat)[0]]);
    }
    if m.node_hist(pat).len() == 0 {
        assert(take_up_to(m.node_hist(pat), k) =~= Seq::<ItemModel>::empty());
    }
}

/// Writing with history preservation first grows the history by one
/// per write, then, once the bound is reached, keeps its length and
/// evicts the oldest version.
pub proof fn lemma_preserve_grows_then_fifo(h: Seq<ItemModel>, it: ItemModel, max: nat)
    requires
        max >= 1,
        h.len() <= max,
    ensures
        h.len() < max ==> updated_hist(h, it, true, max) == seq![it] + h,
        h.len() < max ==> updated_hist(h, it, true, max).len() == h.len() + 1,
        h.len() == max ==> updated_hist(h, it, true, max) == seq![it] + h.drop_last(),
        h.len() == max ==> updated_hist(h, it, true, max).len() == h.len(),
{
}

/// Writing without history preservation touches only the newest slot:
/// every version at positions 1 and beyond stays exactly in place.
pub proof fn lemma_overwrite_leaves_tail(h: Seq<ItemModel>, it: ItemModel, max: nat)
    ensures
        updated_hist(h, it, false, max).len() == (if h.len() == 0 {
            1int
        } else {
            h.len() as int
        }),
        forall|l: int| 1 <= l < h.len() ==> #[trigger] updated_hist(h, it, false, max)[l] == h[l],
{
}

/// After a drain of due expirations, no version that a fired record
/// named is still present: the history at the fired path holds no
/// version with the fired id, so an exact read cannot return it and a
/// query cannot include it.
pub proof fn lemma_expired_version_gone(
    pre: Datastore,
    post: Datastore,
    now: u64,
    n: int,
    l: int,
)
    requires
        expired_to(pre, post, now, n),
        0 <= l < n <= pre.ttl@.len(),
    ensures
        forall|j: int|
            0 <= j < post.map.node_hist(crate::paths::spec_split(pre.ttl@[l].key)).len()
                ==> (#[trigger] post.map.node_hist(
                crate::paths::spec_split(pre.ttl@[l].key),
            )[j]).id != pre.ttl@[l].id,
{
    let p = crate::paths::spec_split(pre.ttl@[l].key);
    assert(first_id_idx(post.map.node_hist(p), pre.ttl@[l].id) < 0);
    lemma_first_id_idx(post.map.node_hist(p), pre.ttl@[l].id);
}

/// A child's histories seen from its parent: walking first through the
/// binding at `jj` reads exactly the child's own histories.
proof fn lemma_hist_through_child(m: NestedMap, jj: int, p: Seq<Seq<char>>)
    requires
        m.node_wf(),
        0 <= jj < m.data@.len(),
        m.data@[jj].val is Node,
    ensures
        m.node_hist(seq![m.data@[jj].key@] + p) == m.data@[jj].val->Node_0.node_hist(p),
{
    let k = m.data@[jj].key@;
    assert(forall|a: int| 0 <= a < jj ==> m.data@[a].key@ != k);
    crate::nestedmap::lemma_idx_of_at(m.data@, k, jj);
    let q = seq![k] + p;
    assert(q[0] == k);
    assert(q.drop_first() =~= p);
}

/// Everything a collector emits lies in some history of the node it
/// ran on.
proof fn lemma_collect_from_hist(m: NestedMap, skip_current: bool, k: nat, j: int)
    requires
        m.node_wf(),
        0 <= j < spec_collect(m, skip_current, k).len(),
    ensures
        exists|p: Seq<Seq<char>>| #[trigger] m.node_hist(p).contains(
            spec_collect(m, skip_current, k)[j],
        ),
    decreases m, 0int, m.data@.len() + 1,
{
    let own: Seq<ItemModel> = if skip_current {
        Seq::empty()
    } else {
        take_up_to(m.own_hist(), k)
    };
    let it = spec_collect(m, skip_current, k)[j];
    if j < own.len() {
        assert(it == m.own_hist()[j]);
        let p0 = Seq::<Seq<char>>::empty();
        assert(m.node_hist(p0) == m.own_hist());
        assert(m.node_hist(p0).contains(it));
    } else {
        assert(spec_collect_children(m, 0, k)[j - own.len()] == it);
        lemma_collect_children_from_hist(m, 0, k, j - own.len());
    }
}

proof fn lemma_collect_children_from_hist(m: NestedMap, jj: int, k: nat, j: int)
    requires
        m.node_wf(),
        0 <= j < spec_collect_children(m, jj, k).len(),
    ensures
        exists|p: Seq<Seq<char>>| #[trigger] m.node_hist(p).contains(
            spec_collect_children(m, jj, k)[j],
        ),
    decreases m, 0int, m.data@.len() - jj,
{
    let it = spec_collect_children(m, jj, k)[j];
    let head: Seq<ItemModel> = match m.data@[jj].val {
        NestedValue::Node(c) => spec_collect(c, false, k),
        NestedValue::Items(_) => Seq::empty(),
    };
    if j < head.len() {
        match m.data@[jj].val {
            NestedValue::Node(c) => {
                assert(c.node_wf());
                lemma_collect_from_hist(c, false, k, j);
                let p = choose|p: Seq<Seq<char>>| #[trigger] c.node_hist(p).contains(
                    spec_collect(c, false, k)[j],
                );
                lemma_hist_through_child(m, jj, p);
                assert(m.node_hist(seq![m.data@[jj].key@] + p).contains(it));
            },
            NestedValue::Items(_) => {},
        }
    } else {
        assert(spec_collect_children(m, jj + 1, k)[j - head.len()] == it);
        lemma_collect_children_from_hist(m, jj + 1, k, j - head.len());
    }
}

/// Everything a query returns lies in some history of the store: a
/// query invents no version and resurrects none.
pub proof fn lemma_query_from_hist(m: NestedMap, pat: Seq<Seq<char>>, k: nat, j: int)
    requires
        m.node_wf(),
        0 <= j < spec_query(m, pat, k).len(),
    ensures
        exists|p: Seq<Seq<char>>| #[trigger] m.node_hist(p).contains(spec_query(m, pat, k)[j]),
    decreases m, pat.len(), m.data@.len() + 1,
{
    let it = spec_query(m, pat, k)[j];
    if pat.len() == 0 {
        let p0 = Seq::<Seq<char>>::empty();
        assert(m.node_hist(p0) == m.own_hist());
        assert(it == m.own_hist()[j]);
        assert(m.node_hist(p0).contains(it));
    } else if pat[0] == wildcard_seq() {
        lemma_query_children_from_hist(m, 0, pat.drop_first(), k, j);
    } else if pat[0] == collector_seq() {
        lemma_collect_from_hist(m, true, k, j);
    } else {
        let i = idx_of(m.data@, pat[0]);
        lemma_idx_of(m.data@, pat[0]);
        if 0 <= i < m.data@.len() {
            match m.data@[i].val {
                NestedValue::Node(c) => {
                    assert(c.node_wf());
                    lemma_query_from_hist(c, pat.drop_first(), k, j);
                    let p = choose|p: Seq<Seq<char>>| #[trigger] c.node_hist(p).contains(
                        spec_query(c, pat.drop_first(), k)[j],
                    );
                    lemma_hist_through_child(m, i, p);
                    assert(m.node_hist(seq![m.data@[i].key@] + p).contains(it));
                },
                NestedValue::Items(_) => {},
            }
        }
    }
}

proof fn lemma_query_children_from_hist(
    m: NestedMap,
    jj: int,
    pat: Seq<Seq<char>>,
    k: nat,
    j: int,
)
    requires
        m.node_wf(),
        0 <= j < spec_query_children(m, jj, pat, k).len(),
    ensures
        exists|p: Seq<Seq<char>>| #[trigger] m.node_hist(p).contains(
            spec_query_children(m, jj, pat, k)[j],
        ),
    decreases m, pat.len(), m.data@.len() - jj,
{
    let it = spec_query_children(m, jj, pat, k)[j];
    let head: Seq<ItemModel> = match m.data@[jj].val {
        NestedValue::Node(c) => spec_query(c, pat, k),
        NestedValue::Items(_) => Seq::empty(),
    };
    if j < head.len() {
        match m.data@[jj].val {
            NestedValue::Node(c) => {
                assert(c.node_wf());
                lemma_query_from_hist(c, pat, k, j);
                let p = choose|p: Seq<Seq<char>>| #[trigger] c.node_hist(p).contains(
                    spec_query(c, pat, k)[j],
                );
                lemma_hist_through_child(m, jj, p);
                assert(m.node_hist(seq![m.data@[jj].key@] + p).contains(it));
            },
            NestedValue::Items(_) => {},
        }
    } else {
        assert(spec_query_children(m, jj + 1, pat, k)[j - head.len()] == it);
        lemma_query_children_from_hist(m, jj + 1, pat, k, j - head.len());
    }
}

/// After a drain of due expirations, a query over the fired path (read
/// as literal segments) returns no version carrying the fired id.
pub proof fn lemma_expired_query_excludes(
    pre: Datastore,
    post: Datastore,
    now: u64,
    n: int,
    l: int,
    k: nat,
)
    requires
        expired_to(pre, post, now, n),
        0 <= l < n <= pre.ttl@.len(),
        forall|j: int|
            0 <= j < crate::paths::spec_split(pre.ttl@[l].key).len() ==> (
            #[trigger] crate::paths::spec_split(pre.ttl@[l].key)[j]) != wildcard_seq(),
        forall|j: int|
            0 <= j < crate::paths::spec_split(pre.ttl@[l].key).len() ==> (
            #[trigger] crate::paths::spec_split(pre.ttl@[l].key)[j]) != collector_seq(),
    ensures
        forall|j: int|
            0 <= j < spec_query(post.map, crate::paths::spec_split(pre.ttl@[l].key), k).len()
                ==> (#[trigger] spec_query(
                post.map,
                crate::paths::spec_split(pre.ttl@[l].key),
                k,
            )[j]).id != pre.ttl@[l].id,
{
    let p = crate::paths::spec_split(pre.ttl@[l].key);
    lemma_query_literal(post.map, p, k);
    lemma_expired_version_gone(pre, post, now, n, l);
    assert forall|j: int| 0 <= j < spec_query(post.map, p, k).len() implies (
    #[trigger] spec_query(post.map, p, k)[j]).id != pre.ttl@[l].id by {
        assert(spec_query(post.map, p, k)[j] == post.map.node_hist(p)[j]);
    }
}

/// How one write changes the id counter: the minted id is the counter
/// before the write, and the counter grows by exactly one.
pub open spec fn minted(pre: Datastore, post: Datastore, id: int) -> bool {
    id == pre.next_id && post.next_id == pre.next_id + 1
}

/// Ids are strictly increasing across writes: of two writes in
/// sequence, the second mints the strictly larger id, however many
/// producers the writes come from, since all writes pass through the
/// one counter.
pub proof fn lemma_ids_strictly_increase(
    s0: Datastore,
    s1: Datastore,
    s2: Datastore,
    id1: int,
    id2: int,
)
    requires
        minted(s0, s1, id1),
        minted(s1, s2, id2),
    ensures
        id2 > id1,
{
}

} // verus!
