use vstd::prelude::*;

use crate::expiration::{
    exp_sorted, lemma_front_is_min, ExpirationEntry, ExpirationHeap, ExpirationModel,
};
use crate::item::{Item, ItemModel};
use crate::nestedmap::delete::first_id_idx;
use crate::nestedmap::insert::updated_hist;
use crate::nestedmap::{valid_write_path, NestedMap};
use crate::options::{spec_preserve, GetOptions, SetOptions};
use crate::paths::spec_split;

verus! {

/// Every version anywhere in the trie was stamped with an id below `b`.
pub open spec fn ids_bounded(m: NestedMap, b: int) -> bool {
    forall|p: Seq<Seq<char>>, l: int|
        0 <= l < m.node_hist(p).len() ==> (#[trigger] m.node_hist(p)[l]).id < b
}

/// Within each history, newer versions carry strictly larger ids; in
/// particular no id appears twice at one path.
pub open spec fn ids_decreasing(m: NestedMap) -> bool {
    forall|p: Seq<Seq<char>>, l1: int, l2: int|
        #![trigger m.node_hist(p)[l1], m.node_hist(p)[l2]]
        0 <= l1 < l2 < m.node_hist(p).len() ==> m.node_hist(p)[l1].id > m.node_hist(p)[l2].id
}

/// Every pending expiration record names a valid written path.
pub open spec fn heap_keys_valid(h: Seq<ExpirationModel>) -> bool {
    forall|l: int| 0 <= l < h.len() ==> valid_write_path(spec_split((#[trigger] h[l]).key))
}

/// Every pending expiration record was stamped below `b`.
pub open spec fn heap_ids_bounded(h: Seq<ExpirationModel>, b: int) -> bool {
    forall|l: int| 0 <= l < h.len() ==> (#[trigger] h[l]).id < b
}

/// The time-to-live a write asks for, in milliseconds; zero (and absent
/// options) means no expiration.
pub open spec fn spec_ttl(options: Option<SetOptions>) -> int {
    match options {
        Some(o) => o.ttl as int,
        None => 0,
    }
}

/// `a + b` clamped to the largest representable instant.
pub open spec fn spec_sat_add(a: u64, b: u64) -> u64 {
    if a + b <= u64::MAX {
        (a + b) as u64
    } else {
        u64::MAX
    }
}

pub(crate) fn sat_add(a: u64, b: u64) -> (r: u64)
    ensures
        r == spec_sat_add(a, b),
{
    if a <= u64::MAX - b {
        a + b
    } else {
        u64::MAX
    }
}

/// A history that does not carry `id` still does not carry it after any
/// removal.
pub proof fn lemma_absent_after_remove(h: Seq<ItemModel>, idx: int, x: int)
    requires
        first_id_idx(h, x) == -1,
        0 <= idx < h.len(),
    ensures
        first_id_idx(h.remove(idx), x) == -1,
{
    crate::nestedmap::delete::lemma_first_id_idx(h, x);
    let t = h.remove(idx);
    assert forall|l: int| 0 <= l < t.len() implies t[l].id != x by {
        if l < idx {
            assert(t[l] == h[l]);
        } else {
            assert(t[l] == h[l + 1]);
        }
    }
    crate::nestedmap::delete::lemma_first_id_idx_at(t, x, t.len() as int);
}

/// In a history with pairwise distinct ids, removing the version found
/// under `x` leaves no version carrying `x`.
pub proof fn lemma_remove_first_absent(h: Seq<ItemModel>, x: int)
    requires
        forall|l1: int, l2: int| 0 <= l1 < l2 < h.len() ==> (#[trigger] h[l1]).id != (
        #[trigger] h[l2]).id,
        first_id_idx(h, x) >= 0,
    ensures
        first_id_idx(h.remove(first_id_idx(h, x)), x) == -1,
{
    crate::nestedmap::delete::lemma_first_id_idx(h, x);
    let fi = first_id_idx(h, x);
    let t = h.remove(fi);
    assert forall|l: int| 0 <= l < t.len() implies t[l].id != x by {
        if l < fi {
            assert(t[l] == h[l]);
        } else {
            assert(t[l] == h[l + 1]);
            assert(h[fi].id != h[l + 1].id);
        }
    }
    crate::nestedmap::delete::lemma_first_id_idx_at(t, x, t.len() as int);
}

/// Removing one version from one history keeps every id bound and
/// keeps histories strictly ordered by id.
pub proof fn lemma_ids_preserved_after_remove(
    m_old: NestedMap,
    m_new: NestedMap,
    p0: Seq<Seq<char>>,
    idx: int,
    b: int,
)
    requires
        ids_bounded(m_old, b),
        ids_decreasing(m_old),
        0 <= idx < m_old.node_hist(p0).len(),
        m_new.node_hist(p0) == m_old.node_hist(p0).remove(idx),
        forall|q: Seq<Seq<char>>| q != p0 ==> m_new.node_hist(q) == m_old.node_hist(q),
    ensures
        ids_bounded(m_new, b),
        ids_decreasing(m_new),
{
    let h = m_old.node_hist(p0);
    let t = h.remove(idx);
    assert(forall|l: int| 0 <= l < idx ==> t[l] == h[l]);
    assert(forall|l: int| idx <= l < t.len() ==> t[l] == h[l + 1]);
    assert(ids_bounded(m_new, b)) by {
        assert forall|p: Seq<Seq<char>>, l: int|
            0 <= l < m_new.node_hist(p).len() implies (#[trigger] m_new.node_hist(p)[l]).id
            < b by {
            if p == p0 {
                if l < idx {
                    assert(m_new.node_hist(p)[l] == h[l]);
                } else {
                    assert(m_new.node_hist(p)[l] == h[l + 1]);
                }
            } else {
                assert(m_new.node_hist(p) == m_old.node_hist(p));
            }
        }
    }
    assert(ids_decreasing(m_new)) by {
        assert forall|p: Seq<Seq<char>>, l1: int, l2: int|
            #![trigger m_new.node_hist(p)[l1], m_new.node_hist(p)[l2]]
            0 <= l1 < l2 < m_new.node_hist(p).len() implies m_new.node_hist(p)[l1].id
            > m_new.node_hist(p)[l2].id by {
            if p == p0 {
                let a1: int = if l1 < idx {
                    l1
                } else {
                    l1 + 1
                };
                let a2: int = if l2 < idx {
                    l2
                } else {
                    l2 + 1
                };
                assert(m_new.node_hist(p)[l1] == h[a1]);
                assert(m_new.node_hist(p)[l2] == h[a2]);
                assert(h[a1].id > h[a2].id);
            } else {
                assert(m_new.node_hist(p) == m_old.node_hist(p));
            }
        }
    }
}

/// How a drain of due expirations relates the store before and after:
/// the first `n` queued records have fired (each deadline at or before
/// `now`), the rest are still pending and not yet due, every fired
/// record's version is gone from its path, and only fired paths
/// changed.
pub open spec fn expired_to(pre: Datastore, post: Datastore, now: u64, n: int) -> bool {
    &&& post.ttl@ == pre.ttl@.skip(n)
    &&& forall|l: int| 0 <= l < n ==> (#[trigger] pre.ttl@[l]).expires_at <= now
    &&& forall|l: int|
        n <= l < pre.ttl@.len() ==> (#[trigger] pre.ttl@[l]).expires_at > now
    &&& forall|l: int|
        0 <= l < n ==> first_id_idx(
            post.map.node_hist(spec_split((#[trigger] pre.ttl@[l]).key)),
            pre.ttl@[l].id,
        ) < 0
    &&& forall|q: Seq<Seq<char>>|
        (#[trigger] post.map.node_hist(q)) == pre.map.node_hist(q) || exists|l: int|
            0 <= l < n && q == spec_split((#[trigger] pre.ttl@[l]).key)
}

/// An internal event of the store's event loop: registering a pending
/// expiration, acting on a fired one, or a bare wake-up.
pub enum Event {
    TTLInsert(ExpirationEntry),
    TTLExpired(ExpirationEntry),
    Notify,
}

/// The state owned by the event loop: the trie, the pending
/// expirations, and the id counter, mutated by one task only.
pub struct Datastore {
    pub map: NestedMap,
    pub ttl: ExpirationHeap,
    pub next_id: i64,
}

impl Datastore {
    /// Soundness of the whole store: the trie and the queue are well
    /// formed, ids were minted monotonically, and every queued record
    /// names a usable path.
    pub open spec fn wf(self) -> bool {
        &&& self.map.node_wf()
        &&& self.ttl.wf()
        &&& self.next_id >= 0
        &&& ids_bounded(self.map, self.next_id as int)
        &&& ids_decreasing(self.map)
        &&& heap_keys_valid(self.ttl@)
        &&& heap_ids_bounded(self.ttl@, self.next_id as int)
    }

    /// An empty store whose leaves keep up to `max_history` versions.
    pub fn new(max_history: usize) -> (r: Datastore)
        requires
            max_history >= 1,
        ensures
            r.wf(),
            r.next_id == 0,
            r.map.max_history == max_history,
            forall|p: Seq<Seq<char>>| r.map.node_hist(p) == Seq::<ItemModel>::empty(),
            r.ttl@ == Seq::<ExpirationModel>::empty(),
    {
        let r = Datastore {
            map: NestedMap::new(max_history),
            ttl: ExpirationHeap::new(),
            next_id: 0,
        };
        r
    }

    /// Handles a write: mints the next id, stamps the record with `now`
    /// (milliseconds since the Unix epoch), registers an expiration when
    /// a positive time-to-live was asked for, and writes to the trie.
    /// The id minted is returned; ids grow by exactly one per write.
    pub fn set(&mut self, key: &str, value: &[u8], options: Option<SetOptions>, now: u64) -> (r:
        i64)
        requires
            old(self).wf(),
            valid_write_path(spec_split(key@)),
            old(self).next_id < i64::MAX,
        ensures
            final(self).wf(),
            r == old(self).next_id,
            final(self).next_id == old(self).next_id + 1,
            final(self).map.max_history == old(self).map.max_history,
            final(self).map.node_hist(spec_split(key@)) == updated_hist(
                old(self).map.node_hist(spec_split(key@)),
                ItemModel {
                    key: key@,
                    value: value@,
                    timestamp: now as int,
                    id: old(self).next_id as int,
                },
                spec_preserve(options),
                old(self).map.max_history as nat,
            ),
            forall|q: Seq<Seq<char>>|
                q != spec_split(key@) ==> final(self).map.node_hist(q) == old(self).map.node_hist(
                    q,
                ),
            spec_ttl(options) > 0 ==> exists|pos: int|
                0 <= pos <= old(self).ttl@.len() && final(self).ttl@ == #[trigger] old(
                    self,
                ).ttl@.insert(
                    pos,
                    (ExpirationModel {
                        id: old(self).next_id as int,
                        key: key@,
                        expires_at: spec_sat_add(now, spec_ttl(options) as u64) as int,
                    }),
                ),
            spec_ttl(options) == 0 ==> final(self).ttl@ == old(self).ttl@,
    {
        let ghost pre = *self;
        let ghost p0 = spec_split(key@);
        let id = self.next_id;
        self.next_id = self.next_id + 1;
        let ttl_ms: u64 = match &options {
            Some(o) => o.ttl,
            None => 0,
        };
        if ttl_ms > 0 {
            let entry = ExpirationEntry { id, key: key.to_owned(), expires_at: sat_add(now, ttl_ms) };
            self.ttl.push(entry);
        }
        let item = Item { key: key.to_owned(), value: vstd::slice::slice_to_vec(value), timestamp: now, id };
        let ghost it = item@;
        self.map.set(key, &item, options);
        proof {
            let post = *self;
            let b = pre.next_id as int;
            assert(it == ItemModel { key: key@, value: value@, timestamp: now as int, id: b });
            assert(ids_bounded(post.map, b + 1)) by {
                assert forall|p: Seq<Seq<char>>, l: int|
                    0 <= l < post.map.node_hist(p).len() implies (
                #[trigger] post.map.node_hist(p)[l]).id < b + 1 by {
                    if p == p0 {
                        let h = pre.map.node_hist(p0);
                        assert(post.map.node_hist(p0) == updated_hist(
                            h,
                            it,
                            spec_preserve(options),
                            pre.map.max_history as nat,
                        ));
                        if l > 0 {
                            if !spec_preserve(options) {
                                assert(post.map.node_hist(p)[l] == h[l]);
                            } else {
                                assert(post.map.node_hist(p)[l] == h[l - 1]);
                            }
                        }
                    } else {
                        assert(post.map.node_hist(p) == pre.map.node_hist(p));
                    }
                }
            }
            assert(ids_decreasing(post.map)) by {
                assert forall|p: Seq<Seq<char>>, l1: int, l2: int|
                    #![trigger post.map.node_hist(p)[l1], post.map.node_hist(p)[l2]]
                    0 <= l1 < l2 < post.map.node_hist(p).len() implies post.map.node_hist(
                    p,
                )[l1].id > post.map.node_hist(p)[l2].id by {
                    if p == p0 {
                        let h = pre.map.node_hist(p0);
                        if !spec_preserve(options) {
                            if l1 == 0 {
                                assert(post.map.node_hist(p)[l2] == h[l2]);
                                assert(h[l2].id < b);
                            } else {
                                assert(post.map.node_hist(p)[l1] == h[l1]);
                                assert(post.map.node_hist(p)[l2] == h[l2]);
                            }
                        } else {
                            if l1 == 0 {
                                assert(post.map.node_hist(p)[l2] == h[l2 - 1]);
                                assert(h[l2 - 1].id < b);
                            } else {
                                assert(post.map.node_hist(p)[l1] == h[l1 - 1]);
                                assert(post.map.node_hist(p)[l2] == h[l2 - 1]);
                            }
                        }
                    } else {
                        assert(post.map.node_hist(p) == pre.map.node_hist(p));
                    }
                }
            }
            if spec_ttl(options) > 0 {
                let pos = choose|pos: int|
                    0 <= pos <= pre.ttl@.len() && post.ttl@ == #[trigger] pre.ttl@.insert(
                        pos,
                        (ExpirationModel {
                            id: b,
                            key: key@,
                            expires_at: spec_sat_add(now, spec_ttl(options) as u64) as int,
                        }),
                    );
                assert(heap_keys_valid(post.ttl@)) by {
                    assert forall|l: int|
                        0 <= l < post.ttl@.len() implies valid_write_path(
                        spec_split((#[trigger] post.ttl@[l]).key),
                    ) by {
                        if l < pos {
                            assert(post.ttl@[l] == pre.ttl@[l]);
                        } else if l > pos {
                            assert(post.ttl@[l] == pre.ttl@[l - 1]);
                        }
                    }
                }
                assert(heap_ids_bounded(post.ttl@, b + 1)) by {
                    assert forall|l: int| 0 <= l < post.ttl@.len() implies (
                    #[trigger] post.ttl@[l]).id < b + 1 by {
                        if l < pos {
                            assert(post.ttl@[l] == pre.ttl@[l]);
                        } else if l > pos {
                            assert(post.ttl@[l] == pre.ttl@[l - 1]);
                        }
                    }
                }
            }
        }
        id
    }

    /// Reads the newest version at `key`.
    pub fn get(&self, key: &str) -> (r: Option<&Item>)
        ensures
            match r {
                Some(it) => self.map.node_hist(spec_split(key@)).len() > 0 && it@
                    == self.map.node_hist(spec_split(key@))[0],
                None => self.map.node_hist(spec_split(key@)).len() == 0,
            },
    {
        self.map.get(key)
    }

    /// Reads every version the pattern matches.
    pub fn query(&self, key: &str, options: Option<GetOptions>) -> (r: Vec<Item>)
        ensures
            r.deep_view() == crate::nestedmap::query::spec_query(
                self.map,
                spec_split(key@),
                crate::nestedmap::query::effective_history(options),
            ),
    {
        self.map.query(key, options)
    }

    /// What the event loop runs when the timer fires: pops every record
    /// whose deadline has passed and removes the version it names, then
    /// leaves the queue holding only records not yet due.
    pub fn expire_due(&mut self, now: u64)
        requires
            old(self).wf(),
        ensures
            final(self).wf(),
            final(self).next_id == old(self).next_id,
            final(self).map.max_history == old(self).map.max_history,
            exists|n: int|
                0 <= n <= old(self).ttl@.len() && #[trigger] expired_to(
                    *old(self),
                    *final(self),
                    now,
                    n,
                ),
    {
        let ghost pre = *self;
        let ghost h0 = pre.ttl@;
        let total = self.ttl.len();
        let mut n: usize = 0;
        let mut done = false;
        while !done
            invariant
                pre == *old(self),
                h0 == pre.ttl@,
                h0.len() == total,
                pre.wf(),
                self.wf(),
                self.next_id == pre.next_id,
                self.map.max_history == pre.map.max_history,
                0 <= n <= h0.len(),
                self.ttl@ == h0.skip(n as int),
                forall|l: int| 0 <= l < n ==> (#[trigger] h0[l]).expires_at <= now,
                forall|l: int|
                    0 <= l < n ==> first_id_idx(
                        self.map.node_hist(spec_split((#[trigger] h0[l]).key)),
                        h0[l].id,
                    ) < 0,
                forall|q: Seq<Seq<char>>|
                    (#[trigger] self.map.node_hist(q)) == pre.map.node_hist(q) || exists|l: int|
                        0 <= l < n && q == spec_split((#[trigger] h0[l]).key),
                done ==> (self.ttl@.len() == 0 || self.ttl@[0].expires_at > now),
            decreases
                    h0.len() - n,
                    (if done {
                        0int
                    } else {
                        1int
                    }),
        {
            let front_due = match self.ttl.peek() {
                Some(front) => front.expires_at <= now,
                None => false,
            };
            if !front_due {
                done = true;
            } else {
                let ghost mid = *self;
                let popped = self.ttl.pop();
                let e = match popped {
                    Some(e) => e,
                    None => unreached(),
                };
                proof {
                    assert(e@ == h0.skip(n as int)[0]);
                    assert(h0.skip(n as int)[0] == h0[n as int]);
                    assert(self.ttl@ =~= h0.skip(n as int + 1));
                    assert(valid_write_path(spec_split(e@.key)));
                }
                let ghost map_before = self.map;
                let ghost p0 = spec_split(e.key@);
                let _ = self.map.delete_by_id(e.key.as_str(), e.id);
                proof {
                    let hb = map_before.node_hist(p0);
                    let fi = first_id_idx(hb, e.id as int);
                    if fi >= 0 {
                        assert forall|l1: int, l2: int|
                            0 <= l1 < l2 < hb.len() implies (#[trigger] hb[l1]).id != (
                        #[trigger] hb[l2]).id by {
                            assert(hb[l1].id > hb[l2].id);
                        }
                        lemma_remove_first_absent(hb, e.id as int);
                        crate::nestedmap::delete::lemma_first_id_idx(hb, e.id as int);
                        lemma_ids_preserved_after_remove(
                            map_before,
                            self.map,
                            p0,
                            fi,
                            pre.next_id as int,
                        );
                    } else {
                        assert(self.map.node_hist(p0) == hb);
                        assert forall|q: Seq<Seq<char>>| self.map.node_hist(q)
                            == map_before.node_hist(q) by {}
                    }
                    // Earlier fired ids stay absent.
                    assert forall|l: int| 0 <= l < n + 1 implies first_id_idx(
                        self.map.node_hist(spec_split((#[trigger] h0[l]).key)),
                        h0[l].id,
                    ) < 0 by {
                        if l < n {
                            let pl = spec_split(h0[l].key);
                            if pl == p0 && fi >= 0 {
                                lemma_absent_after_remove(hb, fi, h0[l].id);
                            } else {
                                assert(self.map.node_hist(pl) == map_before.node_hist(pl));
                            }
                        } else {
                            assert(h0[l].key == e@.key);
                        }
                    }
                    assert forall|q: Seq<Seq<char>>|
                        (#[trigger] self.map.node_hist(q)) == pre.map.node_hist(q) || exists|
                            l: int,
                        |
                            0 <= l < n + 1 && q == spec_split((#[trigger] h0[l]).key) by {
                        if self.map.node_hist(q) != pre.map.node_hist(q) {
                            if q == p0 {
                                assert(0 <= n < n + 1 && q == spec_split(h0[n as int].key));
                            } else {
                                assert(self.map.node_hist(q) == map_before.node_hist(q));
                                let lw = choose|l: int|
                                    0 <= l < n && q == spec_split((#[trigger] h0[l]).key);
                                assert(0 <= lw < n + 1 && q == spec_split(h0[lw].key));
                            }
                        }
                    }
                    // The rest of the queue is still well formed.
                    assert(exp_sorted(self.ttl@)) by {
                        assert forall|i: int, j: int|
                            0 <= i < j < self.ttl@.len() implies crate::expiration::exp_le(
                            #[trigger] self.ttl@[i],
                            #[trigger] self.ttl@[j],
                        ) by {
                            assert(self.ttl@[i] == h0[n + 1 + i]);
                            assert(self.ttl@[j] == h0[n + 1 + j]);
                        }
                    }
                    assert(heap_keys_valid(self.ttl@)) by {
                        assert forall|l: int| 0 <= l < self.ttl@.len() implies valid_write_path(
                            spec_split((#[trigger] self.ttl@[l]).key),
                        ) by {
                            assert(self.ttl@[l] == h0[n + 1 + l]);
                        }
                    }
                    assert(heap_ids_bounded(self.ttl@, self.next_id as int)) by {
                        assert forall|l: int| 0 <= l < self.ttl@.len() implies (
                        #[trigger] self.ttl@[l]).id < self.next_id by {
                            assert(self.ttl@[l] == h0[n + 1 + l]);
                        }
                    }
                }
                n = n + 1;
            }
        }
        proof {
            assert forall|l: int| n <= l < h0.len() implies (#[trigger] h0[l]).expires_at
                > now by {
                assert(self.ttl@.len() == h0.len() - n);
                assert(self.ttl@[l - n] == h0[l]);
                if self.ttl@.len() > 0 {
                    lemma_front_is_min(self.ttl);
                    assert(self.ttl@[0].expires_at <= self.ttl@[l - n].expires_at);
                }
            }
            assert(expired_to(pre, *self, now, n as int));
        }
    }

    /// Dispatches one internal event against the owned state, as the
    /// event loop does between timer fires.
    pub fn handle_event(&mut self, ev: Event)
        requires
            old(self).wf(),
            match ev {
                Event::TTLInsert(e) => valid_write_path(spec_split(e.key@)) && e.id < old(
                    self,
                ).next_id,
                Event::TTLExpired(e) => valid_write_path(spec_split(e.key@)),
                Event::Notify => true,
            },
        ensures
            final(self).wf(),
            final(self).next_id == old(self).next_id,
            match ev {
                Event::TTLInsert(e) => final(self).map == old(self).map && exists|pos: int|
                    0 <= pos <= old(self).ttl@.len() && final(self).ttl@ == #[trigger] old(
                        self,
                    ).ttl@.insert(pos, e@),
                Event::TTLExpired(e) => final(self).ttl@ == old(self).ttl@ && (first_id_idx(
                    old(self).map.node_hist(spec_split(e.key@)),
                    e.id as int,
                ) >= 0 ==> final(self).map.node_hist(spec_split(e.key@)) == old(
                    self,
                ).map.node_hist(spec_split(e.key@)).remove(
                    first_id_idx(old(self).map.node_hist(spec_split(e.key@)), e.id as int),
                )) && (first_id_idx(old(self).map.node_hist(spec_split(e.key@)), e.id as int) < 0
                    ==> final(self).map.node_hist(spec_split(e.key@)) == old(self).map.node_hist(
                    spec_split(e.key@),
                )) && (forall|q: Seq<Seq<char>>|
                    q != spec_split(e.key@) ==> final(self).map.node_hist(q) == old(
                        self,
                    ).map.node_hist(q)),
                Event::Notify => *final(self) == *old(self),
            },
    {
        let ghost pre = *self;
        match ev {
            Event::TTLInsert(e) => {
                let ghost em = e@;
                self.ttl.push(e);
                proof {
                    let post = *self;
                    let pos = choose|pos: int|
                        0 <= pos <= pre.ttl@.len() && post.ttl@ == #[trigger] pre.ttl@.insert(
                            pos,
                            em,
                        );
                    assert(heap_keys_valid(post.ttl@)) by {
                        assert forall|l: int|
                            0 <= l < post.ttl@.len() implies valid_write_path(
                            spec_split((#[trigger] post.ttl@[l]).key),
                        ) by {
                            if l < pos {
                                assert(post.ttl@[l] == pre.ttl@[l]);
                            } else if l > pos {
                                assert(post.ttl@[l] == pre.ttl@[l - 1]);
                            }
                        }
                    }
                    assert(heap_ids_bounded(post.ttl@, post.next_id as int)) by {
                        assert forall|l: int| 0 <= l < post.ttl@.len() implies (
                        #[trigger] post.ttl@[l]).id < post.next_id by {
                            if l < pos {
                                assert(post.ttl@[l] == pre.ttl@[l]);
                            } else if l > pos {
                                assert(post.ttl@[l] == pre.ttl@[l - 1]);
                            }
                        }
                    }
                }
            },
            Event::TTLExpired(e) => {
                let ghost p0 = spec_split(e.key@);
                let ghost hb = pre.map.node_hist(p0);
                let _ = self.map.delete_by_id(e.key.as_str(), e.id);
                proof {
                    let fi = first_id_idx(hb, e.id as int);
                    if fi >= 0 {
                        crate::nestedmap::delete::lemma_first_id_idx(hb, e.id as int);
                        lemma_ids_preserved_after_remove(
                            pre.map,
                            self.map,
                            p0,
                            fi,
                            pre.next_id as int,
                        );
                    } else {
                        assert forall|q: Seq<Seq<char>>| self.map.node_hist(q)
                            == pre.map.node_hist(q) by {}
                    }
                }
            },
            Event::Notify => {},
        }
    }

    /// When the rearmable timer should next fire: the earliest pending
    /// deadline, or nothing when no expiration is pending.
    pub fn next_deadline(&self) -> (r: Option<u64>)
        ensures
            match r {
                Some(d) => self.ttl@.len() > 0 && d == self.ttl@[0].expires_at,
                None => self.ttl@.len() == 0,
            },
    {
        match self.ttl.peek() {
            Some(e) => Some(e.expires_at),
            None => None,
        }
    }
}

} // verus!
