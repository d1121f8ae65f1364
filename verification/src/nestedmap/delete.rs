use vstd::prelude::*;

use crate::item::ItemModel;
use crate::nestedmap::get::find_idx;
use crate::nestedmap::insert::lemma_idx_of_same_keys;
use crate::nestedmap::{
    idx_of, lemma_idx_of, lemma_idx_of_at, marker_seq, marker_string, valid_write_path, Entry,
    NestedMap, NestedValue,
};
use crate::paths::{spec_split, split_path};

verus! {

/// `p` is an initial run of `q`.
pub open spec fn seq_is_prefix(p: Seq<Seq<char>>, q: Seq<Seq<char>>) -> bool {
    p.len() <= q.len() && q.subrange(0, p.len() as int) == p
}

/// The value bound at the end of a non-empty `path` below `m`, if the
/// walk stays inside the trie.
pub open spec fn lookup_val(m: NestedMap, path: Seq<Seq<char>>) -> Option<NestedValue>
    decreases m, path.len(),
{
    if path.len() == 0 {
        None
    } else {
        let i = idx_of(m.data@, path[0]);
        if 0 <= i < m.data@.len() {
            if path.len() == 1 {
                Some(m.data@[i].val)
            } else {
                match m.data@[i].val {
                    NestedValue::Node(c) => lookup_val(c, path.drop_first()),
                    NestedValue::Items(_) => None,
                }
            }
        } else {
            None
        }
    }
}

/// A path whose history is non-empty is present in the trie: removing
/// it removes something.
pub proof fn lemma_hist_nonempty_implies_present(m: NestedMap, p: Seq<Seq<char>>)
    requires
        p.len() > 0,
        m.node_hist(p).len() > 0,
    ensures
        lookup_val(m, p) is Some,
    decreases p.len(),
{
    let i = idx_of(m.data@, p[0]);
    if p.len() == 1 {
    } else {
        match m.data@[i].val {
            NestedValue::Node(c) => {
                lemma_hist_nonempty_implies_present(c, p.drop_first());
            },
            NestedValue::Items(_) => {},
        }
    }
}

/// Position of the newest version carrying `id`, or `-1`.
pub open spec fn first_id_idx(h: Seq<ItemModel>, id: int) -> int
    decreases h.len(),
{
    if h.len() == 0 {
        -1
    } else if h[0].id == id {
        0
    } else if first_id_idx(h.drop_first(), id) < 0 {
        -1
    } else {
        1 + first_id_idx(h.drop_first(), id)
    }
}

pub proof fn lemma_first_id_idx(h: Seq<ItemModel>, id: int)
    ensures
        -1 <= first_id_idx(h, id) < h.len(),
        first_id_idx(h, id) >= 0 ==> h[first_id_idx(h, id)].id == id,
        forall|j: int| 0 <= j < first_id_idx(h, id) ==> h[j].id != id,
        first_id_idx(h, id) == -1 ==> forall|j: int| 0 <= j < h.len() ==> h[j].id != id,
    decreases h.len(),
{
    if h.len() != 0 && h[0].id != id {
        lemma_first_id_idx(h.drop_first(), id);
        assert forall|j: int| 0 <= j < first_id_idx(h, id) implies h[j].id != id by {
            if j > 0 {
                assert(h.drop_first()[j - 1].id != id);
            }
        }
        if first_id_idx(h, id) == -1 {
            assert forall|j: int| 0 <= j < h.len() implies h[j].id != id by {
                if j > 0 {
                    assert(h.drop_first()[j - 1].id != id);
                }
            }
        }
    }
}

pub proof fn lemma_first_id_idx_at(h: Seq<ItemModel>, id: int, j: int)
    requires
        0 <= j <= h.len(),
        forall|jj: int| 0 <= jj < j ==> h[jj].id != id,
        j < h.len() ==> h[j].id == id,
    ensures
        j < h.len() ==> first_id_idx(h, id) == j,
        j == h.len() ==> first_id_idx(h, id) == -1,
    decreases h.len(),
{
    if h.len() != 0 && h[0].id != id {
        assert(forall|jj: int| 0 <= jj < j - 1 ==> h.drop_first()[jj].id != id);
        lemma_first_id_idx_at(h.drop_first(), id, j - 1);
    }
}

/// Removing the binding at `j` from a node with distinct segments: the
/// removed segment no longer resolves, every other one resolves to the
/// same value as before.
pub proof fn lemma_idx_of_remove(s: Seq<Entry>, j: int, k: Seq<char>)
    requires
        0 <= j < s.len(),
        forall|a: int, b: int|
            0 <= a < b < s.len() ==> (#[trigger] s[a]).key@ != (#[trigger] s[b]).key@,
    ensures
        k == s[j].key@ ==> idx_of(s.remove(j), k) == -1,
        k != s[j].key@ && idx_of(s, k) == -1 ==> idx_of(s.remove(j), k) == -1,
        k != s[j].key@ && 0 <= idx_of(s, k) < j ==> idx_of(s.remove(j), k) == idx_of(s, k)
            && s.remove(j)[idx_of(s, k)] == s[idx_of(s, k)],
        k != s[j].key@ && j < idx_of(s, k) < s.len() ==> idx_of(s.remove(j), k) == idx_of(s, k) - 1
            && s.remove(j)[idx_of(s, k) - 1] == s[idx_of(s, k)],
{
    let t = s.remove(j);
    lemma_idx_of(s, k);
    assert(forall|l: int| 0 <= l < j ==> t[l] == s[l]);
    assert(forall|l: int| j <= l < t.len() ==> t[l] == s[l + 1]);
    if k == s[j].key@ {
        assert forall|l: int| 0 <= l < t.len() implies t[l].key@ != k by {
            if l < j {
                assert(s[l].key@ != s[j].key@);
            } else {
                assert(s[l + 1].key@ != s[j].key@);
            }
        }
        lemma_idx_of_at(t, k, t.len() as int);
    } else {
        let i0 = idx_of(s, k);
        if i0 == -1 {
            assert forall|l: int| 0 <= l < t.len() implies t[l].key@ != k by {}
            lemma_idx_of_at(t, k, t.len() as int);
        } else if i0 < j {
            lemma_idx_of_at(t, k, i0);
        } else {
            assert(i0 != j);
            assert forall|l: int| 0 <= l < i0 - 1 implies t[l].key@ != k by {}
            lemma_idx_of_at(t, k, i0 - 1);
        }
    }
}

/// Replacing the child node bound to `head` changes exactly the
/// histories below `head`, and those exactly as the child's change.
pub proof fn lemma_update_child_frame(
    pre: NestedMap,
    post: NestedMap,
    j: int,
    c_old: NestedMap,
    c_new: NestedMap,
    head: Seq<char>,
    rest: Seq<Seq<char>>,
)
    requires
        pre.node_wf(),
        0 <= j < pre.data@.len(),
        idx_of(pre.data@, head) == j,
        pre.data@[j].val == NestedValue::Node(c_old),
        post.data@ == pre.data@.update(
            j,
            Entry { key: pre.data@[j].key, val: NestedValue::Node(c_new) },
        ),
        post.max_history == pre.max_history,
        c_new.node_wf(),
        c_new.max_history == c_old.max_history,
        forall|q2: Seq<Seq<char>>| q2 != rest ==> c_new.node_hist(q2) == c_old.node_hist(q2),
    ensures
        post.node_wf(),
        post.node_hist(seq![head] + rest) == c_new.node_hist(rest),
        pre.node_hist(seq![head] + rest) == c_old.node_hist(rest),
        forall|q: Seq<Seq<char>>|
            q != seq![head] + rest ==> post.node_hist(q) == pre.node_hist(q),
{
    let suffix = seq![head] + rest;
    lemma_idx_of(pre.data@, head);
    assert(pre.data@[j].key@ == head);
    assert(forall|l: int| 0 <= l < pre.data@.len() ==> post.data@[l].key@ == pre.data@[l].key@);
    assert(suffix[0] == head);
    assert(suffix.drop_first() =~= rest);
    assert(post.node_hist(suffix) == c_new.node_hist(rest)) by {
        lemma_idx_of_same_keys(pre.data@, post.data@, head);
    }
    assert(post.node_wf()) by {
        assert forall|l: int|
            0 <= l < post.data@.len() implies match (#[trigger] post.data@[l]).val {
            NestedValue::Items(its) => post.data@[l].key@ == marker_seq() && its.deep_view().len()
                <= post.max_history,
            NestedValue::Node(cc) => post.data@[l].key@ != marker_seq() && cc.node_wf()
                && cc.max_history == post.max_history,
        } by {
            if l != j {
                assert(post.data@[l] == pre.data@[l]);
            }
        }
    }
    assert forall|q: Seq<Seq<char>>| q != suffix implies post.node_hist(q) == pre.node_hist(
        q,
    ) by {
        if q.len() == 0 {
            lemma_idx_of_same_keys(pre.data@, post.data@, marker_seq());
            lemma_idx_of(pre.data@, marker_seq());
            let im = idx_of(pre.data@, marker_seq());
            if 0 <= im < pre.data@.len() {
                assert(im != j);
                assert(post.data@[im] == pre.data@[im]);
            }
        } else {
            lemma_idx_of_same_keys(pre.data@, post.data@, q[0]);
            lemma_idx_of(pre.data@, q[0]);
            let iq = idx_of(pre.data@, q[0]);
            if 0 <= iq < pre.data@.len() {
                if iq == j {
                    assert(q[0] == head);
                    if q.drop_first() == rest {
                        assert(q.len() == suffix.len());
                        assert forall|l: int| 0 <= l < q.len() implies q[l] == suffix[l] by {
                            if l > 0 {
                                assert(q[l] == q.drop_first()[l - 1]);
                                assert(suffix[l] == suffix.drop_first()[l - 1]);
                            }
                        }
                        assert(q =~= suffix);
                        assert(false);
                    }
                    assert(c_new.node_hist(q.drop_first()) == c_old.node_hist(q.drop_first()));
                } else {
                    assert(post.data@[iq] == pre.data@[iq]);
                }
            }
        }
    }
}

impl NestedMap {
    /// Removes the whole subtree rooted at the path `segs[i..]`.
    pub(crate) fn delete_rec(&mut self, segs: &Vec<String>, i: usize) -> (r: bool)
        requires
            old(self).node_wf(),
            i < segs@.len(),
            forall|j: int| i <= j < segs@.len() ==> segs.deep_view()[j] != marker_seq(),
        ensures
            final(self).node_wf(),
            final(self).max_history == old(self).max_history,
            r == (lookup_val(*old(self), segs.deep_view().skip(i as int)) is Some),
            forall|q: Seq<Seq<char>>|
                seq_is_prefix(segs.deep_view().skip(i as int), q) ==> final(self).node_hist(q)
                    == Seq::<ItemModel>::empty(),
            forall|q: Seq<Seq<char>>|
                !seq_is_prefix(segs.deep_view().skip(i as int), q) ==> final(self).node_hist(q)
                    == old(self).node_hist(q),
        decreases segs@.len() - i,
    {
        let ghost dv = segs.deep_view();
        let ghost pre = *self;
        let ghost suffix = dv.skip(i as int);
        proof {
            assert(suffix.len() > 0);
            assert(suffix[0] == dv[i as int]);
            assert(dv[i as int] == segs@[i as int]@);
            assert(dv[i as int] != marker_seq());
        }
        let j_opt = find_idx(&self.data, &segs[i]);
        let j: usize;
        match j_opt {
            Some(jj) => {
                j = jj;
            },
            None => {
                proof {
                    assert forall|q: Seq<Seq<char>>| seq_is_prefix(suffix, q) implies pre.node_hist(
                        q,
                    ) == Seq::<ItemModel>::empty() by {
                        assert(q.len() > 0 && q[0] == suffix[0]);
                    }
                }
                return false;
            },
        }
        proof {
            lemma_idx_of(pre.data@, dv[i as int]);
            assert(pre.data@[j as int].key@ == dv[i as int]);
            assert(pre.data@[j as int].val is Node);
        }
        let n = segs.len();
        if i == n - 1 {
            // Remove the subtree for the final segment.
            let _ = self.data.remove(j);
            proof {
                let post = *self;
                assert(post.data@ == pre.data@.remove(j as int));
                assert(suffix =~= seq![dv[i as int]]);
                assert(lookup_val(pre, suffix) is Some);
                assert(post.node_wf()) by {
                    assert(forall|l: int| 0 <= l < j ==> post.data@[l] == pre.data@[l]);
                    assert(forall|l: int|
                        j <= l < post.data@.len() ==> post.data@[l] == pre.data@[l + 1]);
                    assert forall|l: int|
                        0 <= l < post.data@.len() implies match (#[trigger] post.data@[l]).val {
                        NestedValue::Items(its) => post.data@[l].key@ == marker_seq()
                            && its.deep_view().len() <= post.max_history,
                        NestedValue::Node(c) => post.data@[l].key@ != marker_seq() && c.node_wf()
                            && c.max_history == post.max_history,
                    } by {
                        if l < j {
                            assert(post.data@[l] == pre.data@[l]);
                        } else {
                            assert(post.data@[l] == pre.data@[l + 1]);
                        }
                    }
                }
                assert forall|q: Seq<Seq<char>>| seq_is_prefix(suffix, q) implies post.node_hist(q)
                    == Seq::<ItemModel>::empty() by {
                    assert(q.len() > 0 && q[0] == dv[i as int]);
                    lemma_idx_of_remove(pre.data@, j as int, q[0]);
                }
                assert forall|q: Seq<Seq<char>>| !seq_is_prefix(suffix, q) implies post.node_hist(
                    q,
                ) == pre.node_hist(q) by {
                    if q.len() == 0 {
                        lemma_idx_of_remove(pre.data@, j as int, marker_seq());
                        lemma_idx_of(pre.data@, marker_seq());
                    } else {
                        assert(q[0] != dv[i as int]) by {
                            if q[0] == dv[i as int] {
                                assert(q.subrange(0, 1) =~= suffix);
                            }
                        }
                        lemma_idx_of_remove(pre.data@, j as int, q[0]);
                        lemma_idx_of(pre.data@, q[0]);
                    }
                }
            }
            return true;
        }
        let ghost suffix1 = dv.skip(i as int + 1);
        proof {
            assert(suffix.drop_first() =~= suffix1);
        }
        let e = self.data.remove(j);
        let ghost e_g = e;
        let key = e.key;
        match e.val {
            NestedValue::Node(mut c) => {
                let ghost c_old = c;
                let r = c.delete_rec(segs, i + 1);
                let e2 = Entry { key, val: NestedValue::Node(c) };
                self.data.insert(j, e2);
                proof {
                    let post = *self;
                    let c_new = c;
                    assert(e_g == pre.data@[j as int]);
                    assert(post.data@ =~= pre.data@.update(j as int, post.data@[j as int]));
                    assert(post.data@[j as int].key@ == dv[i as int]);
                    assert(post.data@[j as int].val == NestedValue::Node(c_new));
                    assert(forall|l: int|
                        0 <= l < pre.data@.len() ==> post.data@[l].key@ == pre.data@[l].key@);
                    assert(r == (lookup_val(pre, suffix) is Some));
                    assert(post.node_wf()) by {
                        assert forall|l: int|
                            0 <= l < post.data@.len() implies match (#[trigger] post.data@[l]).val {
                            NestedValue::Items(its) => post.data@[l].key@ == marker_seq()
                                && its.deep_view().len() <= post.max_history,
                            NestedValue::Node(cc) => post.data@[l].key@ != marker_seq()
                                && cc.node_wf() && cc.max_history == post.max_history,
                        } by {
                            if l != j {
                                assert(post.data@[l] == pre.data@[l]);
                            }
                        }
                    }
                    assert forall|q: Seq<Seq<char>>| seq_is_prefix(suffix, q) implies post.node_hist(
                        q,
                    ) == Seq::<ItemModel>::empty() by {
                        assert(q.subrange(0, suffix.len() as int)[0] == q[0]);
                        assert(q.len() > 0 && q[0] == dv[i as int]);
                        lemma_idx_of_same_keys(pre.data@, post.data@, q[0]);
                        assert(seq_is_prefix(suffix1, q.drop_first())) by {
                            assert(q.drop_first().subrange(0, suffix1.len() as int) =~= q.subrange(
                                0,
                                suffix.len() as int,
                            ).drop_first());
                        }
                        assert(idx_of(post.data@, q[0]) == j);
                        assert(post.node_hist(q) == c_new.node_hist(q.drop_first()));
                        assert(c_new.node_hist(q.drop_first()) == Seq::<ItemModel>::empty());
                    }
                    assert forall|q: Seq<Seq<char>>|
                        !seq_is_prefix(suffix, q) implies post.node_hist(q) == pre.node_hist(
                        q,
                    ) by {
                        if q.len() == 0 {
                            lemma_idx_of_same_keys(pre.data@, post.data@, marker_seq());
                            lemma_idx_of(pre.data@, marker_seq());
                            let im = idx_of(pre.data@, marker_seq());
                            if 0 <= im < pre.data@.len() {
                                assert(im != j);
                                assert(post.data@[im] == pre.data@[im]);
                            }
                        } else {
                            lemma_idx_of_same_keys(pre.data@, post.data@, q[0]);
                            lemma_idx_of(pre.data@, q[0]);
                            let iq = idx_of(pre.data@, q[0]);
                            if 0 <= iq < pre.data@.len() {
                                if iq == j {
                                    assert(q[0] == dv[i as int]);
                                    assert(!seq_is_prefix(suffix1, q.drop_first())) by {
                                        if seq_is_prefix(suffix1, q.drop_first()) {
                                            assert forall|l: int|
                                                0 <= l < suffix.len() implies q.subrange(
                                                0,
                                                suffix.len() as int,
                                            )[l] == suffix[l] by {
                                                if l > 0 {
                                                    assert(q.drop_first().subrange(
                                                        0,
                                                        suffix1.len() as int,
                                                    )[l - 1] == suffix1[l - 1]);
                                                    assert(q.drop_first()[l - 1] == q[l]);
                                                }
                                            }
                                            assert(q.subrange(0, suffix.len() as int)
                                                =~= suffix);
                                        }
                                    }
                                    assert(c_new.node_hist(q.drop_first()) == c_old.node_hist(
                                        q.drop_first(),
                                    ));
                                } else {
                                    assert(post.data@[iq] == pre.data@[iq]);
                                }
                            }
                        }
                    }
                }
                r
            },
            NestedValue::Items(its) => {
                proof {
                    assert(e_g == pre.data@[j as int]);
                    assert(false);
                }
                self.data.insert(j, Entry { key, val: NestedValue::Items(its) });
                false
            },
        }
    }

    /// Removes the version at `index` from this node's own history.
    pub(crate) fn remove_at_index_here(&mut self, index: usize) -> (r: bool)
        requires
            old(self).node_wf(),
        ensures
            final(self).node_wf(),
            final(self).max_history == old(self).max_history,
            r == (index < old(self).own_hist().len()),
            r ==> final(self).own_hist() == old(self).own_hist().remove(index as int),
            !r ==> final(self).own_hist() == old(self).own_hist(),
            forall|q: Seq<Seq<char>>|
                q.len() > 0 ==> final(self).node_hist(q) == old(self).node_hist(q),
    {
        let ghost pre = *self;
        let mk = marker_string();
        let in_range = match crate::nestedmap::get::find_entry(&self.data, &mk) {
            Some(e) => match &e.val {
                NestedValue::Items(items) => index < items.len(),
                NestedValue::Node(_) => false,
            },
            None => false,
        };
        if !in_range {
            proof {
                lemma_idx_of(pre.data@, marker_seq());
            }
            return false;
        }
        let j = match find_idx(&self.data, &mk) {
            Some(j) => j,
            None => unreached(),
        };
        let e = self.data.remove(j);
        let ghost e_g = e;
        let key = e.key;
        match e.val {
            NestedValue::Items(mut items) => {
                let ghost h0 = items.deep_view();
                proof {
                    assert(e_g == pre.data@[j as int]);
                    assert(h0 == pre.own_hist());
                }
                let _ = items.remove(index);
                proof {
                    assert(items.deep_view() =~= h0.remove(index as int));
                }
                if items.len() == 0 {
                    proof {
                        let post = *self;
                        assert(post.data@ == pre.data@.remove(j as int));
                        assert(post.node_wf()) by {
                            assert forall|l: int|
                                0 <= l < post.data@.len() implies match (
                            #[trigger] post.data@[l]).val {
                                NestedValue::Items(its) => post.data@[l].key@ == marker_seq()
                                    && its.deep_view().len() <= post.max_history,
                                NestedValue::Node(c) => post.data@[l].key@ != marker_seq()
                                    && c.node_wf() && c.max_history == post.max_history,
                            } by {
                                if l < j {
                                    assert(post.data@[l] == pre.data@[l]);
                                } else {
                                    assert(post.data@[l] == pre.data@[l + 1]);
                                }
                            }
                        }
                        lemma_idx_of_remove(pre.data@, j as int, marker_seq());
                        assert(post.own_hist() =~= h0.remove(index as int));
                        assert forall|q: Seq<Seq<char>>| q.len() > 0 implies post.node_hist(q)
                            == pre.node_hist(q) by {
                            lemma_idx_of_remove(pre.data@, j as int, q[0]);
                            lemma_idx_of(pre.data@, q[0]);
                            if q[0] == marker_seq() {
                                assert(post.node_hist(q).len() == 0);
                                assert(pre.node_hist(q).len() == 0);
                                assert(post.node_hist(q) =~= pre.node_hist(q));
                            }
                        }
                    }
                } else {
                    let e2 = Entry { key, val: NestedValue::Items(items) };
                    self.data.insert(j, e2);
                    proof {
                        let post = *self;
                        assert(post.data@ =~= pre.data@.update(j as int, post.data@[j as int]));
                        assert(post.data@[j as int].key@ == marker_seq());
                        assert(forall|l: int|
                            0 <= l < pre.data@.len() ==> post.data@[l].key@ == pre.data@[l].key@);
                        assert(post.own_hist() == h0.remove(index as int)) by {
                            lemma_idx_of_same_keys(pre.data@, post.data@, marker_seq());
                        }
                        assert(post.node_wf()) by {
                            assert forall|l: int|
                                0 <= l < post.data@.len() implies match (
                            #[trigger] post.data@[l]).val {
                                NestedValue::Items(its) => post.data@[l].key@ == marker_seq()
                                    && its.deep_view().len() <= post.max_history,
                                NestedValue::Node(c) => post.data@[l].key@ != marker_seq()
                                    && c.node_wf() && c.max_history == post.max_history,
                            } by {
                                if l != j {
                                    assert(post.data@[l] == pre.data@[l]);
                                }
                            }
                        }
                        assert forall|q: Seq<Seq<char>>| q.len() > 0 implies post.node_hist(q)
                            == pre.node_hist(q) by {
                            lemma_idx_of_same_keys(pre.data@, post.data@, q[0]);
                            lemma_idx_of(pre.data@, q[0]);
                            let iq = idx_of(pre.data@, q[0]);
                            if 0 <= iq < pre.data@.len() && iq != j {
                                assert(post.data@[iq] == pre.data@[iq]);
                            }
                        }
                    }
                }
                true
            },
            NestedValue::Node(n) => {
                proof {
                    assert(e_g == pre.data@[j as int]);
                    lemma_idx_of(pre.data@, marker_seq());
                    assert(false);
                }
                self.data.insert(j, Entry { key, val: NestedValue::Node(n) });
                false
            },
        }
    }

    /// Removes the version carrying `id` from this node's own history.
    pub(crate) fn remove_id_here(&mut self, id: i64) -> (r: bool)
        requires
            old(self).node_wf(),
        ensures
            final(self).node_wf(),
            final(self).max_history == old(self).max_history,
            r == (first_id_idx(old(self).own_hist(), id as int) >= 0),
            r ==> final(self).own_hist() == old(self).own_hist().remove(
                first_id_idx(old(self).own_hist(), id as int),
            ),
            !r ==> final(self).own_hist() == old(self).own_hist(),
            forall|q: Seq<Seq<char>>|
                q.len() > 0 ==> final(self).node_hist(q) == old(self).node_hist(q),
    {
        let ghost pre = *self;
        let mk = marker_string();
        let mut found: Option<usize> = None;
        match crate::nestedmap::get::find_entry(&self.data, &mk) {
            Some(e) => match &e.val {
                NestedValue::Items(items) => {
                    let ghost h0 = items.deep_view();
                    proof {
                        assert(h0 == pre.own_hist());
                    }
                    let mut l: usize = 0;
                    let mut li_opt: Option<usize> = None;
                    while l < items.len() && li_opt.is_none()
                        invariant
                            0 <= l <= items@.len(),
                            h0 == items.deep_view(),
                            h0 == pre.own_hist(),
                            match li_opt {
                                None => forall|jj: int| 0 <= jj < l ==> h0[jj].id != id,
                                Some(x) => x == l && l < h0.len() && first_id_idx(h0, id as int)
                                    == l,
                            },
                        decreases
                                items@.len() - l,
                                (if li_opt is None {
                                    1int
                                } else {
                                    0int
                                }),
                    {
                        if items[l].id == id {
                            proof {
                                lemma_first_id_idx_at(h0, id as int, l as int);
                            }
                            li_opt = Some(l);
                        } else {
                            l = l + 1;
                        }
                    }
                    proof {
                        if li_opt is None {
                            lemma_first_id_idx_at(h0, id as int, h0.len() as int);
                        }
                    }
                    found = li_opt;
                },
                NestedValue::Node(_) => {
                    proof {
                        lemma_idx_of(pre.data@, marker_seq());
                        assert(false);
                    }
                },
            },
            None => {
                proof {
                    lemma_idx_of(pre.data@, marker_seq());
                }
            },
        }
        let li = match found {
            Some(li) => li,
            None => {
                return false;
            },
        };
        let removed = self.remove_at_index_here(li);
        proof {
            assert(removed);
        }
        true
    }

    /// Removes the version at `index` from the history at `segs[i..]`.
    pub(crate) fn del_at_index_rec(&mut self, segs: &Vec<String>, i: usize, index: usize) -> (r:
        bool)
        requires
            old(self).node_wf(),
            i <= segs@.len(),
            forall|j: int| i <= j < segs@.len() ==> segs.deep_view()[j] != marker_seq(),
        ensures
            final(self).node_wf(),
            final(self).max_history == old(self).max_history,
            r == (index < old(self).node_hist(segs.deep_view().skip(i as int)).len()),
            r ==> final(self).node_hist(segs.deep_view().skip(i as int)) == old(self).node_hist(
                segs.deep_view().skip(i as int),
            ).remove(index as int),
            !r ==> final(self).node_hist(segs.deep_view().skip(i as int)) == old(self).node_hist(
                segs.deep_view().skip(i as int),
            ),
            forall|q: Seq<Seq<char>>|
                q != segs.deep_view().skip(i as int) ==> final(self).node_hist(q) == old(
                    self,
                ).node_hist(q),
        decreases segs@.len() - i,
    {
        let ghost dv = segs.deep_view();
        let ghost pre = *self;
        if i == segs.len() {
            let r = self.remove_at_index_here(index);
            proof {
                assert(dv.skip(i as int) =~= Seq::<Seq<char>>::empty());
                assert forall|q: Seq<Seq<char>>| q != dv.skip(i as int) implies q.len() > 0 by {
                    if q.len() == 0 {
                        assert(q =~= dv.skip(i as int));
                    }
                }
            }
            return r;
        }
        let ghost suffix = dv.skip(i as int);
        let ghost suffix1 = dv.skip(i as int + 1);
        proof {
            assert(suffix.len() > 0);
            assert(suffix[0] == dv[i as int]);
            assert(dv[i as int] == segs@[i as int]@);
            assert(suffix.drop_first() =~= suffix1);
            assert(dv[i as int] != marker_seq());
            assert(suffix =~= seq![dv[i as int]] + suffix1);
        }
        let j_opt = find_idx(&self.data, &segs[i]);
        let j: usize;
        match j_opt {
            Some(jj) => {
                j = jj;
            },
            None => {
                proof {
                    assert(pre.node_hist(suffix).len() == 0);
                }
                return false;
            },
        }
        proof {
            lemma_idx_of(pre.data@, dv[i as int]);
            assert(pre.data@[j as int].key@ == dv[i as int]);
            assert(pre.data@[j as int].val is Node);
        }
        let e = self.data.remove(j);
        let ghost e_g = e;
        let key = e.key;
        match e.val {
            NestedValue::Node(mut c) => {
                let ghost c_old = c;
                let r = c.del_at_index_rec(segs, i + 1, index);
                let e2 = Entry { key, val: NestedValue::Node(c) };
                self.data.insert(j, e2);
                proof {
                    let post = *self;
                    let c_new = c;
                    assert(e_g == pre.data@[j as int]);
                    assert(post.data@ =~= pre.data@.update(
                        j as int,
                        Entry { key: pre.data@[j as int].key, val: NestedValue::Node(c_new) },
                    ));
                    lemma_update_child_frame(
                        pre,
                        post,
                        j as int,
                        c_old,
                        c_new,
                        dv[i as int],
                        suffix1,
                    );
                }
                r
            },
            NestedValue::Items(its) => {
                proof {
                    assert(e_g == pre.data@[j as int]);
                    assert(false);
                }
                self.data.insert(j, Entry { key, val: NestedValue::Items(its) });
                false
            },
        }
    }

    /// Removes the version carrying `id` from the history at `segs[i..]`.
    pub(crate) fn del_by_id_rec(&mut self, segs: &Vec<String>, i: usize, id: i64) -> (r: bool)
        requires
            old(self).node_wf(),
            i <= segs@.len(),
            forall|j: int| i <= j < segs@.len() ==> segs.deep_view()[j] != marker_seq(),
        ensures
            final(self).node_wf(),
            final(self).max_history == old(self).max_history,
            r == (first_id_idx(old(self).node_hist(segs.deep_view().skip(i as int)), id as int)
                >= 0),
            r ==> final(self).node_hist(segs.deep_view().skip(i as int)) == old(self).node_hist(
                segs.deep_view().skip(i as int),
            ).remove(
                first_id_idx(old(self).node_hist(segs.deep_view().skip(i as int)), id as int),
            ),
            !r ==> final(self).node_hist(segs.deep_view().skip(i as int)) == old(self).node_hist(
                segs.deep_view().skip(i as int),
            ),
            forall|q: Seq<Seq<char>>|
                q != segs.deep_view().skip(i as int) ==> final(self).node_hist(q) == old(
                    self,
                ).node_hist(q),
        decreases segs@.len() - i,
    {
        let ghost dv = segs.deep_view();
        let ghost pre = *self;
        if i == segs.len() {
            let r = self.remove_id_here(id);
            proof {
                assert(dv.skip(i as int) =~= Seq::<Seq<char>>::empty());
                assert forall|q: Seq<Seq<char>>| q != dv.skip(i as int) implies q.len() > 0 by {
                    if q.len() == 0 {
                        assert(q =~= dv.skip(i as int));
                    }
                }
            }
            return r;
        }
        let ghost suffix = dv.skip(i as int);
        let ghost suffix1 = dv.skip(i as int + 1);
        proof {
            assert(suffix.len() > 0);
            assert(suffix[0] == dv[i as int]);
            assert(dv[i as int] == segs@[i as int]@);
            assert(suffix.drop_first() =~= suffix1);
            assert(dv[i as int] != marker_seq());
            assert(suffix =~= seq![dv[i as int]] + suffix1);
        }
        let j_opt = find_idx(&self.data, &segs[i]);
        let j: usize;
        match j_opt {
            Some(jj) => {
                j = jj;
            },
            None => {
                proof {
                    assert(pre.node_hist(suffix).len() == 0);
                }
                return false;
            },
        }
        proof {
            lemma_idx_of(pre.data@, dv[i as int]);
            assert(pre.data@[j as int].key@ == dv[i as int]);
            assert(pre.data@[j as int].val is Node);
        }
        let e = self.data.remove(j);
        let ghost e_g = e;
        let key = e.key;
        match e.val {
            NestedValue::Node(mut c) => {
                let ghost c_old = c;
                let r = c.del_by_id_rec(segs, i + 1, id);
                let e2 = Entry { key, val: NestedValue::Node(c) };
                self.data.insert(j, e2);
                proof {
                    let post = *self;
                    let c_new = c;
                    assert(e_g == pre.data@[j as int]);
                    assert(post.data@ =~= pre.data@.update(
                        j as int,
                        Entry { key: pre.data@[j as int].key, val: NestedValue::Node(c_new) },
                    ));
                    lemma_update_child_frame(
                        pre,
                        post,
                        j as int,
                        c_old,
                        c_new,
                        dv[i as int],
                        suffix1,
                    );
                }
                r
            },
            NestedValue::Items(its) => {
                proof {
                    assert(e_g == pre.data@[j as int]);
                    assert(false);
                }
                self.data.insert(j, Entry { key, val: NestedValue::Items(its) });
                false
            },
        }
    }

    /// Removes the `index`-th newest version at `keys`.  Returns whether
    /// a version was removed.
    pub fn delete_at_index(&mut self, keys: &str, index: usize) -> (r: bool)
        requires
            old(self).node_wf(),
            valid_write_path(spec_split(keys@)),
        ensures
            final(self).node_wf(),
            final(self).max_history == old(self).max_history,
            r == (index < old(self).node_hist(spec_split(keys@)).len()),
            r ==> final(self).node_hist(spec_split(keys@)) == old(self).node_hist(
                spec_split(keys@),
            ).remove(index as int),
            !r ==> final(self).node_hist(spec_split(keys@)) == old(self).node_hist(
                spec_split(keys@),
            ),
            forall|q: Seq<Seq<char>>|
                q != spec_split(keys@) ==> final(self).node_hist(q) == old(self).node_hist(q),
    {
        let segs = split_path(keys);
        proof {
            assert(segs.deep_view().skip(0) =~= segs.deep_view());
        }
        self.del_at_index_rec(&segs, 0, index)
    }

    /// Removes the single version at `keys` whose id matches.  Returns
    /// whether one was removed.
    pub fn delete_by_id(&mut self, keys: &str, id: i64) -> (r: bool)
        requires
            old(self).node_wf(),
            valid_write_path(spec_split(keys@)),
        ensures
            final(self).node_wf(),
            final(self).max_history == old(self).max_history,
            r == (first_id_idx(old(self).node_hist(spec_split(keys@)), id as int) >= 0),
            r ==> final(self).node_hist(spec_split(keys@)) == old(self).node_hist(
                spec_split(keys@),
            ).remove(first_id_idx(old(self).node_hist(spec_split(keys@)), id as int)),
            !r ==> final(self).node_hist(spec_split(keys@)) == old(self).node_hist(
                spec_split(keys@),
            ),
            forall|q: Seq<Seq<char>>|
                q != spec_split(keys@) ==> final(self).node_hist(q) == old(self).node_hist(q),
    {
        let segs = split_path(keys);
        proof {
            assert(segs.deep_view().skip(0) =~= segs.deep_view());
        }
        self.del_by_id_rec(&segs, 0, id)
    }

    /// What the expiration machinery runs when a deadline fires: the
    /// version written under `id` is removed from the history at `keys`;
    /// a version that is already gone is a silent no-op.
    pub fn eviction_callback(&mut self, keys: &str, id: i64)
        requires
            old(self).node_wf(),
            valid_write_path(spec_split(keys@)),
        ensures
            final(self).node_wf(),
            final(self).max_history == old(self).max_history,
            first_id_idx(old(self).node_hist(spec_split(keys@)), id as int) >= 0
                ==> final(self).node_hist(spec_split(keys@)) == old(self).node_hist(
                spec_split(keys@),
            ).remove(first_id_idx(old(self).node_hist(spec_split(keys@)), id as int)),
            first_id_idx(old(self).node_hist(spec_split(keys@)), id as int) < 0
                ==> final(self).node_hist(spec_split(keys@)) == old(self).node_hist(
                spec_split(keys@),
            ),
            forall|q: Seq<Seq<char>>|
                q != spec_split(keys@) ==> final(self).node_hist(q) == old(self).node_hist(q),
    {
        let _ = self.delete_by_id(keys, id);
    }

    /// Removes the node at `keys` together with everything below it.
    /// Returns whether anything was removed.
    pub fn delete(&mut self, keys: &str) -> (r: bool)
        requires
            old(self).node_wf(),
            valid_write_path(spec_split(keys@)),
        ensures
            final(self).node_wf(),
            final(self).max_history == old(self).max_history,
            r == (lookup_val(*old(self), spec_split(keys@)) is Some),
            final(self).node_hist(spec_split(keys@)) == Seq::<ItemModel>::empty(),
            forall|q: Seq<Seq<char>>|
                seq_is_prefix(spec_split(keys@), q) ==> final(self).node_hist(q) == Seq::<
                    ItemModel,
                >::empty(),
            forall|q: Seq<Seq<char>>|
                !seq_is_prefix(spec_split(keys@), q) ==> final(self).node_hist(q) == old(
                    self,
                ).node_hist(q),
    {
        let segs = split_path(keys);
        proof {
            assert(segs.deep_view().skip(0) =~= segs.deep_view());
        }
        let r = self.delete_rec(&segs, 0);
        proof {
            let p = spec_split(keys@);
            assert(p.subrange(0, p.len() as int) =~= p);
            assert(seq_is_prefix(p, p));
        }
        r
    }
}

} // verus!
