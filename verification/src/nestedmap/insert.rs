use vstd::prelude::*;

use crate::item::{Item, ItemModel};
use crate::nestedmap::get::find_idx;
use crate::nestedmap::{
    idx_of, lemma_idx_of, lemma_idx_of_at, marker_seq, marker_string, valid_write_path, Entry,
    NestedMap, NestedValue,
};
use crate::options::{spec_preserve, SetOptions};
use crate::paths::{spec_split, split_path};

verus! {

/// The history at a leaf after a write, newest first.  Without history
/// preservation only the newest slot is written and older versions stay
/// in place; with it the new version is pushed at the front and the
/// oldest is evicted once the bound is reached.
pub open spec fn updated_hist(
    h: Seq<ItemModel>,
    it: ItemModel,
    preserve: bool,
    max: nat,
) -> Seq<ItemModel> {
    if !preserve {
        if h.len() == 0 {
            seq![it]
        } else {
            h.update(0, it)
        }
    } else {
        if h.len() >= max {
            seq![it] + h.drop_last()
        } else {
            seq![it] + h
        }
    }
}

/// Pointwise equal segment bindings give the same lookup index.
pub proof fn lemma_idx_of_same_keys(s1: Seq<Entry>, s2: Seq<Entry>, k: Seq<char>)
    requires
        s1.len() == s2.len(),
        forall|j: int| 0 <= j < s1.len() ==> s1[j].key@ == s2[j].key@,
    ensures
        idx_of(s1, k) == idx_of(s2, k),
    decreases s1.len(),
{
    if s1.len() != 0 {
        assert(forall|j: int|
            0 <= j < s1.drop_first().len() ==> s1.drop_first()[j].key@ == s2.drop_first()[j].key@);
        lemma_idx_of_same_keys(s1.drop_first(), s2.drop_first(), k);
    }
}

/// Appending a binding for a fresh segment leaves every other lookup
/// unchanged and makes the fresh segment resolve to the new slot.
pub proof fn lemma_idx_of_push(s: Seq<Entry>, e: Entry, k: Seq<char>)
    requires
        idx_of(s, e.key@) == -1,
    ensures
        e.key@ == k ==> idx_of(s.push(e), k) == s.len(),
        e.key@ != k ==> idx_of(s.push(e), k) == idx_of(s, k),
{
    lemma_idx_of(s, k);
    lemma_idx_of(s, e.key@);
    let t = s.push(e);
    assert(forall|j: int| 0 <= j < s.len() ==> t[j] == s[j]);
    if e.key@ == k {
        lemma_idx_of_at(t, k, s.len() as int);
    } else {
        let i = idx_of(s, k);
        if i >= 0 {
            lemma_idx_of_at(t, k, i);
        } else {
            lemma_idx_of_at(t, k, t.len() as int);
        }
    }
}

impl NestedMap {
    /// Writes `value` into this node's own history.
    pub(crate) fn set_here(&mut self, value: &Item, preserve: bool)
        requires
            old(self).node_wf(),
        ensures
            final(self).node_wf(),
            final(self).max_history == old(self).max_history,
            final(self).own_hist() == updated_hist(
                old(self).own_hist(),
                value@,
                preserve,
                old(self).max_history as nat,
            ),
            forall|q: Seq<Seq<char>>|
                q.len() > 0 ==> final(self).node_hist(q) == old(self).node_hist(q),
    {
        let ghost pre = *self;
        let mk = marker_string();
        let j_opt = find_idx(&self.data, &mk);
        match j_opt {
            Some(j) => {
                let e = self.data.remove(j);
                let ghost e_g = e;
                let key = e.key;
                match e.val {
                    NestedValue::Items(mut items) => {
                        let ghost h0 = items.deep_view();
                        proof {
                            assert(e_g == pre.data@[j as int]);
                            assert(h0 == pre.own_hist());
                        }
                        if !preserve {
                            if items.len() > 0 {
                                let _ = items.remove(0);
                            }
                            items.insert(0, value.duplicate());
                            proof {
                                if h0.len() == 0 {
                                    assert(items.deep_view() =~= seq![value@]);
                                } else {
                                    assert(items.deep_view() =~= h0.update(0, value@));
                                }
                            }
                        } else {
                            if items.len() >= self.max_history {
                                let _ = items.pop();
                                proof {
                                    assert(items.deep_view() =~= h0.drop_last());
                                }
                            }
                            items.insert(0, value.duplicate());
                            proof {
                                if h0.len() >= pre.max_history {
                                    assert(items.deep_view() =~= seq![value@] + h0.drop_last());
                                } else {
                                    assert(items.deep_view() =~= seq![value@] + h0);
                                }
                            }
                        }
                        let ghost h1 = items.deep_view();
                        proof {
                            assert(h1 == updated_hist(h0, value@, preserve, pre.max_history as nat));
                            assert(h1.len() <= pre.max_history);
                        }
                        let e2 = Entry { key, val: NestedValue::Items(items) };
                        self.data.insert(j, e2);
                        proof {
                            let post = *self;
                            assert(post.data@ =~= pre.data@.update(j as int, post.data@[j as int]));
                            assert(post.data@[j as int].key@ == marker_seq());
                            assert(forall|l: int|
                                0 <= l < pre.data@.len() ==> post.data@[l].key@
                                    == pre.data@[l].key@);
                            assert(post.own_hist() == updated_hist(
                                pre.own_hist(),
                                value@,
                                preserve,
                                pre.max_history as nat,
                            )) by {
                                lemma_idx_of_same_keys(pre.data@, post.data@, marker_seq());
                            }
                            assert(post.node_wf()) by {
                                assert forall|l: int|
                                    0 <= l
                                        < post.data@.len() implies match (#[trigger] post.data@[l]).val {
                                    NestedValue::Items(its) => post.data@[l].key@ == marker_seq()
                                        && its.deep_view().len() <= post.max_history,
                                    NestedValue::Node(c) => post.data@[l].key@ != marker_seq()
                                        && c.node_wf() && c.max_history == post.max_history,
                                } by {
                                    if l != j {
                                        assert(post.data@[l] == pre.data@[l]);
                                    }
                                }
                            }
                            assert forall|q: Seq<Seq<char>>| q.len() > 0 implies post.node_hist(q)
                                == pre.node_hist(q) by {
                                lemma_idx_of_same_keys(pre.data@, post.data@, q[0]);
                                let iq = idx_of(pre.data@, q[0]);
                                if 0 <= iq < pre.data@.len() && iq != j {
                                    assert(post.data@[iq] == pre.data@[iq]);
                                }
                            }
                        }
                    },
                    NestedValue::Node(n) => {
                        proof {
                            assert(e_g == pre.data@[j as int]);
                            lemma_idx_of(pre.data@, marker_seq());
                            assert(pre.data@[j as int].key@ == marker_seq());
                            assert(false);
                        }
                        self.data.insert(j, Entry { key, val: NestedValue::Node(n) });
                    },
                }
            },
            None => {
                let mut items: Vec<Item> = Vec::new();
                items.push(value.duplicate());
                let e = Entry { key: mk, val: NestedValue::Items(items) };
                let ghost e_g = e;
                proof {
                    lemma_idx_of(pre.data@, marker_seq());
                    assert(pre.own_hist() =~= Seq::<ItemModel>::empty());
                }
                self.data.push(e);
                proof {
                    let post = *self;
                    assert(post.data@ == pre.data@.push(e_g));
                    assert(e_g.key@ == marker_seq());
                    lemma_idx_of_push(pre.data@, e_g, marker_seq());
                    assert(post.own_hist() =~= seq![value@]);
                    assert(post.own_hist() == updated_hist(
                        pre.own_hist(),
                        value@,
                        preserve,
                        pre.max_history as nat,
                    ));
                    assert(post.node_wf()) by {
                        assert forall|l: int, j2: int|
                            0 <= l < j2 < post.data@.len() implies (#[trigger] post.data@[l]).key@
                            != (#[trigger] post.data@[j2]).key@ by {
                            assert(post.data@[l] == pre.data@[l]);
                            if j2 < pre.data@.len() {
                                assert(post.data@[j2] == pre.data@[j2]);
                            }
                        }
                        assert forall|l: int|
                            0 <= l < post.data@.len() implies match (#[trigger] post.data@[l]).val {
                            NestedValue::Items(its) => post.data@[l].key@ == marker_seq()
                                && its.deep_view().len() <= post.max_history,
                            NestedValue::Node(c) => post.data@[l].key@ != marker_seq()
                                && c.node_wf() && c.max_history == post.max_history,
                        } by {
                            if l < pre.data@.len() {
                                assert(post.data@[l] == pre.data@[l]);
                            } else {
                                assert(post.data@[l] == e_g);
                                assert(e_g.val->Items_0.deep_view() =~= seq![value@]);
                            }
                        }
                    }
                    assert forall|q: Seq<Seq<char>>| q.len() > 0 implies post.node_hist(q)
                        == pre.node_hist(q) by {
                        lemma_idx_of_push(pre.data@, e_g, q[0]);
                        let iq = idx_of(pre.data@, q[0]);
                        if q[0] == marker_seq() {
                            assert(post.node_hist(q).len() == 0);
                            assert(pre.node_hist(q).len() == 0);
                        } else if 0 <= iq < pre.data@.len() {
                            assert(post.data@[iq] == pre.data@[iq]);
                        }
                    }
                }
            },
        }
    }

    /// Finds the child node bound to `seg`, creating an empty one when
    /// the segment is absent, and returns its position.  No history
    /// anywhere changes.
    pub(crate) fn ensure_child(&mut self, seg: &String) -> (j: usize)
        requires
            old(self).node_wf(),
            seg@ != marker_seq(),
        ensures
            final(self).node_wf(),
            final(self).max_history == old(self).max_history,
            j == idx_of(final(self).data@, seg@),
            0 <= j < final(self).data@.len(),
            final(self).data@[j as int].val is Node,
            forall|q: Seq<Seq<char>>| final(self).node_hist(q) == old(self).node_hist(q),
    {
        let ghost pre = *self;
        let j_opt = find_idx(&self.data, seg);
        match j_opt {
            Some(jj) => {
                proof {
                    lemma_idx_of(pre.data@, seg@);
                    assert(pre.data@[jj as int].key@ == seg@);
                    assert(pre.data@[jj as int].val is Node);
                }
                jj
            },
            None => {
                let fresh = NestedMap::new(self.max_history);
                let ghost fresh_g = fresh;
                let e = Entry { key: seg.clone(), val: NestedValue::Node(fresh) };
                let ghost e_g = e;
                self.data.push(e);
                proof {
                    let mid = *self;
                    assert(mid.data@ == pre.data@.push(e_g));
                    assert(e_g.key@ == seg@);
                    lemma_idx_of_push(pre.data@, e_g, seg@);
                    assert(idx_of(mid.data@, seg@) == pre.data@.len());
                    assert(mid.node_wf()) by {
                        assert forall|l: int, j2: int|
                            0 <= l < j2 < mid.data@.len() implies (#[trigger] mid.data@[l]).key@
                            != (#[trigger] mid.data@[j2]).key@ by {
                            assert(mid.data@[l] == pre.data@[l]);
                            if j2 < pre.data@.len() {
                                assert(mid.data@[j2] == pre.data@[j2]);
                            } else {
                                lemma_idx_of(pre.data@, e_g.key@);
                            }
                        }
                        assert forall|l: int|
                            0 <= l < mid.data@.len() implies match (#[trigger] mid.data@[l]).val {
                            NestedValue::Items(its) => mid.data@[l].key@ == marker_seq()
                                && its.deep_view().len() <= mid.max_history,
                            NestedValue::Node(c) => mid.data@[l].key@ != marker_seq() && c.node_wf()
                                && c.max_history == mid.max_history,
                        } by {
                            if l < pre.data@.len() {
                                assert(mid.data@[l] == pre.data@[l]);
                            } else {
                                assert(mid.data@[l] == e_g);
                            }
                        }
                    }
                    assert forall|q: Seq<Seq<char>>| mid.node_hist(q) == pre.node_hist(q) by {
                        if q.len() == 0 {
                            lemma_idx_of_push(pre.data@, e_g, marker_seq());
                            let im = idx_of(pre.data@, marker_seq());
                            if 0 <= im < pre.data@.len() {
                                assert(mid.data@[im] == pre.data@[im]);
                            }
                            assert(mid.own_hist() == pre.own_hist());
                            assert(mid.node_hist(q) == pre.node_hist(q));
                        } else {
                            lemma_idx_of_push(pre.data@, e_g, q[0]);
                            lemma_idx_of(pre.data@, q[0]);
                            let iq = idx_of(pre.data@, q[0]);
                            if q[0] == e_g.key@ {
                                assert(mid.node_hist(q) == fresh_g.node_hist(q.drop_first()));
                                assert(pre.node_hist(q).len() == 0);
                                assert(mid.node_hist(q) =~= pre.node_hist(q));
                            } else if 0 <= iq < pre.data@.len() {
                                assert(mid.data@[iq] == pre.data@[iq]);
                                assert(mid.node_hist(q) == pre.node_hist(q));
                            } else {
                                assert(iq == -1);
                                assert(idx_of(mid.data@, q[0]) == -1);
                                assert(mid.node_hist(q) == pre.node_hist(q));
                            }
                        }
                    }
                }
                self.data.len() - 1
            },
        }
    }

    /// Writes `value` at the path given by the segments `segs[i..]`
    /// below this node, creating intermediate nodes as needed.
    pub(crate) fn set_rec(&mut self, segs: &Vec<String>, i: usize, value: &Item, preserve: bool)
        requires
            old(self).node_wf(),
            i <= segs@.len(),
            forall|j: int| i <= j < segs@.len() ==> segs.deep_view()[j] != marker_seq(),
        ensures
            final(self).node_wf(),
            final(self).max_history == old(self).max_history,
            final(self).node_hist(segs.deep_view().skip(i as int)) == updated_hist(
                old(self).node_hist(segs.deep_view().skip(i as int)),
                value@,
                preserve,
                old(self).max_history as nat,
            ),
            forall|q: Seq<Seq<char>>|
                q != segs.deep_view().skip(i as int) ==> final(self).node_hist(q) == old(
                    self,
                ).node_hist(q),
        decreases segs@.len() - i,
    {
        let ghost dv = segs.deep_view();
        let ghost pre = *self;
        if i == segs.len() {
            self.set_here(value, preserve);
            proof {
                assert(dv.skip(i as int) =~= Seq::<Seq<char>>::empty());
                assert forall|q: Seq<Seq<char>>| q != dv.skip(i as int) implies q.len() > 0 by {
                    if q.len() == 0 {
                        assert(q =~= dv.skip(i as int));
                    }
                }
            }
            return ;
        }
        let ghost suffix = dv.skip(i as int);
        let ghost suffix1 = dv.skip(i as int + 1);
        proof {
            assert(suffix.len() > 0);
            assert(suffix[0] == dv[i as int]);
            assert(dv[i as int] == segs@[i as int]@);
            assert(suffix.drop_first() =~= suffix1);
            assert(dv[i as int] != marker_seq());
        }
        let j = self.ensure_child(&segs[i]);
        let ghost mid = *self;
        proof {
            lemma_idx_of(mid.data@, dv[i as int]);
        }
        let e = self.data.remove(j);
        let ghost e_g = e;
        let key = e.key;
        match e.val {
            NestedValue::Node(mut c) => {
                let ghost c_old = c;
                c.set_rec(segs, i + 1, value, preserve);
                let e2 = Entry { key, val: NestedValue::Node(c) };
                self.data.insert(j, e2);
                proof {
                    let post = *self;
                    let c_new = c;
                    assert(e_g == mid.data@[j as int]);
                    assert(post.data@ =~= mid.data@.update(j as int, post.data@[j as int]));
                    assert(post.data@[j as int].key@ == dv[i as int]);
                    assert(post.data@[j as int].val == NestedValue::Node(c_new));
                    assert(forall|l: int|
                        0 <= l < mid.data@.len() ==> post.data@[l].key@ == mid.data@[l].key@);
                    assert(post.node_hist(suffix) == c_new.node_hist(suffix1)) by {
                        lemma_idx_of_same_keys(mid.data@, post.data@, suffix[0]);
                    }
                    assert(mid.node_hist(suffix) == c_old.node_hist(suffix1));
                    assert(post.node_wf()) by {
                        assert forall|l: int|
                            0 <= l < post.data@.len() implies match (#[trigger] post.data@[l]).val {
                            NestedValue::Items(its) => post.data@[l].key@ == marker_seq()
                                && its.deep_view().len() <= post.max_history,
                            NestedValue::Node(cc) => post.data@[l].key@ != marker_seq()
                                && cc.node_wf() && cc.max_history == post.max_history,
                        } by {
                            if l != j {
                                assert(post.data@[l] == mid.data@[l]);
                            }
                        }
                    }
                    assert forall|q: Seq<Seq<char>>| q != suffix implies post.node_hist(q)
                        == mid.node_hist(q) by {
                        if q.len() == 0 {
                            lemma_idx_of_same_keys(mid.data@, post.data@, marker_seq());
                            lemma_idx_of(mid.data@, marker_seq());
                            let im = idx_of(mid.data@, marker_seq());
                            if 0 <= im < mid.data@.len() {
                                assert(im != j);
                                assert(post.data@[im] == mid.data@[im]);
                            }
                        } else {
                            lemma_idx_of_same_keys(mid.data@, post.data@, q[0]);
                            lemma_idx_of(mid.data@, q[0]);
                            let iq = idx_of(mid.data@, q[0]);
                            if 0 <= iq < mid.data@.len() {
                                if iq == j {
                                    assert(q[0] == dv[i as int]);
                                    if q.drop_first() == suffix1 {
                                        assert(q.len() == suffix.len());
                                        assert forall|l: int| 0 <= l < q.len() implies q[l]
                                            == suffix[l] by {
                                            if l > 0 {
                                                assert(q[l] == q.drop_first()[l - 1]);
                                                assert(suffix[l] == suffix.drop_first()[l - 1]);
                                            }
                                        }
                                        assert(q =~= suffix);
                                        assert(false);
                                    }
                                    assert(c_new.node_hist(q.drop_first()) == c_old.node_hist(
                                        q.drop_first(),
                                    ));
                                } else {
                                    assert(post.data@[iq] == mid.data@[iq]);
                                }
                            }
                        }
                    }
                }
            },
            NestedValue::Items(its) => {
                proof {
                    assert(e_g == mid.data@[j as int]);
                    assert(false);
                }
                self.data.insert(j, Entry { key, val: NestedValue::Items(its) });
            },
        }
    }

    /// Writes `value` at `keys`.  Without history preservation the
    /// newest version is overwritten in place; with it the new version
    /// is pushed at the front and the oldest is dropped once the
    /// per-leaf bound is reached.  No other path changes.
    pub fn set(&mut self, keys: &str, value: &Item, options: Option<SetOptions>)
        requires
            old(self).node_wf(),
            valid_write_path(spec_split(keys@)),
        ensures
            final(self).node_wf(),
            final(self).max_history == old(self).max_history,
            final(self).node_hist(spec_split(keys@)) == updated_hist(
                old(self).node_hist(spec_split(keys@)),
                value@,
                spec_preserve(options),
                old(self).max_history as nat,
            ),
            forall|q: Seq<Seq<char>>|
                q != spec_split(keys@) ==> final(self).node_hist(q) == old(self).node_hist(q),
    {
        let preserve = match &options {
            Some(o) => o.preserve_history,
            None => false,
        };
        let segs = split_path(keys);
        proof {
            assert(segs.deep_view().skip(0) =~= segs.deep_view());
        }
        self.set_rec(&segs, 0, value, preserve);
    }
}

} // verus!
