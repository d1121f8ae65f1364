use vstd::prelude::*;

use crate::item::{Item, ItemModel};

pub mod delete;
pub mod get;
pub mod insert;
pub mod query;

verus! {

/// The reserved segment under which a node keeps its own version
/// history.  It is not usable as a segment of a written path.
pub open spec fn marker_seq() -> Seq<char> {
    "__VALUE__"@
}

/// A fresh `String` holding the reserved marker segment.
pub fn marker_string() -> (r: String)
    ensures
        r@ == marker_seq(),
{
    "__VALUE__".to_owned()
}

/// One binding of a segment inside a node: either a child node or, under
/// the reserved marker, the node's own history.
pub struct Entry {
    pub key: String,
    pub val: NestedValue,
}

pub enum NestedValue {
    Node(NestedMap),
    Items(Vec<Item>),
}

/// A node of the trie: an ordered list of distinct segment bindings.
/// Histories are newest-first and bounded by `max_history`.
pub struct NestedMap {
    pub data: Vec<Entry>,
    pub max_history: usize,
}

/// Index of the first entry bound to segment `k`, or `-1`.
pub open spec fn idx_of(s: Seq<Entry>, k: Seq<char>) -> int
    decreases s.len(),
{
    if s.len() == 0 {
        -1
    } else if s[0].key@ == k {
        0
    } else if idx_of(s.drop_first(), k) < 0 {
        -1
    } else {
        1 + idx_of(s.drop_first(), k)
    }
}

pub proof fn lemma_idx_of(s: Seq<Entry>, k: Seq<char>)
    ensures
        -1 <= idx_of(s, k) < s.len(),
        idx_of(s, k) >= 0 ==> s[idx_of(s, k)].key@ == k,
        forall|j: int| 0 <= j < idx_of(s, k) ==> s[j].key@ != k,
        idx_of(s, k) == -1 ==> forall|j: int| 0 <= j < s.len() ==> s[j].key@ != k,
    decreases s.len(),
{
    if s.len() != 0 && s[0].key@ != k {
        lemma_idx_of(s.drop_first(), k);
        assert forall|j: int| 0 <= j < idx_of(s, k) implies s[j].key@ != k by {
            if j > 0 {
                assert(s.drop_first()[j - 1].key@ != k);
            }
        }
        if idx_of(s, k) == -1 {
            assert forall|j: int| 0 <= j < s.len() implies s[j].key@ != k by {
                if j > 0 {
                    assert(s.drop_first()[j - 1].key@ != k);
                }
            }
        }
    }
}

/// `idx_of` is pinned by its characterization: everything before `j`
/// binds another segment, and `j` itself (if in range) binds `k`.
pub proof fn lemma_idx_of_at(s: Seq<Entry>, k: Seq<char>, j: int)
    requires
        0 <= j <= s.len(),
        forall|jj: int| 0 <= jj < j ==> s[jj].key@ != k,
        j < s.len() ==> s[j].key@ == k,
    ensures
        j < s.len() ==> idx_of(s, k) == j,
        j == s.len() ==> idx_of(s, k) == -1,
    decreases s.len(),
{
    if s.len() != 0 && s[0].key@ != k {
        assert(forall|jj: int| 0 <= jj < j - 1 ==> s.drop_first()[jj].key@ != k);
        lemma_idx_of_at(s.drop_first(), k, j - 1);
    }
}

impl NestedMap {
    /// The value bound to segment `k` at this node, if any.
    pub open spec fn child(self, k: Seq<char>) -> Option<NestedValue> {
        let i = idx_of(self.data@, k);
        if 0 <= i < self.data@.len() {
            Some(self.data@[i].val)
        } else {
            None
        }
    }

    /// This node's own history, newest first; empty when the node holds
    /// no history.
    pub open spec fn own_hist(self) -> Seq<ItemModel> {
        let i = idx_of(self.data@, marker_seq());
        if 0 <= i < self.data@.len() {
            match self.data@[i].val {
                NestedValue::Items(items) => items.deep_view(),
                NestedValue::Node(_) => Seq::empty(),
            }
        } else {
            Seq::empty()
        }
    }

    /// The history stored at `path` below this node, newest first; empty
    /// when the walk leaves the trie or no history is present there.
    pub open spec fn node_hist(self, path: Seq<Seq<char>>) -> Seq<ItemModel>
        decreases self, path.len(),
    {
        if path.len() == 0 {
            self.own_hist()
        } else {
            let i = idx_of(self.data@, path[0]);
            if 0 <= i < self.data@.len() {
                match self.data@[i].val {
                    NestedValue::Node(c) => c.node_hist(path.drop_first()),
                    NestedValue::Items(_) => Seq::empty(),
                }
            } else {
                Seq::empty()
            }
        }
    }

    /// Structural soundness of a node: segments are distinct, histories
    /// sit exactly under the reserved marker and respect the bound, and
    /// every child node agrees on the bound.
    pub open spec fn node_wf(self) -> bool
        decreases self,
    {
        &&& self.max_history >= 1
        &&& forall|i: int, j: int|
            0 <= i < j < self.data@.len() ==> (#[trigger] self.data@[i]).key@ != (
            #[trigger] self.data@[j]).key@
        &&& forall|i: int|
            0 <= i < self.data@.len() ==> match (#[trigger] self.data@[i]).val {
                NestedValue::Items(items) => self.data@[i].key@ == marker_seq()
                    && items.deep_view().len() <= self.max_history,
                NestedValue::Node(c) => self.data@[i].key@ != marker_seq() && c.node_wf()
                    && c.max_history == self.max_history,
            }
    }

    /// An empty store accepting up to `max_history` versions per leaf.
    pub fn new(max_history: usize) -> (r: NestedMap)
        requires
            max_history >= 1,
        ensures
            r.node_wf(),
            r.max_history == max_history,
            forall|p: Seq<Seq<char>>| r.node_hist(p) == Seq::<ItemModel>::empty(),
    {
        let r = NestedMap { data: Vec::new(), max_history };
        proof {
            assert forall|p: Seq<Seq<char>>| r.node_hist(p) == Seq::<ItemModel>::empty() by {
                if p.len() == 0 {
                } else {
                }
            }
        }
        r
    }
}

impl NestedValue {
    /// The entries of the child node held by this value.
    pub fn as_map_mut(&mut self) -> (r: &mut Vec<Entry>)
        requires
            (*old(self)) is Node,
        ensures
            *r == (*old(self))->Node_0.data,
            (*final(self)) is Node,
            (*final(self))->Node_0.data == *final(r),
            (*final(self))->Node_0.max_history == (*old(self))->Node_0.max_history,
    {
        match self {
            NestedValue::Node(m) => &mut m.data,
            NestedValue::Items(_) => unreached(),
        }
    }
}

/// A valid written path: at least one segment, none of them the
/// reserved marker.
pub open spec fn valid_write_path(p: Seq<Seq<char>>) -> bool {
    &&& p.len() >= 1
    &&& forall|j: int| 0 <= j < p.len() ==> p[j] != marker_seq()
}

/// Whether `key` can be written to: none of its segments is the
/// reserved marker.  Callers check this before writing or deleting.
pub fn is_valid_write_key(key: &str) -> (r: bool)
    ensures
        r == valid_write_path(crate::paths::spec_split(key@)),
{
    let segs = crate::paths::split_path(key);
    let mk = marker_string();
    let mut j: usize = 0;
    while j < segs.len()
        invariant
            0 <= j <= segs@.len(),
            mk@ == marker_seq(),
            segs.deep_view() == crate::paths::spec_split(key@),
            forall|l: int| 0 <= l < j ==> segs.deep_view()[l] != marker_seq(),
        decreases segs@.len() - j,
    {
        if segs[j] == mk {
            proof {
                assert(segs.deep_view()[j as int] == segs@[j as int]@);
            }
            return false;
        }
        proof {
            assert(segs.deep_view()[j as int] == segs@[j as int]@);
        }
        j = j + 1;
    }
    true
}

} // verus!
