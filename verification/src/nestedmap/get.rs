use vstd::prelude::*;

use crate::item::Item;
use crate::nestedmap::{idx_of, lemma_idx_of_at, marker_string, Entry, NestedMap, NestedValue};
use crate::paths::{spec_split, split_path};

verus! {

/// Position of the entry bound to segment `k`, found by first match.
pub(crate) fn find_idx(data: &Vec<Entry>, k: &String) -> (r: Option<usize>)
    ensures
        match r {
            Some(j) => j == idx_of(data@, k@) && 0 <= j < data@.len(),
            None => idx_of(data@, k@) == -1,
        },
{
    let mut j: usize = 0;
    while j < data.len()
        invariant
            0 <= j <= data@.len(),
            forall|jj: int| 0 <= jj < j ==> data@[jj].key@ != k@,
        decreases data@.len() - j,
    {
        if data[j].key == *k {
            proof {
                lemma_idx_of_at(data@, k@, j as int);
            }
            return Some(j);
        }
        j = j + 1;
    }
    proof {
        lemma_idx_of_at(data@, k@, data@.len() as int);
    }
    None
}

/// The entry bound to segment `k`, found by first match.
pub(crate) fn find_entry<'a>(data: &'a Vec<Entry>, k: &String) -> (r: Option<&'a Entry>)
    ensures
        match r {
            Some(e) => 0 <= idx_of(data@, k@) < data@.len() && *e == data@[idx_of(data@, k@)],
            None => idx_of(data@, k@) == -1,
        },
{
    let mut j: usize = 0;
    while j < data.len()
        invariant
            0 <= j <= data@.len(),
            forall|jj: int| 0 <= jj < j ==> data@[jj].key@ != k@,
        decreases data@.len() - j,
    {
        if data[j].key == *k {
            proof {
                lemma_idx_of_at(data@, k@, j as int);
            }
            return Some(&data[j]);
        }
        j = j + 1;
    }
    proof {
        lemma_idx_of_at(data@, k@, data@.len() as int);
    }
    None
}

impl NestedMap {
    /// The newest version stored at exactly `keys`, or nothing when the
    /// path is absent or holds no history.
    pub fn get(&self, keys: &str) -> (r: Option<&Item>)
        ensures
            match r {
                Some(it) => self.node_hist(spec_split(keys@)).len() > 0 && it@ == self.node_hist(
                    spec_split(keys@),
                )[0],
                None => self.node_hist(spec_split(keys@)).len() == 0,
            },
    {
        let segs = split_path(keys);
        let mut cur: &NestedMap = self;
        let mut i: usize = 0;
        let ghost p = spec_split(keys@);
        proof {
            assert(p.skip(0) =~= p);
        }
        while i < segs.len()
            invariant
                0 <= i <= segs@.len(),
                p == segs.deep_view(),
                p == spec_split(keys@),
                self.node_hist(p) == cur.node_hist(p.skip(i as int)),
            decreases segs@.len() - i,
        {
            proof {
                assert(p.skip(i as int).len() > 0);
                assert(p.skip(i as int)[0] == segs.deep_view()[i as int]);
                assert(segs.deep_view()[i as int] == segs@[i as int]@);
            }
            match find_entry(&cur.data, &segs[i]) {
                Some(e) => match &e.val {
                    NestedValue::Node(c) => {
                        proof {
                            assert(p.skip(i as int).drop_first() =~= p.skip(i + 1));
                        }
                        cur = c;
                    },
                    NestedValue::Items(_) => {
                        proof {
                            assert(cur.node_hist(p.skip(i as int)).len() == 0);
                        }
                        return None;
                    },
                },
                None => {
                    proof {
                        assert(cur.node_hist(p.skip(i as int)).len() == 0);
                    }
                    return None;
                },
            }
            i = i + 1;
        }
        proof {
            assert(p.skip(i as int) =~= Seq::<Seq<char>>::empty());
        }
        let mk = marker_string();
        match find_entry(&cur.data, &mk) {
            Some(e) => match &e.val {
                NestedValue::Items(items) => {
                    if items.len() > 0 {
                        Some(&items[0])
                    } else {
                        None
                    }
                },
                NestedValue::Node(_) => None,
            },
            None => None,
        }
    }
}

} // verus!
