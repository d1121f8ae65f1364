use vstd::prelude::*;

use crate::item::{Item, ItemModel};
use crate::nestedmap::get::find_entry;
use crate::nestedmap::{idx_of, marker_string, NestedMap, NestedValue};
use crate::options::GetOptions;
use crate::paths::{spec_split, split_path};

verus! {

/// The single-segment wildcard.
pub open spec fn wildcard_seq() -> Seq<char> {
    "*"@
}

/// The terminal multi-level collector.
pub open spec fn collector_seq() -> Seq<char> {
    ">"@
}

pub fn wildcard_string() -> (r: String)
    ensures
        r@ == wildcard_seq(),
{
    "*".to_owned()
}

pub fn collector_string() -> (r: String)
    ensures
        r@ == collector_seq(),
{
    ">".to_owned()
}

/// The newest `k` versions of `s`, or all of `s` when it is shorter.
pub open spec fn take_up_to(s: Seq<ItemModel>, k: nat) -> Seq<ItemModel> {
    if s.len() <= k {
        s
    } else {
        s.subrange(0, k as int)
    }
}

/// Every history reachable at or below `m`, depth first in binding
/// order, up to `k` versions per leaf; `m`'s own history is skipped
/// when `skip_current` is set.
pub open spec fn spec_collect(m: NestedMap, skip_current: bool, k: nat) -> Seq<ItemModel>
    decreases m, 0int, m.data@.len() + 1,
{
    (if skip_current {
        Seq::<ItemModel>::empty()
    } else {
        take_up_to(m.own_hist(), k)
    }) + spec_collect_children(m, 0, k)
}

pub open spec fn spec_collect_children(m: NestedMap, j: int, k: nat) -> Seq<ItemModel>
    decreases m, 0int, m.data@.len() - j,
{
    if 0 <= j < m.data@.len() {
        (match m.data@[j].val {
            NestedValue::Node(c) => spec_collect(c, false, k),
            NestedValue::Items(_) => Seq::<ItemModel>::empty(),
        }) + spec_collect_children(m, j + 1, k)
    } else {
        Seq::<ItemModel>::empty()
    }
}

/// What a query returns below `m` for the pattern `pat`: up to `k`
/// newest versions per matched leaf.  A literal segment descends into
/// the child it names, `*` descends into every child, and `>` collects
/// every history strictly below the node it is reached at.
pub open spec fn spec_query(m: NestedMap, pat: Seq<Seq<char>>, k: nat) -> Seq<ItemModel>
    decreases m, pat.len(), m.data@.len() + 1,
{
    if pat.len() == 0 {
        take_up_to(m.own_hist(), k)
    } else if pat[0] == wildcard_seq() {
        spec_query_children(m, 0, pat.drop_first(), k)
    } else if pat[0] == collector_seq() {
        spec_collect(m, true, k)
    } else {
        let i = idx_of(m.data@, pat[0]);
        if 0 <= i < m.data@.len() {
            match m.data@[i].val {
                NestedValue::Node(c) => spec_query(c, pat.drop_first(), k),
                NestedValue::Items(_) => Seq::<ItemModel>::empty(),
            }
        } else {
            Seq::<ItemModel>::empty()
        }
    }
}

pub open spec fn spec_query_children(
    m: NestedMap,
    j: int,
    pat: Seq<Seq<char>>,
    k: nat,
) -> Seq<ItemModel>
    decreases m, pat.len(), m.data@.len() - j,
{
    if 0 <= j < m.data@.len() {
        (match m.data@[j].val {
            NestedValue::Node(c) => spec_query(c, pat, k),
            NestedValue::Items(_) => Seq::<ItemModel>::empty(),
        }) + spec_query_children(m, j + 1, pat, k)
    } else {
        Seq::<ItemModel>::empty()
    }
}

/// How many versions per leaf a read returns: absent options and a
/// count of zero both mean one.
pub open spec fn effective_history(options: Option<GetOptions>) -> nat {
    match options {
        Some(o) => if o.history_count == 0 {
            1nat
        } else {
            o.history_count as nat
        },
        None => 1nat,
    }
}

/// Appends up to `k` newest versions of `items` to `results`.
fn push_take(results: &mut Vec<Item>, items: &Vec<Item>, k: usize)
    ensures
        final(results).deep_view() == old(results).deep_view() + take_up_to(
            items.deep_view(),
            k as nat,
        ),
{
    let ghost base = results.deep_view();
    let stop: usize = if items.len() < k {
        items.len()
    } else {
        k
    };
    let mut l: usize = 0;
    while l < stop
        invariant
            0 <= l <= stop,
            stop == (if items.deep_view().len() <= k {
                items.deep_view().len()
            } else {
                k as nat
            }),
            results.deep_view() =~= base + items.deep_view().subrange(0, l as int),
        decreases stop - l,
    {
        let ghost before = results.deep_view();
        results.push(items[l].duplicate());
        proof {
            assert(results.deep_view() =~= before.push(items.deep_view()[l as int]));
            assert(before.push(items.deep_view()[l as int]) =~= base + items.deep_view().subrange(
                0,
                l as int + 1,
            ));
        }
        l = l + 1;
    }
    proof {
        assert(items.deep_view().subrange(0, stop as int) =~= take_up_to(
            items.deep_view(),
            k as nat,
        ));
    }
}

impl NestedMap {
    /// Appends this node's own history, up to `k` versions, to
    /// `results`.
    fn push_own_hist(&self, k: usize, results: &mut Vec<Item>)
        ensures
            final(results).deep_view() == old(results).deep_view() + take_up_to(
                self.own_hist(),
                k as nat,
            ),
    {
        let mk = marker_string();
        match find_entry(&self.data, &mk) {
            Some(e) => match &e.val {
                NestedValue::Items(items) => {
                    push_take(results, items, k);
                },
                NestedValue::Node(_) => {
                    proof {
                        assert(self.own_hist() =~= Seq::<ItemModel>::empty());
                        assert(final(results).deep_view() =~= old(results).deep_view()
                            + take_up_to(self.own_hist(), k as nat));
                    }
                },
            },
            None => {
                proof {
                    assert(self.own_hist() =~= Seq::<ItemModel>::empty());
                    assert(final(results).deep_view() =~= old(results).deep_view() + take_up_to(
                        self.own_hist(),
                        k as nat,
                    ));
                }
            },
        }
    }

    /// Collects every history strictly below this node (and its own,
    /// unless `skip_current`), depth first, up to `k` versions per
    /// leaf.
    pub(crate) fn collect_all(&self, skip_current: bool, k: usize, results: &mut Vec<Item>)
        ensures
            final(results).deep_view() == old(results).deep_view() + spec_collect(
                *self,
                skip_current,
                k as nat,
            ),
        decreases *self,
    {
        let ghost base = results.deep_view();
        if !skip_current {
            self.push_own_hist(k, results);
        }
        let ghost own_part = results.deep_view();
        let mut j: usize = 0;
        while j < self.data.len()
            invariant
                0 <= j <= self.data@.len(),
                own_part == base + (if skip_current {
                    Seq::<ItemModel>::empty()
                } else {
                    take_up_to(self.own_hist(), k as nat)
                }),
                results.deep_view() + spec_collect_children(*self, j as int, k as nat) == own_part
                    + spec_collect_children(*self, 0, k as nat),
            decreases self.data@.len() - j,
        {
            match &self.data[j].val {
                NestedValue::Node(c) => {
                    c.collect_all(false, k, results);
                },
                NestedValue::Items(_) => {},
            }
            j = j + 1;
            proof {
                assert((results.deep_view() + spec_collect_children(*self, j as int, k as nat))
                    =~= (own_part + spec_collect_children(*self, 0, k as nat)));
            }
        }
        proof {
            assert(spec_collect_children(*self, self.data@.len() as int, k as nat)
                =~= Seq::<ItemModel>::empty());
            assert(results.deep_view() =~= results.deep_view() + Seq::<ItemModel>::empty());
            assert(results.deep_view() =~= base + spec_collect(*self, skip_current, k as nat));
        }
    }

    /// Appends everything the pattern `segs[i..]` matches below this
    /// node to `results`.
    pub(crate) fn query_recursive(
        &self,
        segs: &Vec<String>,
        i: usize,
        k: usize,
        results: &mut Vec<Item>,
    )
        requires
            i <= segs@.len(),
        ensures
            final(results).deep_view() == old(results).deep_view() + spec_query(
                *self,
                segs.deep_view().skip(i as int),
                k as nat,
            ),
        decreases *self, segs@.len() - i,
    {
        let ghost dv = segs.deep_view();
        let ghost pat = dv.skip(i as int);
        let ghost base = results.deep_view();
        if i == segs.len() {
            proof {
                assert(pat =~= Seq::<Seq<char>>::empty());
            }
            self.push_own_hist(k, results);
            return ;
        }
        let ghost pat1 = dv.skip(i as int + 1);
        proof {
            assert(pat.len() > 0);
            assert(pat[0] == dv[i as int]);
            assert(dv[i as int] == segs@[i as int]@);
            assert(pat.drop_first() =~= pat1);
        }
        let wc = wildcard_string();
        let co = collector_string();
        if segs[i] == wc {
            let mut j: usize = 0;
            while j < self.data.len()
                invariant
                    0 <= j <= self.data@.len(),
                    i < segs@.len() <= usize::MAX,
                    pat1 == segs.deep_view().skip(i as int + 1),
                    results.deep_view() + spec_query_children(*self, j as int, pat1, k as nat)
                        == base + spec_query_children(*self, 0, pat1, k as nat),
                decreases self.data@.len() - j,
            {
                match &self.data[j].val {
                    NestedValue::Node(c) => {
                        c.query_recursive(segs, i + 1, k, results);
                    },
                    NestedValue::Items(_) => {},
                }
                j = j + 1;
                proof {
                    assert((results.deep_view() + spec_query_children(
                        *self,
                        j as int,
                        pat1,
                        k as nat,
                    )) =~= (base + spec_query_children(*self, 0, pat1, k as nat)));
                }
            }
            proof {
                assert(spec_query_children(*self, self.data@.len() as int, pat1, k as nat)
                    =~= Seq::<ItemModel>::empty());
                assert(results.deep_view() =~= results.deep_view() + Seq::<ItemModel>::empty());
                assert(results.deep_view() =~= base + spec_query(*self, pat, k as nat));
            }
        } else if segs[i] == co {
            self.collect_all(true, k, results);
        } else {
            match find_entry(&self.data, &segs[i]) {
                Some(e) => match &e.val {
                    NestedValue::Node(c) => {
                        c.query_recursive(segs, i + 1, k, results);
                    },
                    NestedValue::Items(_) => {
                        proof {
                            assert(results.deep_view() =~= base + spec_query(
                                *self,
                                pat,
                                k as nat,
                            ));
                        }
                    },
                },
                None => {
                    proof {
                        assert(results.deep_view() =~= base + spec_query(*self, pat, k as nat));
                    }
                },
            }
        }
    }

    /// Returns every version the pattern `keys` matches, each leaf
    /// contributing its newest versions first, leaves in depth-first
    /// binding order.
    pub fn query(&self, keys: &str, options: Option<GetOptions>) -> (r: Vec<Item>)
        ensures
            r.deep_view() == spec_query(*self, spec_split(keys@), effective_history(options)),
    {
        let k: usize = match &options {
            Some(o) => if o.history_count == 0 {
                1
            } else {
                o.history_count
            },
            None => 1,
        };
        let segs = split_path(keys);
        let mut results: Vec<Item> = Vec::new();
        proof {
            assert(segs.deep_view().skip(0) =~= segs.deep_view());
        }
        self.query_recursive(&segs, 0, k, &mut results);
        proof {
            assert(results.deep_view() =~= spec_query(
                *self,
                spec_split(keys@),
                effective_history(options),
            ));
        }
        results
    }
}

} // verus!
