use vstd::prelude::*;

verus! {

/// A pending expiration: at `expires_at` (milliseconds since the Unix
/// epoch) the version of `key` written under `id` is to be removed.
pub struct ExpirationEntry {
    pub id: i64,
    pub key: String,
    pub expires_at: u64,
}

/// The mathematical value of an [`ExpirationEntry`].
pub ghost struct ExpirationModel {
    pub id: int,
    pub key: Seq<char>,
    pub expires_at: int,
}

impl View for ExpirationEntry {
    type V = ExpirationModel;

    open spec fn view(&self) -> ExpirationModel {
        ExpirationModel { id: self.id as int, key: self.key@, expires_at: self.expires_at as int }
    }
}

impl DeepView for ExpirationEntry {
    type V = ExpirationModel;

    open spec fn deep_view(&self) -> ExpirationModel {
        self.view()
    }
}

/// The order of expiration records: by deadline, ties broken by id so
/// that popping is deterministic.
pub open spec fn exp_le(a: ExpirationModel, b: ExpirationModel) -> bool {
    a.expires_at < b.expires_at || (a.expires_at == b.expires_at && a.id <= b.id)
}

pub open spec fn exp_sorted(s: Seq<ExpirationModel>) -> bool {
    forall|i: int, j: int| 0 <= i < j < s.len() ==> exp_le(#[trigger] s[i], #[trigger] s[j])
}

/// A priority queue of expiration records ordered by deadline: the
/// front record is always the one that expires soonest.
pub struct ExpirationHeap {
    pub entries: Vec<ExpirationEntry>,
}

impl View for ExpirationHeap {
    type V = Seq<ExpirationModel>;

    open spec fn view(&self) -> Seq<ExpirationModel> {
        self.entries.deep_view()
    }
}

impl ExpirationHeap {
    pub open spec fn wf(self) -> bool {
        exp_sorted(self@)
    }

    pub fn new() -> (r: ExpirationHeap)
        ensures
            r.wf(),
            r@ == Seq::<ExpirationModel>::empty(),
    {
        let r = ExpirationHeap { entries: Vec::new() };
        proof {
            assert(r@ =~= Seq::<ExpirationModel>::empty());
        }
        r
    }

    pub fn len(&self) -> (r: usize)
        ensures
            r == self@.len(),
    {
        self.entries.len()
    }

    /// The record that expires soonest, if any.
    pub fn peek(&self) -> (r: Option<&ExpirationEntry>)
        ensures
            match r {
                Some(e) => self@.len() > 0 && e@ == self@[0],
                None => self@.len() == 0,
            },
    {
        if self.entries.len() > 0 {
            Some(&self.entries[0])
        } else {
            None
        }
    }

    /// Removes and returns the record that expires soonest.
    pub fn pop(&mut self) -> (r: Option<ExpirationEntry>)
        requires
            old(self).wf(),
        ensures
            final(self).wf(),
            match r {
                Some(e) => old(self)@.len() > 0 && e@ == old(self)@[0] && final(self)@ == old(
                    self,
                )@.drop_first(),
                None => old(self)@.len() == 0 && final(self)@ == old(self)@,
            },
    {
        if self.entries.len() > 0 {
            let e = self.entries.remove(0);
            proof {
                assert(self@ =~= old(self)@.drop_first());
            }
            Some(e)
        } else {
            None
        }
    }

    /// Inserts a record, keeping the queue ordered by deadline.
    pub fn push(&mut self, e: ExpirationEntry)
        requires
            old(self).wf(),
        ensures
            final(self).wf(),
            exists|pos: int|
                0 <= pos <= old(self)@.len() && final(self)@ == old(self)@.insert(pos, e@),
    {
        let ghost pre = self@;
        let ghost em = e@;
        let mut pos: usize = 0;
        while pos < self.entries.len() && (self.entries[pos].expires_at < e.expires_at || (
        self.entries[pos].expires_at == e.expires_at && self.entries[pos].id <= e.id))
            invariant
                0 <= pos <= self@.len(),
                self@ == pre,
                em == e@,
                exp_sorted(pre),
                forall|l: int| 0 <= l < pos ==> exp_le(#[trigger] pre[l], em),
            decreases self@.len() - pos,
        {
            pos = pos + 1;
        }
        proof {
            if (pos as int) < pre.len() {
                assert(!exp_le(pre[pos as int], em));
            }
        }
        self.entries.insert(pos, e);
        proof {
            let post = self@;
            assert(post =~= pre.insert(pos as int, em));
            assert(exp_sorted(post)) by {
                assert forall|i: int, j: int| 0 <= i < j < post.len() implies exp_le(
                    #[trigger] post[i],
                    #[trigger] post[j],
                ) by {
                    if i < pos && j == pos {
                        assert(post[i] == pre[i]);
                    } else if i == pos && j > pos {
                        assert(post[j] == pre[j - 1]);
                        if (pos as int) < pre.len() {
                            assert(!exp_le(pre[pos as int], em));
                            assert(exp_le(pre[pos as int], pre[j - 1]) || pos as int == j - 1);
                        }
                    } else if i < pos && j > pos {
                        assert(post[i] == pre[i]);
                        assert(post[j] == pre[j - 1]);
                    } else if i > pos && j > pos {
                        assert(post[i] == pre[i - 1]);
                        assert(post[j] == pre[j - 1]);
                    } else {
                        assert(post[i] == pre[i]);
                        assert(post[j] == pre[j]);
                    }
                }
            }
        }
    }
}

/// The queue's front is never later than any pending record: the
/// minimum deadline bounds every deadline in the system.
pub proof fn lemma_front_is_min(h: ExpirationHeap)
    requires
        h.wf(),
        h@.len() > 0,
    ensures
        forall|l: int| 0 <= l < h@.len() ==> h@[0].expires_at <= (#[trigger] h@[l]).expires_at,
{
    assert forall|l: int| 0 <= l < h@.len() implies h@[0].expires_at <= (
    #[trigger] h@[l]).expires_at by {
        if l > 0 {
            assert(exp_le(h@[0], h@[l]));
        }
    }
}

} // verus!
