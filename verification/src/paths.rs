use vstd::prelude::*;

verus! {

/// Index of the first `.` in `s`, or `s.len()` when `s` holds none.
pub open spec fn first_dot(s: Seq<char>) -> int
    decreases s.len(),
{
    if s.len() == 0 {
        0
    } else if s[0] == '.' {
        0
    } else {
        1 + first_dot(s.drop_first())
    }
}

pub proof fn lemma_first_dot(s: Seq<char>)
    ensures
        0 <= first_dot(s) <= s.len(),
        forall|j: int| 0 <= j < first_dot(s) ==> s[j] != '.',
        first_dot(s) < s.len() ==> s[first_dot(s)] == '.',
    decreases s.len(),
{
    if s.len() != 0 && s[0] != '.' {
        lemma_first_dot(s.drop_first());
        assert forall|j: int| 0 <= j < first_dot(s) implies s[j] != '.' by {
            if j > 0 {
                assert(s.drop_first()[j - 1] != '.');
            }
        }
        if first_dot(s) < s.len() {
            assert(s.drop_first()[first_dot(s.drop_first())] == '.');
        }
    }
}

/// `first_dot` is pinned by its characterization: everything before `k`
/// is dot-free and `k` itself (if in range) is a dot.
pub proof fn lemma_first_dot_at(s: Seq<char>, k: int)
    requires
        0 <= k <= s.len(),
        forall|j: int| 0 <= j < k ==> s[j] != '.',
        k < s.len() ==> s[k] == '.',
    ensures
        first_dot(s) == k,
    decreases s.len(),
{
    if s.len() != 0 && s[0] != '.' {
        assert(forall|j: int| 0 <= j < k - 1 ==> s.drop_first()[j] != '.');
        lemma_first_dot_at(s.drop_first(), k - 1);
    }
}

/// The segments of `s`, split on `.`.  The empty string has one empty
/// segment; a leading, trailing or doubled delimiter yields an empty
/// segment in place.
pub open spec fn spec_split(s: Seq<char>) -> Seq<Seq<char>>
    decreases s.len(),
{
    let fd = first_dot(s);
    if 0 <= fd < s.len() {
        seq![s.subrange(0, fd)] + spec_split(s.subrange(fd + 1, s.len() as int))
    } else {
        seq![s]
    }
}

/// Splits `s` into its `.`-separated segments.
pub fn split_path(s: &str) -> (r: Vec<String>)
    ensures
        r.deep_view() == spec_split(s@),
        r.len() >= 1,
    decreases s@.len(),
{
    let len = s.unicode_len();
    let mut i: usize = 0;
    while i < len && s.get_char(i) != '.'
        invariant
            0 <= i <= len,
            len == s@.len(),
            forall|j: int| 0 <= j < i ==> s@[j] != '.',
        decreases len - i,
    {
        i = i + 1;
    }
    proof {
        lemma_first_dot_at(s@, i as int);
    }
    if i == len {
        let mut r: Vec<String> = Vec::new();
        r.push(s.to_owned());
        proof {
            assert(r.deep_view() =~= spec_split(s@));
        }
        r
    } else {
        let head = s.substring_char(0, i);
        let rest = s.substring_char(i + 1, len);
        let mut tail = split_path(rest);
        let ghost tail_snap = tail.deep_view();
        let mut r: Vec<String> = Vec::new();
        r.push(head.to_owned());
        r.append(&mut tail);
        proof {
            assert(r.deep_view() =~= seq![s@.subrange(0, i as int)] + tail_snap);
            assert(r.deep_view() =~= spec_split(s@));
        }
        r
    }
}

} // verus!
