//! Strictly sorted sequences of vertex indices: the representation invariant
//! of every neighbor set, and the membership test used throughout.

use vstd::prelude::*;

verus! {

/// A sequence is strictly ascending: no duplicates, sorted.
pub open spec fn sorted_strict(s: Seq<u16>) -> bool {
    forall|i: int, j: int| 0 <= i < j < s.len() ==> s[i] < s[j]
}

/// In a strictly ascending sequence the entry at position k is at least k.
pub proof fn lemma_sorted_entry_at_least(s: Seq<u16>, k: int)
    requires
        sorted_strict(s),
        0 <= k < s.len(),
    ensures
        s[k] as int >= k,
    decreases k,
{
    if k > 0 {
        lemma_sorted_entry_at_least(s, k - 1);
    }
}

/// A strictly ascending sequence whose entries are below `bound` has at most
/// `bound` entries.
pub proof fn lemma_sorted_len_bound(s: Seq<u16>, bound: int)
    requires
        sorted_strict(s),
        0 <= bound,
        forall|k: int| 0 <= k < s.len() ==> ((#[trigger] s[k]) as int) < bound,
    ensures
        s.len() <= bound,
{
    if s.len() > 0 {
        lemma_sorted_entry_at_least(s, s.len() - 1);
        assert((s[s.len() - 1] as int) < bound);
    }
}

/// Pushing an element extends membership by exactly that element.
pub proof fn lemma_push_contains(s: Seq<u16>, x: u16)
    ensures
        forall|y: u16| #[trigger] s.push(x).contains(y) <==> s.contains(y) || y == x,
{
    assert forall|y: u16| #[trigger] s.push(x).contains(y) implies s.contains(y) || y == x by {
        let t = choose|t: int| 0 <= t < s.push(x).len() && s.push(x)[t] == y;
        if t < s.len() {
            assert(s[t] == y);
        }
    }
    assert forall|y: u16| s.contains(y) || y == x implies #[trigger] s.push(x).contains(y) by {
        if s.contains(y) {
            let t = choose|t: int| 0 <= t < s.len() && s[t] == y;
            assert(s.push(x)[t] == y);
        } else {
            assert(s.push(x)[s.len() as int] == y);
        }
    }
}

/// Two strictly ascending sequences with the same members are the same
/// sequence.
pub proof fn lemma_sorted_eq_by_membership(s: Seq<u16>, t: Seq<u16>)
    requires
        sorted_strict(s),
        sorted_strict(t),
        forall|v: u16| s.contains(v) <==> t.contains(v),
    ensures
        s == t,
    decreases s.len(),
{
    if s.len() == 0 {
        if t.len() > 0 {
            assert(t.contains(t[0]));
            assert(s.contains(t[0]));
            assert(false);
        }
        assert(s =~= t);
    } else {
        assert(s.contains(s[0]));
        assert(t.contains(s[0]));
        if t.len() == 0 {
            assert(false);
        }
        assert(s[0] == t[0]) by {
            let k = choose|k: int| 0 <= k < t.len() && t[k] == s[0];
            assert(t[0] <= t[k]);
            assert(t.contains(t[0]));
            assert(s.contains(t[0]));
            let j = choose|j: int| 0 <= j < s.len() && s[j] == t[0];
            assert(s[0] <= s[j]);
        }
        let s1 = s.subrange(1, s.len() as int);
        let t1 = t.subrange(1, t.len() as int);
        assert forall|v: u16| s1.contains(v) implies s.contains(v) && v != s[0] by {
            let k = choose|k: int| 0 <= k < s1.len() && s1[k] == v;
            assert(s[k + 1] == v);
            assert(s[0] < s[k + 1]);
        }
        assert forall|v: u16| s.contains(v) && v != s[0] implies s1.contains(v) by {
            let k = choose|k: int| 0 <= k < s.len() && s[k] == v;
            assert(k != 0);
            assert(s1[k - 1] == v);
        }
        assert forall|v: u16| t1.contains(v) implies t.contains(v) && v != t[0] by {
            let k = choose|k: int| 0 <= k < t1.len() && t1[k] == v;
            assert(t[k + 1] == v);
            assert(t[0] < t[k + 1]);
        }
        assert forall|v: u16| t.contains(v) && v != t[0] implies t1.contains(v) by {
            let k = choose|k: int| 0 <= k < t.len() && t[k] == v;
            assert(k != 0);
            assert(t1[k - 1] == v);
        }
        lemma_sorted_eq_by_membership(s1, t1);
        assert forall|idx: int| 0 <= idx < s.len() implies s[idx] == t[idx] by {
            if idx > 0 {
                assert(s1[idx - 1] == t1[idx - 1]);
            }
        }
        assert(s =~= t);
    }
}

/// Binary search for `v` in a strictly ascending vector, returning its
/// position when present.
pub fn find_in_sorted(s: &Vec<u16>, v: u16) -> (r: Option<usize>)
    requires
        sorted_strict(s@),
    ensures
        r is Some <==> s@.contains(v),
        r matches Some(i) ==> i < s@.len() && s@[i as int] == v,
{
    let mut lo: usize = 0;
    let mut hi: usize = s.len();
    while lo < hi
        invariant
            lo <= hi <= s@.len(),
            sorted_strict(s@),
            forall|k: int| 0 <= k < lo ==> (#[trigger] s@[k]) < v,
            forall|k: int| hi <= k < s@.len() ==> (#[trigger] s@[k]) > v,
        decreases hi - lo,
    {
        let mid: usize = lo + (hi - lo) / 2;
        if s[mid] < v {
            lo = mid + 1;
        } else if s[mid] > v {
            hi = mid;
        } else {
            assert(s@.contains(v)) by {
                assert(s@[mid as int] == v);
            }
            return Some(mid);
        }
    }
    assert(!s@.contains(v)) by {
        assert(forall|k: int| 0 <= k < s@.len() ==> (#[trigger] s@[k]) != v);
    }
    None
}

} // verus!
