//! Sorting nodes by size, largest first, ties in their original order.

use vstd::prelude::*;
use crate::tree::node::TreeNode;
use vstd::multiset::Multiset;

verus! {

broadcast use vstd::seq_lib::group_to_multiset_ensures, vstd::multiset::group_multiset_axioms;

/// A node with its sort key (its total size) and its position before the sort.
pub struct Keyed {
    pub key: u64,
    pub index: usize,
    pub node: TreeNode,
}

/// `a` may come before `b`: a larger key, or the same key and an earlier position.
pub open spec fn keyed_le(a: Keyed, b: Keyed) -> bool {
    a.key > b.key || (a.key == b.key && a.index <= b.index)
}

/// Sorted by key descending, then by position.
pub open spec fn sorted_keyed(s: Seq<Keyed>) -> bool {
    forall|i: int, j: int| 0 <= i < j < s.len() ==> keyed_le(s[i], s[j])
}

/// Sorted the other way round.
pub open spec fn sorted_keyed_reversed(s: Seq<Keyed>) -> bool {
    forall|i: int, j: int| 0 <= i < j < s.len() ==> keyed_le(s[j], s[i])
}

/// The elements of `v` in reverse order.
pub(crate) fn reversed(v: Vec<Keyed>) -> (r: Vec<Keyed>)
    ensures
        r@ == v@.reverse(),
{
    let ghost orig = v@;
    let n: usize = v.len();
    let mut v = v;
    let mut r: Vec<Keyed> = Vec::new();
    while v.len() > 0
        invariant
            n == orig.len(),
            v@ == orig.subrange(0, v@.len() as int),
            r@.len() == n - v@.len(),
            forall|i: int| 0 <= i < r@.len() ==> r@[i] == orig[n - 1 - i],
        decreases v@.len(),
    {
        let x: Keyed = v.pop().unwrap();
        r.push(x);
    }
    proof {
        assert(r@ =~= orig.reverse());
    }
    r
}

/// Merges two sorted sequences.
fn merge(left: Vec<Keyed>, right: Vec<Keyed>) -> (r: Vec<Keyed>)
    requires
        sorted_keyed(left@),
        sorted_keyed(right@),
    ensures
        sorted_keyed(r@),
        r@.to_multiset() == left@.to_multiset().add(right@.to_multiset()),
{
    proof {
        left@.lemma_reverse_to_multiset();
        right@.lemma_reverse_to_multiset();
    }
    let mut a: Vec<Keyed> = reversed(left);
    let mut b: Vec<Keyed> = reversed(right);
    let mut out: Vec<Keyed> = Vec::new();
    let ghost total = left@.to_multiset().add(right@.to_multiset());
    while a.len() > 0 || b.len() > 0
        invariant
            sorted_keyed_reversed(a@),
            sorted_keyed_reversed(b@),
            sorted_keyed(out@),
            out@.len() > 0 ==> forall|j: int| 0 <= j < a@.len() ==> keyed_le(out@.last(), #[trigger] a@[j]),
            out@.len() > 0 ==> forall|j: int| 0 <= j < b@.len() ==> keyed_le(out@.last(), #[trigger] b@[j]),
            out@.to_multiset().add(a@.to_multiset()).add(b@.to_multiset()) == total,
        decreases a@.len() + b@.len(),
    {
        let take_a: bool = if a.len() == 0 {
            false
        } else if b.len() == 0 {
            true
        } else {
            let x: &Keyed = &a[a.len() - 1];
            let y: &Keyed = &b[b.len() - 1];
            x.key > y.key || (x.key == y.key && x.index <= y.index)
        };
        let ghost a0 = a@;
        let ghost b0 = b@;
        let ghost out0 = out@;
        let x: Keyed = if take_a {
            a.pop().unwrap()
        } else {
            b.pop().unwrap()
        };
        proof {
            if take_a {
                assert(a0 =~= a@.push(x));
                assert(b0 == b@);
                assert forall|j: int| 0 <= j < a@.len() implies keyed_le(x, #[trigger] a@[j]) by {
                    assert(a@[j] == a0[j]);
                }
                assert forall|j: int| 0 <= j < b@.len() implies keyed_le(x, #[trigger] b@[j]) by {
                    assert(b@[j] == b0[j]);
                    assert(j == b0.len() - 1 || keyed_le(b0.last(), b0[j]));
                    assert(keyed_le(x, b0.last()));
                }
            } else {
                assert(b0 =~= b@.push(x));
                assert(a0 == a@);
                assert forall|j: int| 0 <= j < b@.len() implies keyed_le(x, #[trigger] b@[j]) by {
                    assert(b@[j] == b0[j]);
                }
                assert forall|j: int| 0 <= j < a@.len() implies keyed_le(x, #[trigger] a@[j]) by {
                    assert(a@[j] == a0[j]);
                    assert(j == a0.len() - 1 || keyed_le(a0.last(), a0[j]));
                    assert(keyed_le(x, a0.last()));
                }
            }
        }
        out.push(x);
        proof {
            assert(out@.last() == x);
            assert forall|i: int, j: int| 0 <= i < j < out@.len() implies keyed_le(out@[i], out@[j]) by {
                if j < out@.len() - 1 {
                    assert(out@[i] == out0[i] && out@[j] == out0[j]);
                } else {
                    assert(out@[i] == out0[i]);
                    if take_a {
                        assert(keyed_le(out0[i], out0.last()) || i == out0.len() - 1);
                        assert(keyed_le(out0.last(), a0.last()));
                    } else {
                        assert(keyed_le(out0[i], out0.last()) || i == out0.len() - 1);
                        assert(keyed_le(out0.last(), b0.last()));
                    }
                }
            }
            assert(out@ =~= out0.push(x));
        }
    }
    proof {
        assert(a@.to_multiset() =~= Multiset::empty());
        assert(b@.to_multiset() =~= Multiset::empty());
    }
    out
}

/// Sorts by key descending, ties by position: merge sort.
pub fn sort_keyed(v: Vec<Keyed>) -> (r: Vec<Keyed>)
    ensures
        sorted_keyed(r@),
        r@.to_multiset() == v@.to_multiset(),
    decreases v@.len(),
{
    let n: usize = v.len();
    if n <= 1 {
        return v;
    }
    let mut left: Vec<Keyed> = v;
    let ghost orig = left@;
    let right: Vec<Keyed> = left.split_off(n / 2);
    proof {
        assert(orig =~= left@ + right@);
        vstd::seq_lib::lemma_multiset_commutative(left@, right@);
    }
    let left: Vec<Keyed> = sort_keyed(left);
    let right: Vec<Keyed> = sort_keyed(right);
    merge(left, right)
}


/// `p` lists each of `0..n` exactly once.
pub open spec fn is_permutation(p: Seq<int>, n: int) -> bool {
    &&& p.len() == n
    &&& forall|i: int| 0 <= i < p.len() ==> 0 <= #[trigger] p[i] < n
    &&& forall|i: int, j: int| 0 <= i < j < p.len() ==> p[i] != p[j]
}

/// `p` orders `s` by total size, largest first, nodes of the same size in their
/// order in `s` (a stable sort).
pub open spec fn size_order(s: Seq<TreeNode>, p: Seq<int>) -> bool {
    &&& is_permutation(p, s.len() as int)
    &&& forall|i: int, j: int|
        0 <= i < j < p.len() ==> s[p[i]].total_size > s[p[j]].total_size || (s[p[i]].total_size
            == s[p[j]].total_size && p[i] < p[j])
}

/// The nodes of `s`, each with its size and its position.
pub open spec fn keyed_from(s: Seq<TreeNode>, k: Keyed) -> bool {
    &&& 0 <= k.index < s.len()
    &&& k.node == s[k.index as int]
    &&& k.key == s[k.index as int].total_size
}

/// Positions of a sorted sequence of keyed nodes.
pub open spec fn positions(s: Seq<Keyed>) -> Seq<int> {
    Seq::new(s.len(), |i: int| s[i].index as int)
}

/// Sorting the nodes of `s`, each keyed once with its position, gives them in size order.
pub proof fn lemma_sorted_is_size_order(s: Seq<TreeNode>, keyed: Seq<Keyed>, sorted: Seq<Keyed>)
    requires
        keyed.len() == s.len(),
        forall|k: int| 0 <= k < keyed.len() ==> keyed_from(s, #[trigger] keyed[k]),
        forall|a: int, b: int| 0 <= a < b < keyed.len() ==> keyed[a].index != keyed[b].index,
        sorted.to_multiset() == keyed.to_multiset(),
        sorted_keyed(sorted),
    ensures
        size_order(s, positions(sorted)),
        forall|i: int| 0 <= i < sorted.len() ==> keyed_from(s, #[trigger] sorted[i]),
{
    let p = positions(sorted);
    assert(sorted.len() == keyed.len()) by {
        vstd::seq_lib::to_multiset_len(sorted);
        vstd::seq_lib::to_multiset_len(keyed);
    }
    assert forall|i: int| 0 <= i < sorted.len() implies keyed_from(s, #[trigger] sorted[i]) by {
        assert(sorted.contains(sorted[i]));
        vstd::seq_lib::to_multiset_contains(sorted, sorted[i]);
        vstd::seq_lib::to_multiset_contains(keyed, sorted[i]);
        let k = choose|k: int| 0 <= k < keyed.len() && keyed[k] == sorted[i];
        assert(keyed_from(s, keyed[k]));
    }
    assert(keyed.no_duplicates()) by {
        assert forall|a: int, b: int| 0 <= a < keyed.len() && 0 <= b < keyed.len() && a != b
            implies keyed[a] != keyed[b] by {
            if a < b {
                assert(keyed[a].index != keyed[b].index);
            } else {
                assert(keyed[b].index != keyed[a].index);
            }
        }
    }
    keyed.lemma_multiset_has_no_duplicates();
    sorted.lemma_multiset_has_no_duplicates_conv();
    assert forall|i: int, j: int| 0 <= i < j < p.len() implies p[i] != p[j] by {
        if p[i] == p[j] {
            assert(keyed_from(s, sorted[i]));
            assert(keyed_from(s, sorted[j]));
            assert(sorted[i] == sorted[j]);
        }
    }
    assert forall|i: int, j: int| 0 <= i < j < p.len() implies s[p[i]].total_size > s[p[j]].total_size
        || (s[p[i]].total_size == s[p[j]].total_size && p[i] < p[j]) by {
        assert(keyed_le(sorted[i], sorted[j]));
        assert(keyed_from(s, sorted[i]));
        assert(keyed_from(s, sorted[j]));
        assert(p[i] != p[j]);
    }
}
} // verus!
