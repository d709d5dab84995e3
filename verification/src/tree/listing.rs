//! What the tree view shows of a node: its line of text and the order of the
//! columns.

use vstd::prelude::*;
use vstd::multiset::Multiset;
use crate::text::{decimal, lowercase_bytes, lowercase_bytes_of, push_decimal, push_str};
use crate::tree::sort::is_permutation;
use crate::tree::builder::lemma_permutation_onto;
use crate::tree::node::{depth_below, lemma_depth_below_element, lemma_path_exactly_where_node, spec_node_at, spec_path_of, TreeNode};
use std::collections::HashSet;
use crate::tree::size_text::{format_size, spec_format_size};

verus! {

/// A column of the tree view.
#[derive(Debug, Clone, Copy, PartialEq, Eq, Structural)]
pub enum SortColumn {
    Name,
    Size,
}

/// The order of the tree view: a column and a direction.
#[derive(Debug, Clone, Copy, PartialEq, Eq, Structural)]
pub struct SortOrder {
    pub column: SortColumn,
    pub descending: bool,
}

impl SortOrder {
    /// The first choice for a column: sizes descending (the order of the tree
    /// itself), names ascending.
    pub fn default_for(column: SortColumn) -> (r: Self)
        ensures
            r.column == column,
            r.descending == (column == SortColumn::Size),
    {
        SortOrder { column, descending: column == SortColumn::Size }
    }
}

/// The hover text of a node: its path and size, for a directory also the number
/// of its files.
pub open spec fn description(node: TreeNode, path: Seq<char>) -> Seq<char> {
    if node.is_directory {
        path + " - "@ + spec_format_size(node.total_size) + " ("@ + decimal(node.file_count as nat)
            + " Dateien)"@
    } else {
        path + " - "@ + spec_format_size(node.total_size)
    }
}

/// The hover text of the node a chain of ids leads to from `tree`; `None` where
/// the chain leads nowhere.
pub fn describe(tree: &TreeNode, chain: &[u64]) -> (r: Option<String>)
    ensures
        match (spec_node_at(*tree, chain@), spec_path_of(*tree, chain@)) {
            (Some(node), Some(path)) => r matches Some(text) && text@ == description(node, path),
            _ => r is None,
        },
{
    proof {
        lemma_path_exactly_where_node(*tree, chain@);
    }
    let node = match tree.node_at(chain) {
        Some(n) => n,
        None => {
            return None;
        },
    };
    let mut text = match tree.path_of(chain) {
        Some(p) => p,
        None => {
            return None;
        },
    };
    push_str(&mut text, " - ");
    let size = format_size(node.total_size);
    push_str(&mut text, size.as_str());
    if node.is_directory {
        push_str(&mut text, " (");
        push_decimal(&mut text, node.file_count as u128);
        push_str(&mut text, " Dateien)");
    }
    Some(text)
}

broadcast use vstd::seq_lib::group_to_multiset_ensures, vstd::multiset::group_multiset_axioms,
    vstd::std_specs::hash::group_hash_axioms;

// ---------------------------------------------------------------------------
// Ordering by name
// ---------------------------------------------------------------------------

/// `a` comes strictly before `b` in lexicographic byte order (the order of
/// strings).
pub open spec fn bytes_before(a: Seq<u8>, b: Seq<u8>) -> bool
    decreases a.len(),
{
    if a.len() == 0 {
        b.len() > 0
    } else if b.len() == 0 {
        false
    } else if a[0] != b[0] {
        a[0] < b[0]
    } else {
        bytes_before(a.drop_first(), b.drop_first())
    }
}

/// The byte order is a strict total order: never both ways, and one way for
/// different sequences.
pub proof fn lemma_bytes_before_total(a: Seq<u8>, b: Seq<u8>)
    ensures
        !(bytes_before(a, b) && bytes_before(b, a)),
        a != b ==> bytes_before(a, b) || bytes_before(b, a),
    decreases a.len(),
{
    if a.len() > 0 && b.len() > 0 && a[0] == b[0] {
        lemma_bytes_before_total(a.drop_first(), b.drop_first());
        if a != b {
            assert(a.drop_first() != b.drop_first()) by {
                if a.drop_first() == b.drop_first() {
                    assert(a =~= seq![a[0]] + a.drop_first());
                    assert(b =~= seq![b[0]] + b.drop_first());
                }
            }
        }
    } else if a.len() == 0 && b.len() == 0 {
        assert(a =~= b);
    }
}

/// The byte order is transitive.
pub proof fn lemma_bytes_before_transitive(a: Seq<u8>, b: Seq<u8>, c: Seq<u8>)
    requires
        bytes_before(a, b),
        bytes_before(b, c),
    ensures
        bytes_before(a, c),
    decreases a.len(),
{
    if a.len() > 0 && b.len() > 0 && c.len() > 0 && a[0] == b[0] && b[0] == c[0] {
        lemma_bytes_before_transitive(a.drop_first(), b.drop_first(), c.drop_first());
    }
}

/// A child's sort key by name and its position among the children.
pub struct NameKey {
    pub key: Vec<u8>,
    pub index: usize,
}

/// `a` may come before `b`: an earlier key, or the same key and an earlier position.
pub open spec fn name_le(a: NameKey, b: NameKey) -> bool {
    bytes_before(a.key@, b.key@) || (a.key@ == b.key@ && a.index <= b.index)
}

proof fn lemma_name_le_transitive(a: NameKey, b: NameKey, c: NameKey)
    requires
        name_le(a, b),
        name_le(b, c),
    ensures
        name_le(a, c),
{
    if bytes_before(a.key@, b.key@) && bytes_before(b.key@, c.key@) {
        lemma_bytes_before_transitive(a.key@, b.key@, c.key@);
    }
}

proof fn lemma_name_le_total(a: NameKey, b: NameKey)
    ensures
        name_le(a, b) || name_le(b, a),
{
    lemma_bytes_before_total(a.key@, b.key@);
}

/// Sorted by key, then by position.
pub open spec fn sorted_named(s: Seq<NameKey>) -> bool {
    forall|i: int, j: int| 0 <= i < j < s.len() ==> name_le(s[i], s[j])
}

/// Sorted the other way round.
pub open spec fn sorted_named_reversed(s: Seq<NameKey>) -> bool {
    forall|i: int, j: int| 0 <= i < j < s.len() ==> name_le(s[j], s[i])
}

fn reversed_named(v: Vec<NameKey>) -> (r: Vec<NameKey>)
    ensures
        r@ == v@.reverse(),
{
    let ghost orig = v@;
    let n: usize = v.len();
    let mut v = v;
    let mut r: Vec<NameKey> = Vec::new();
    while v.len() > 0
        invariant
            n == orig.len(),
            v@ == orig.subrange(0, v@.len() as int),
            r@.len() == n - v@.len(),
            forall|i: int| 0 <= i < r@.len() ==> r@[i] == orig[n - 1 - i],
        decreases v@.len(),
    {
        let x: NameKey = v.pop().unwrap();
        r.push(x);
    }
    proof {
        assert(r@ =~= orig.reverse());
    }
    r
}

/// Whether `a` comes strictly before `b` in byte order.
fn bytes_less(a: &[u8], b: &[u8]) -> (r: bool)
    ensures
        r == bytes_before(a@, b@),
{
    let mut i: usize = 0;
    proof {
        assert(a@.skip(0) =~= a@);
        assert(b@.skip(0) =~= b@);
    }
    while i < a.len() && i < b.len()
        invariant
            i <= a@.len(),
            i <= b@.len(),
            a@.subrange(0, i as int) == b@.subrange(0, i as int),
            bytes_before(a@, b@) == bytes_before(a@.skip(i as int), b@.skip(i as int)),
        decreases a@.len() - i,
    {
        proof {
            assert(a@.skip(i as int).drop_first() =~= a@.skip(i + 1));
            assert(b@.skip(i as int).drop_first() =~= b@.skip(i + 1));
            assert(a@.skip(i as int)[0] == a@[i as int]);
            assert(b@.skip(i as int)[0] == b@[i as int]);
        }
        if a[i] != b[i] {
            return a[i] < b[i];
        }
        proof {
            assert(a@.subrange(0, i + 1) =~= a@.subrange(0, i as int).push(a@[i as int]));
            assert(b@.subrange(0, i + 1) =~= b@.subrange(0, i as int).push(b@[i as int]));
        }
        i = i + 1;
    }
    proof {
        assert(a@.skip(i as int).len() == 0 || b@.skip(i as int).len() == 0);
    }
    i < b.len()
}

/// Whether `a` may come before `b` (see [`name_le`]).
fn name_key_le(a: &NameKey, b: &NameKey) -> (r: bool)
    ensures
        r == name_le(*a, *b),
{
    proof {
        lemma_bytes_before_total(a.key@, b.key@);
    }
    if bytes_less(a.key.as_slice(), b.key.as_slice()) {
        true
    } else if bytes_less(b.key.as_slice(), a.key.as_slice()) {
        false
    } else {
        a.index <= b.index
    }
}

fn merge_named(left: Vec<NameKey>, right: Vec<NameKey>) -> (r: Vec<NameKey>)
    requires
        sorted_named(left@),
        sorted_named(right@),
    ensures
        sorted_named(r@),
        r@.to_multiset() == left@.to_multiset().add(right@.to_multiset()),
{
    proof {
        left@.lemma_reverse_to_multiset();
        right@.lemma_reverse_to_multiset();
    }
    let mut a: Vec<NameKey> = reversed_named(left);
    let mut b: Vec<NameKey> = reversed_named(right);
    let mut out: Vec<NameKey> = Vec::new();
    let ghost total = left@.to_multiset().add(right@.to_multiset());
    while a.len() > 0 || b.len() > 0
        invariant
            sorted_named_reversed(a@),
            sorted_named_reversed(b@),
            sorted_named(out@),
            out@.len() > 0 ==> forall|j: int| 0 <= j < a@.len() ==> name_le(out@.last(), #[trigger] a@[j]),
            out@.len() > 0 ==> forall|j: int| 0 <= j < b@.len() ==> name_le(out@.last(), #[trigger] b@[j]),
            out@.to_multiset().add(a@.to_multiset()).add(b@.to_multiset()) == total,
        decreases a@.len() + b@.len(),
    {
        let take_a: bool = if a.len() == 0 {
            false
        } else if b.len() == 0 {
            true
        } else {
            name_key_le(&a[a.len() - 1], &b[b.len() - 1])
        };
        let ghost a0 = a@;
        let ghost b0 = b@;
        let ghost out0 = out@;
        let x: NameKey = if take_a {
            a.pop().unwrap()
        } else {
            b.pop().unwrap()
        };
        proof {
            if take_a {
                assert(a0 =~= a@.push(x));
                assert(b0 == b@);
                assert forall|j: int| 0 <= j < a@.len() implies name_le(x, #[trigger] a@[j]) by {
                    assert(a@[j] == a0[j]);
                }
                assert forall|j: int| 0 <= j < b@.len() implies name_le(x, #[trigger] b@[j]) by {
                    assert(b@[j] == b0[j]);
                    if j < b0.len() - 1 {
                        assert(name_le(b0.last(), b0[j]));
                        lemma_name_le_transitive(x, b0.last(), b0[j]);
                    }
                }
            } else {
                assert(b0 =~= b@.push(x));
                assert(a0 == a@);
                if a0.len() > 0 {
                    lemma_name_le_total(a0.last(), b0.last());
                }
                assert forall|j: int| 0 <= j < b@.len() implies name_le(x, #[trigger] b@[j]) by {
                    assert(b@[j] == b0[j]);
                }
                assert forall|j: int| 0 <= j < a@.len() implies name_le(x, #[trigger] a@[j]) by {
                    assert(a@[j] == a0[j]);
                    if j < a0.len() - 1 {
                        assert(name_le(a0.last(), a0[j]));
                        lemma_name_le_transitive(x, a0.last(), a0[j]);
                    }
                }
            }
        }
        out.push(x);
        proof {
            assert(out@.last() == x);
            assert forall|i: int, j: int| 0 <= i < j < out@.len() implies name_le(out@[i], out@[j]) by {
                if j < out@.len() - 1 {
                    assert(out@[i] == out0[i] && out@[j] == out0[j]);
                } else {
                    assert(out@[i] == out0[i]);
                    let prev = out0.last();
                    if take_a {
                        assert(name_le(prev, a0.last()));
                    } else {
                        assert(name_le(prev, b0.last()));
                    }
                    if i < out0.len() - 1 {
                        assert(name_le(out0[i], prev));
                        lemma_name_le_transitive(out0[i], prev, x);
                    }
                }
            }
            assert(out@ =~= out0.push(x));
        }
    }
    proof {
        assert(a@.to_multiset() =~= Multiset::empty());
        assert(b@.to_multiset() =~= Multiset::empty());
    }
    out
}

/// Sorts by key, ties by position: merge sort.
fn sort_named(v: Vec<NameKey>) -> (r: Vec<NameKey>)
    ensures
        sorted_named(r@),
        r@.to_multiset() == v@.to_multiset(),
    decreases v@.len(),
{
    let n: usize = v.len();
    if n <= 1 {
        return v;
    }
    let mut left: Vec<NameKey> = v;
    let ghost orig = left@;
    let right: Vec<NameKey> = left.split_off(n / 2);
    proof {
        assert(orig =~= left@ + right@);
        vstd::seq_lib::lemma_multiset_commutative(left@, right@);
    }
    let left: Vec<NameKey> = sort_named(left);
    let right: Vec<NameKey> = sort_named(right);
    merge_named(left, right)
}

/// The sort keys of the children by name: their names in lower case, as bytes.
pub open spec fn name_keys(node: TreeNode) -> Seq<Seq<u8>> {
    Seq::new(node.children@.len(), |i: int| lowercase_bytes_of(node.children@[i].name@))
}

/// Position `x` comes before position `y`: an earlier key, or the same key and
/// an earlier position.
pub open spec fn key_before(keys: Seq<Seq<u8>>, x: int, y: int) -> bool {
    bytes_before(keys[x], keys[y]) || (keys[x] == keys[y] && x < y)
}

/// `p` lists the positions of `keys` sorted by key, equal keys by position (a
/// stable sort).
pub open spec fn name_order(keys: Seq<Seq<u8>>, p: Seq<int>) -> bool {
    &&& is_permutation(p, keys.len() as int)
    &&& forall|i: int, j: int| 0 <= i < j < p.len() ==> key_before(keys, #[trigger] p[i], #[trigger] p[j])
}

/// The order in which the tree view lists the children of `node`: by name (in
/// lower case) or, as the tree is sorted, by size; ascending or descending.
pub open spec fn child_order(node: TreeNode, sort: SortOrder) -> Seq<int> {
    let n = node.children@.len();
    match sort.column {
        SortColumn::Name => {
            let p = choose|p: Seq<int>| name_order(name_keys(node), p);
            if sort.descending {
                p.reverse()
            } else {
                p
            }
        },
        SortColumn::Size => {
            let id = Seq::new(n, |i: int| i);
            if sort.descending {
                id
            } else {
                id.reverse()
            }
        },
    }
}

/// The children of `node` in the order of the tree view.
pub open spec fn ordered(node: TreeNode, sort: SortOrder) -> Seq<TreeNode> {
    let p = child_order(node, sort);
    Seq::new(p.len(), |i: int| node.children@[p[i]])
}

/// Two position lists ordered by key that hold the same positions are equal.
proof fn lemma_key_order_unique(keys: Seq<Seq<u8>>, p: Seq<int>, q: Seq<int>)
    requires
        p.len() == q.len(),
        forall|i: int| 0 <= i < p.len() ==> 0 <= #[trigger] p[i] < keys.len(),
        forall|i: int| 0 <= i < q.len() ==> 0 <= #[trigger] q[i] < keys.len(),
        forall|i: int, j: int| 0 <= i < j < p.len() ==> key_before(keys, #[trigger] p[i], #[trigger] p[j]),
        forall|i: int, j: int| 0 <= i < j < q.len() ==> key_before(keys, #[trigger] q[i], #[trigger] q[j]),
        forall|x: int| p.contains(x) <==> q.contains(x),
    ensures
        p == q,
    decreases p.len(),
{
    if p.len() > 0 {
        assert(p.contains(q[0]));
        assert(q.contains(p[0]));
        let i = choose|i: int| 0 <= i < p.len() && p[i] == q[0];
        let j = choose|j: int| 0 <= j < q.len() && q[j] == p[0];
        if i > 0 && j > 0 {
            assert(key_before(keys, p[0], p[i]));
            assert(key_before(keys, q[0], q[j]));
            lemma_bytes_before_total(keys[p[0]], keys[q[0]]);
            assert(false);
        }
        assert(p[0] == q[0]);
        let x0 = p[0];
        let pr = p.drop_first();
        let qr = q.drop_first();
        assert forall|x: int| pr.contains(x) <==> qr.contains(x) by {
            if pr.contains(x) {
                let a = choose|a: int| 0 <= a < pr.len() && pr[a] == x;
                assert(p[a + 1] == x);
                assert(key_before(keys, p[0], p[a + 1]));
                assert(x != x0) by {
                    lemma_bytes_before_total(keys[x], keys[x]);
                }
                assert(p.contains(x));
                let b = choose|b: int| 0 <= b < q.len() && q[b] == x;
                assert(b != 0);
                assert(qr[b - 1] == x);
            }
            if qr.contains(x) {
                let a = choose|a: int| 0 <= a < qr.len() && qr[a] == x;
                assert(q[a + 1] == x);
                assert(key_before(keys, q[0], q[a + 1]));
                assert(x != x0) by {
                    lemma_bytes_before_total(keys[x], keys[x]);
                }
                assert(q.contains(x));
                let b = choose|b: int| 0 <= b < p.len() && p[b] == x;
                assert(b != 0);
                assert(pr[b - 1] == x);
            }
        }
        assert forall|i: int, j: int| 0 <= i < j < pr.len() implies key_before(keys, #[trigger] pr[i], #[trigger] pr[j]) by {
            assert(pr[i] == p[i + 1] && pr[j] == p[j + 1]);
        }
        assert forall|i: int, j: int| 0 <= i < j < qr.len() implies key_before(keys, #[trigger] qr[i], #[trigger] qr[j]) by {
            assert(qr[i] == q[i + 1] && qr[j] == q[j + 1]);
        }
        lemma_key_order_unique(keys, pr, qr);
        assert(p =~= seq![x0] + pr);
        assert(q =~= seq![x0] + qr);
    } else {
        assert(p =~= q);
    }
}

/// There is at most one order of the children by name.
pub proof fn lemma_name_order_unique(keys: Seq<Seq<u8>>, p: Seq<int>, q: Seq<int>)
    requires
        name_order(keys, p),
        name_order(keys, q),
    ensures
        p == q,
{
    lemma_permutation_onto(p, keys.len() as int);
    lemma_permutation_onto(q, keys.len() as int);
    assert forall|x: int| p.contains(x) <==> q.contains(x) by {
        if p.contains(x) {
            let a = choose|a: int| 0 <= a < p.len() && p[a] == x;
            assert(0 <= p[a] < keys.len());
        }
        if q.contains(x) {
            let a = choose|a: int| 0 <= a < q.len() && q[a] == x;
            assert(0 <= q[a] < keys.len());
        }
    }
    lemma_key_order_unique(keys, p, q);
}

/// A name key stands for child `k.index` with its key.
pub open spec fn name_key_from(keys: Seq<Seq<u8>>, k: NameKey) -> bool {
    0 <= k.index < keys.len() && k.key@ == keys[k.index as int]
}

/// The positions of a sequence of name keys.
pub open spec fn name_positions(s: Seq<NameKey>) -> Seq<int> {
    Seq::new(s.len(), |i: int| s[i].index as int)
}

/// Sorting the keys of all children, each once, gives the order by name.
proof fn lemma_sorted_is_name_order(keys: Seq<Seq<u8>>, keyed: Seq<NameKey>, sorted: Seq<NameKey>)
    requires
        keyed.len() == keys.len(),
        forall|k: int| 0 <= k < keyed.len() ==> (#[trigger] keyed[k]).index == k && keyed[k].key@ == keys[k],
        sorted.to_multiset() == keyed.to_multiset(),
        sorted_named(sorted),
    ensures
        name_order(keys, name_positions(sorted)),
        sorted.len() == keys.len(),
        forall|i: int| 0 <= i < sorted.len() ==> name_key_from(keys, #[trigger] sorted[i]),
{
    let p = name_positions(sorted);
    assert(sorted.len() == keyed.len()) by {
        vstd::seq_lib::to_multiset_len(sorted);
        vstd::seq_lib::to_multiset_len(keyed);
    }
    assert forall|i: int| 0 <= i < sorted.len() implies name_key_from(keys, #[trigger] sorted[i])
        && sorted[i] == keyed[sorted[i].index as int] by {
        assert(sorted.contains(sorted[i]));
        vstd::seq_lib::to_multiset_contains(sorted, sorted[i]);
        vstd::seq_lib::to_multiset_contains(keyed, sorted[i]);
        let k = choose|k: int| 0 <= k < keyed.len() && keyed[k] == sorted[i];
        assert(keyed[k].index == k && keyed[k].key@ == keys[k]);
    }
    assert(keyed.no_duplicates()) by {
        assert forall|a: int, b: int| 0 <= a < keyed.len() && 0 <= b < keyed.len() && a != b
            implies keyed[a] != keyed[b] by {
            assert(keyed[a].index == a && keyed[a].key@ == keys[a]);
            assert(keyed[b].index == b && keyed[b].key@ == keys[b]);
        }
    }
    keyed.lemma_multiset_has_no_duplicates();
    sorted.lemma_multiset_has_no_duplicates_conv();
    assert forall|i: int, j: int| 0 <= i < j < p.len() implies p[i] != p[j] by {
        if p[i] == p[j] {
            assert(name_key_from(keys, sorted[i]));
            assert(name_key_from(keys, sorted[j]));
            assert(sorted[i] == sorted[j]);
        }
    }
    assert forall|i: int, j: int| 0 <= i < j < p.len() implies key_before(keys, #[trigger] p[i], #[trigger] p[j]) by {
        assert(name_le(sorted[i], sorted[j]));
        assert(name_key_from(keys, sorted[i]));
        assert(name_key_from(keys, sorted[j]));
        assert(p[i] != p[j]);
    }
}

/// The children of `node` in the order of the tree view (see [`child_order`]).
pub fn ordered_children<'a>(node: &'a TreeNode, sort: SortOrder) -> (r: Vec<&'a TreeNode>)
    ensures
        r@.len() == ordered(*node, sort).len(),
        forall|i: int| 0 <= i < r@.len() ==> *r@[i] == ordered(*node, sort)[i],
        is_permutation(child_order(*node, sort), node.children@.len() as int),
{
    let n: usize = node.children.len();
    let ghost kids = node.children@;
    let mut r: Vec<&'a TreeNode> = Vec::new();
    match sort.column {
        SortColumn::Name => {
            let ghost keys = name_keys(*node);
            let mut keyed: Vec<NameKey> = Vec::new();
            let mut i: usize = 0;
            while i < n
                invariant
                    i <= n,
                    n == kids.len(),
                    kids == node.children@,
                    keys == name_keys(*node),
                    keyed@.len() == i,
                    forall|k: int| 0 <= k < i ==> (#[trigger] keyed@[k]).index == k && keyed@[k].key@ == keys[k],
                decreases n - i,
            {
                let key: Vec<u8> = lowercase_bytes(node.children[i].name.as_str());
                proof {
                    assert(keys[i as int] == lowercase_bytes_of(node.children@[i as int].name@));
                }
                let ghost before = keyed@;
                keyed.push(NameKey { key, index: i });
                proof {
                    assert(keyed@[i as int].index == i);
                    assert(keyed@[i as int].key@ == keys[i as int]);
                    assert forall|k: int| 0 <= k < i + 1 implies (#[trigger] keyed@[k]).index == k && keyed@[k].key@ == keys[k] by {
                        if k < i {
                            assert(keyed@[k] == before[k]);
                        }
                    }
                }
                i = i + 1;
            }
            let sorted: Vec<NameKey> = sort_named(keyed);
            proof {
                lemma_sorted_is_name_order(keys, keyed@, sorted@);
                let p = name_positions(sorted@);
                let q = choose|q: Seq<int>| name_order(keys, q);
                assert(name_order(keys, q));
                lemma_name_order_unique(keys, p, q);
            }
            let ghost p = name_positions(sorted@);
            let mut k: usize = 0;
            while k < n
                invariant
                    k <= n,
                    n == kids.len(),
                    kids == node.children@,
                    sorted@.len() == n,
                    p == name_positions(sorted@),
                    child_order(*node, sort) == (if sort.descending {
                        p.reverse()
                    } else {
                        p
                    }),
                    sort.column == SortColumn::Name,
                    forall|i: int| 0 <= i < sorted@.len() ==> name_key_from(name_keys(*node), #[trigger] sorted@[i]),
                    r@.len() == k,
                    forall|i: int| 0 <= i < k ==> *r@[i] == ordered(*node, sort)[i],
                decreases n - k,
            {
                let at: usize = if sort.descending {
                    n - 1 - k
                } else {
                    k
                };
                let idx: usize = sorted[at].index;
                proof {
                    assert(name_key_from(name_keys(*node), sorted@[at as int]));
                }
                r.push(&node.children[idx]);
                k = k + 1;
            }
        },
        SortColumn::Size => {
            let mut k: usize = 0;
            while k < n
                invariant
                    k <= n,
                    n == kids.len(),
                    kids == node.children@,
                    sort.column == SortColumn::Size,
                    r@.len() == k,
                    forall|i: int| 0 <= i < k ==> *r@[i] == ordered(*node, sort)[i],
                decreases n - k,
            {
                let at: usize = if sort.descending {
                    k
                } else {
                    n - 1 - k
                };
                r.push(&node.children[at]);
                k = k + 1;
            }
        },
    }
    r
}

// ---------------------------------------------------------------------------
// The visible rows
// ---------------------------------------------------------------------------

/// A line of the tree view: a node, its depth (0 for the root's children) and
/// whether it is open (an expanded directory, whose children follow).
pub struct VisibleRow<'a> {
    pub node: &'a TreeNode,
    pub depth: i32,
    pub expanded: bool,
}

/// A directory shows its children when it is expanded.
pub open spec fn opens(n: TreeNode, expanded: Set<u64>) -> bool {
    n.is_directory && expanded.contains(n.id)
}

/// The rows under `node`, whose children stand at `depth`: each child in the
/// order of the view, followed by the rows under it where it is open.
pub open spec fn rows_below(node: TreeNode, expanded: Set<u64>, sort: SortOrder, depth: int) -> Seq<
    (TreeNode, int, bool),
>
    decreases node, node.children@.len() + 1,
{
    rows_of_children(node, expanded, sort, depth, node.children@.len())
}

/// The rows of the first `k` children of `node` in the order of the view.
pub open spec fn rows_of_children(
    node: TreeNode,
    expanded: Set<u64>,
    sort: SortOrder,
    depth: int,
    k: nat,
) -> Seq<(TreeNode, int, bool)>
    decreases node, k,
{
    if k == 0 {
        Seq::empty()
    } else {
        let rest = rows_of_children(node, expanded, sort, depth, (k - 1) as nat);
        let i = child_order(node, sort)[k - 1];
        if 0 <= i < node.children@.len() {
            let c = node.children@[i];
            rest + seq![(c, depth, opens(c, expanded))] + if opens(c, expanded) {
                rows_below(c, expanded, sort, depth + 1)
            } else {
                Seq::empty()
            }
        } else {
            rest
        }
    }
}

/// The value of a list of rows.
pub open spec fn row_values(rows: Seq<VisibleRow>) -> Seq<(TreeNode, int, bool)> {
    rows.map_values(|r: VisibleRow| (*r.node, r.depth as int, r.expanded))
}

fn push_rows<'a>(
    node: &'a TreeNode,
    expanded: &HashSet<u64>,
    sort: SortOrder,
    depth: i32,
    rows: &mut Vec<VisibleRow<'a>>,
)
    requires
        0 <= depth,
        depth + depth_below(node.children@) <= i32::MAX,
    ensures
        row_values(final(rows)@) == row_values(old(rows)@) + rows_below(
            *node,
            expanded@,
            sort,
            depth as int,
        ),
    decreases node,
{
    let kids = ordered_children(node, sort);
    let ghost order = child_order(*node, sort);
    let mut k: usize = 0;
    proof {
        assert(row_values(rows@) =~= row_values(old(rows)@) + rows_of_children(
            *node,
            expanded@,
            sort,
            depth as int,
            0,
        ));
    }
    while k < kids.len()
        invariant
            k <= kids@.len(),
            kids@.len() == node.children@.len(),
            order == child_order(*node, sort),
            is_permutation(order, node.children@.len() as int),
            forall|i: int| 0 <= i < kids@.len() ==> *kids@[i] == node.children@[order[i]],
            0 <= depth,
            depth + depth_below(node.children@) <= i32::MAX,
            row_values(rows@) == row_values(old(rows)@) + rows_of_children(
                *node,
                expanded@,
                sort,
                depth as int,
                k as nat,
            ),
        decreases kids@.len() - k,
    {
        let child: &'a TreeNode = kids[k];
        let ghost j = order[k as int];
        proof {
            assert(0 <= j < node.children@.len());
            assert(*child == node.children@[j]);
            lemma_depth_below_element(node.children@, j);
        }
        let open: bool = child.is_directory && expanded.contains(&child.id);
        let ghost before = rows@;
        rows.push(VisibleRow { node: child, depth, expanded: open });
        proof {
            assert(row_values(rows@) =~= row_values(before) + seq![(*child, depth as int, open)]);
        }
        if open {
            let ghost mid = rows@;
            push_rows(child, expanded, sort, depth + 1, rows);
            proof {
                assert(row_values(rows@) =~= row_values(mid) + rows_below(
                    *child,
                    expanded@,
                    sort,
                    depth + 1,
                ));
            }
        }
        proof {
            assert(row_values(rows@) =~= row_values(old(rows)@) + rows_of_children(
                *node,
                expanded@,
                sort,
                depth as int,
                (k + 1) as nat,
            ));
        }
        k = k + 1;
    }
}

/// The rows of the tree view: the children of `root` in the order of the view,
/// and below each open directory its own rows, one level deeper.
pub fn visible_rows<'a>(root: &'a TreeNode, expanded: &HashSet<u64>, sort: SortOrder) -> (r: Vec<
    VisibleRow<'a>,
>)
    requires
        depth_below(root.children@) <= i32::MAX,
    ensures
        row_values(r@) == rows_below(*root, expanded@, sort, 0),
{
    let mut rows: Vec<VisibleRow<'a>> = Vec::new();
    push_rows(root, expanded, sort, 0, &mut rows);
    proof {
        assert(row_values(rows@) =~= rows_below(*root, expanded@, sort, 0));
    }
    rows
}

/// The ids of the rows of the tree view (see [`visible_rows`]), to find the row
/// of a node.
pub fn collect_visible_ids(root: &TreeNode, expanded: &HashSet<u64>, sort: SortOrder) -> (r: Vec<u64>)
    requires
        depth_below(root.children@) <= i32::MAX,
    ensures
        r@ == rows_below(*root, expanded@, sort, 0).map_values(|x: (TreeNode, int, bool)| x.0.id),
{
    let rows = visible_rows(root, expanded, sort);
    let mut ids: Vec<u64> = Vec::new();
    let mut i: usize = 0;
    while i < rows.len()
        invariant
            i <= rows@.len(),
            row_values(rows@) == rows_below(*root, expanded@, sort, 0),
            ids@.len() == i,
            forall|k: int| 0 <= k < i ==> ids@[k] == rows@[k].node.id,
        decreases rows@.len() - i,
    {
        ids.push(rows[i].node.id);
        i = i + 1;
    }
    proof {
        let spec_rows = rows_below(*root, expanded@, sort, 0);
        assert forall|k: int| 0 <= k < ids@.len() implies ids@[k] == spec_rows.map_values(
            |x: (TreeNode, int, bool)| x.0.id,
        )[k] by {
            assert(spec_rows[k] == row_values(rows@)[k]);
        }
        assert(ids@ =~= spec_rows.map_values(|x: (TreeNode, int, bool)| x.0.id));
    }
    ids
}

} // verus!
