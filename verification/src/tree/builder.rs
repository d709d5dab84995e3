//! Building the directory tree from the flat list of table entries.
//!
//! Every entry names its parent directory. An index from parent to children
//! makes finding a directory's children a lookup instead of a scan; the tree
//! then grows from the root (record 5) downwards.

use vstd::prelude::*;
use std::collections::HashMap;
use crate::mft::types::{FileEntry, ROOT_REFERENCE};
use crate::tree::node::{
    TreeNode, lemma_paths_len, lemma_sums_permuted, paths_in, positions_of, preorder, same_tree,
    sort_children, sort_children_indexed,
};
use crate::tree::sort::{is_permutation, size_order};

verus! {

broadcast use vstd::std_specs::hash::group_hash_axioms;

/// The keys of a map, each once.
pub(crate) fn keys_of<V>(entries: &HashMap<u64, V>) -> (r: Vec<u64>)
    ensures
        r@.no_duplicates(),
        r@.to_set() == entries@.dom(),
{
    let mut keys: Vec<u64> = Vec::new();
    for k in it: entries.keys()
        invariant
            keys@.len() == it.index(),
            forall|i: int| 0 <= i < keys@.len() ==> keys@[i] == *it.seq()[i],
            it.seq().no_duplicates(),
            it.seq().unref().to_set() == entries@.dom(),
            it.seq().len() == entries@.dom().len(),
            keys@.no_duplicates(),
            keys@.to_set().subset_of(entries@.dom()),
    {
        proof {
            let i = keys@.len() as int;
            assert(it.seq().unref()[i] == *k);
            assert(it.seq().unref().to_set().contains(*k));
            assert forall|j: int| 0 <= j < i implies keys@[j] != *k by {
                assert(keys@[j] == *it.seq()[j]);
            }
        }
        keys.push(*k);
    }
    proof {
        assert(keys@.len() == entries@.dom().len());
        assert(keys@.no_duplicates());
        assert(keys@.to_set().subset_of(entries@.dom()));
        keys@.unique_seq_to_set();
        vstd::seq_lib::seq_to_set_is_finite(keys@);
        vstd::set_lib::lemma_subset_equality(keys@.to_set(), entries@.dom());
    }
    keys
}


/// The records whose entry names `p` as parent.
pub open spec fn children_of(entries: Map<u64, FileEntry>, p: u64) -> Set<u64> {
    Set::new(|k: u64| entries.contains_key(k) && entries[k].parent_reference == p)
}

/// The children that the index lists for `p`.
pub open spec fn kids_in(index: Map<u64, Vec<u64>>, p: u64) -> Seq<u64> {
    if index.contains_key(p) { index[p]@ } else { seq![] }
}

/// The index lists, for every parent, each of its children once, and nothing else.
pub open spec fn index_matches(entries: Map<u64, FileEntry>, index: Map<u64, Vec<u64>>) -> bool {
    &&& forall|p: u64| (#[trigger] kids_in(index, p)).no_duplicates()
    &&& forall|p: u64, j: int|
        0 <= j < kids_in(index, p).len() ==> entries.contains_key(#[trigger] kids_in(index, p)[j])
            && entries[kids_in(index, p)[j]].parent_reference == p
    &&& forall|k: u64| #[trigger] entries.contains_key(k) ==> kids_in(
        index,
        entries[k].parent_reference,
    ).contains(k)
}

/// The ids of a sequence of nodes.
pub open spec fn ids_of(s: Seq<TreeNode>) -> Seq<u64> {
    Seq::new(s.len(), |i: int| s[i].id)
}

/// `s` without the occurrences of `r`.
pub open spec fn without(s: Seq<u64>, r: u64) -> Seq<u64>
    decreases s.len(),
{
    if s.len() == 0 {
        seq![]
    } else if s.last() == r {
        without(s.drop_last(), r)
    } else {
        without(s.drop_last(), r).push(s.last())
    }
}

/// `t` is the tree that grows from record `r` when directories are followed at
/// most `fuel` levels down: an empty, nameless directory with id 0 where `r` has no
/// entry; a file node with the entry's size; a directory node whose children are
/// the trees of the records that name `r` as parent (`r` itself excluded), each
/// once, with one level less, largest first; with sizes and counts that sum up
/// those of the children.
pub open spec fn is_built(entries: Map<u64, FileEntry>, r: u64, fuel: nat, t: TreeNode) -> bool
    decreases fuel,
{
    if !entries.contains_key(r) {
        &&& t.id == 0
        &&& t.name@ == Seq::<char>::empty()
        &&& t.is_directory
        &&& t.own_size == 0
        &&& t.total_size == 0
        &&& t.children@.len() == 0
        &&& t.file_count == 0
        &&& t.dir_count == 1
    } else {
        let e = entries[r];
        &&& t.id == r
        &&& t.name@ == e.name@
        &&& t.is_directory == e.is_directory
        &&& t.consistent()
        &&& if !e.is_directory {
            &&& t.own_size == e.size
            &&& t.children@.len() == 0
        } else {
            &&& t.own_size == 0
            &&& (fuel == 0 ==> t.children@.len() == 0)
            &&& (fuel > 0 ==> {
                &&& ids_of(t.children@).no_duplicates()
                &&& ids_of(t.children@).to_set() == children_of(entries, r).remove(r)
                &&& forall|i: int|
                    0 <= i < t.children@.len() ==> is_built(
                        entries,
                        t.children@[i].id,
                        (fuel - 1) as nat,
                        #[trigger] t.children@[i],
                    )
                &&& forall|i: int, j: int|
                    0 <= i < j < t.children@.len() ==> t.children@[i].total_size
                        >= t.children@[j].total_size
            })
        }
    }
}

/// Builds the directory tree from the table's entries.
pub struct TreeBuilder {
    /// All entries by record number.
    entries: HashMap<u64, FileEntry>,
    /// Parent record number to the record numbers of its children.
    children_index: HashMap<u64, Vec<u64>>,
}

impl TreeBuilder {
    /// The entries the tree is built from.
    pub closed spec fn entries(self) -> Map<u64, FileEntry> {
        self.entries@
    }

    #[verifier::type_invariant]
    closed spec fn index_ok(self) -> bool {
        index_matches(self.entries@, self.children_index@)
    }

    /// The children the index lists for `p`.
    closed spec fn kids(self, p: u64) -> Seq<u64> {
        kids_in(self.children_index@, p)
    }

    /// Size, file count and directory count of the tree that grows from `r` with
    /// `fuel` levels.
    pub closed spec fn sums(self, r: u64, fuel: nat) -> (int, int, int)
        decreases fuel, 0nat,
    {
        if !self.entries@.contains_key(r) {
            (0, 0, 1)
        } else if !self.entries@[r].is_directory {
            (self.entries@[r].size as int, 1, 0)
        } else if fuel == 0 {
            (0, 0, 1)
        } else {
            self.kid_sums(r, self.kids(r), (fuel - 1) as nat)
        }
    }

    /// The sums of a directory `r` over the children `kids`.
    closed spec fn kid_sums(self, r: u64, kids: Seq<u64>, fuel: nat) -> (int, int, int)
        decreases fuel, kids.len() + 1,
    {
        if kids.len() == 0 {
            (0, 0, 1)
        } else {
            let acc = self.kid_sums(r, kids.drop_last(), fuel);
            if kids.last() == r {
                acc
            } else {
                let x = self.sums(kids.last(), fuel);
                (acc.0 + x.0, acc.1 + x.1, acc.2 + x.2)
            }
        }
    }

    /// The sizes and counts of the tree from `r` fit in 64 bits.
    pub closed spec fn fits_from(self, r: u64, fuel: nat) -> bool {
        let s = self.sums(r, fuel);
        s.0 <= u64::MAX && s.1 <= u64::MAX && s.2 <= u64::MAX
    }

    /// The levels the tree is built with: one per entry, enough for every tree.
    pub closed spec fn fuel(self) -> nat {
        self.entries@.len()
    }

    /// The sizes and counts of the whole tree fit in 64 bits.
    pub open spec fn fits(self) -> bool {
        self.fits_from(ROOT_REFERENCE, self.fuel())
    }

    /// Takes the entries, by record number, and indexes them by parent.
    pub fn new(entries: HashMap<u64, FileEntry>) -> (r: Self)
        ensures
            r.entries() == entries@,
    {
        let keys: Vec<u64> = keys_of(&entries);
        let mut index: HashMap<u64, Vec<u64>> = HashMap::new();
        let mut i: usize = 0;
        while i < keys.len()
            invariant
                i <= keys@.len(),
                keys@.no_duplicates(),
                keys@.to_set() == entries@.dom(),
                forall|p: u64| (#[trigger] kids_in(index@, p)).no_duplicates(),
                forall|p: u64, j: int|
                    0 <= j < kids_in(index@, p).len() ==> entries@.contains_key(
                        #[trigger] kids_in(index@, p)[j],
                    ) && entries@[kids_in(index@, p)[j]].parent_reference == p
                        && keys@.take(i as int).contains(kids_in(index@, p)[j]),
                forall|j: int|
                    0 <= j < i ==> kids_in(index@, entries@[#[trigger] keys@[j]].parent_reference).contains(
                        keys@[j],
                    ),
            decreases keys@.len() - i,
        {
            let k: u64 = keys[i];
            proof {
                assert(keys@.to_set().contains(k));
            }
            let parent: u64 = entries.get(&k).unwrap().parent_reference;
            let ghost before = index@;
            let mut kids: Vec<u64> = match index.remove(&parent) {
                Some(v) => v,
                None => Vec::new(),
            };
            assert(kids@ == kids_in(before, parent));
            proof {
                assert(!kids@.contains(k)) by {
                    if kids@.contains(k) {
                        let j = choose|j: int| 0 <= j < kids@.len() && kids@[j] == k;
                        assert(keys@.take(i as int).contains(kids_in(before, parent)[j]));
                        let m = choose|m: int| 0 <= m < i && keys@.take(i as int)[m] == k;
                        assert(keys@[m] == keys@[i as int]);
                    }
                }
            }
            kids.push(k);
            index.insert(parent, kids);
            proof {
                assert forall|p: u64| (#[trigger] kids_in(index@, p)).no_duplicates() by {
                    if p != parent {
                        assert(kids_in(index@, p) == kids_in(before, p));
                    }
                }
                assert forall|p: u64, j: int|
                    0 <= j < kids_in(index@, p).len() implies entries@.contains_key(
                        #[trigger] kids_in(index@, p)[j],
                    ) && entries@[kids_in(index@, p)[j]].parent_reference == p
                        && keys@.take(i + 1).contains(kids_in(index@, p)[j]) by {
                    if p != parent {
                        assert(kids_in(index@, p) == kids_in(before, p));
                    }
                    let x = kids_in(index@, p)[j];
                    if p == parent && j == kids_in(index@, p).len() - 1 {
                        assert(keys@.take(i + 1)[i as int] == k);
                    } else {
                        assert(keys@.take(i as int).contains(x));
                        let m = choose|m: int| 0 <= m < i && keys@.take(i as int)[m] == x;
                        assert(keys@.take(i + 1)[m] == x);
                    }
                }
                assert forall|j: int|
                    0 <= j < i + 1 implies kids_in(index@, entries@[#[trigger] keys@[j]].parent_reference).contains(
                        keys@[j],
                    ) by {
                    let q = entries@[keys@[j]].parent_reference;
                    if j < i {
                        let y = kids_in(before, q);
                        let m = choose|m: int| 0 <= m < y.len() && y[m] == keys@[j];
                        if q == parent {
                            assert(kids_in(index@, q)[m] == keys@[j]);
                        } else {
                            assert(kids_in(index@, q) == y);
                        }
                    } else {
                        assert(kids_in(index@, q).last() == k);
                    }
                }
            }
            i = i + 1;
        }
        proof {
            assert forall|k: u64| #[trigger] entries@.contains_key(k) implies kids_in(
                index@,
                entries@[k].parent_reference,
            ).contains(k) by {
                assert(keys@.to_set().contains(k));
                let j = choose|j: int| 0 <= j < keys@.len() && keys@[j] == k;
                assert(kids_in(index@, entries@[keys@[j]].parent_reference).contains(keys@[j]));
            }
        }
        TreeBuilder { entries, children_index: index }
    }
}

/// Dropping `r` from a sequence keeps the other elements, each as often as before.
pub proof fn lemma_without(s: Seq<u64>, r: u64)
    ensures
        without(s, r).to_set() == s.to_set().remove(r),
        s.no_duplicates() ==> without(s, r).no_duplicates(),
        forall|x: u64| #[trigger] without(s, r).contains(x) ==> s.contains(x) && x != r,
    decreases s.len(),
{
    if s.len() > 0 {
        let t = s.drop_last();
        lemma_without(t, r);
        assert(s =~= t.push(s.last()));
        assert forall|x: u64| #[trigger] without(s, r).contains(x) implies s.contains(x) && x != r by {
            if without(t, r).contains(x) {
                assert(t.contains(x));
                let j = choose|j: int| 0 <= j < t.len() && t[j] == x;
                assert(s[j] == x);
            } else {
                let w = without(t, r);
                if s.last() == r {
                    assert(without(s, r) == w);
                } else {
                    assert(without(s, r) == w.push(s.last()));
                    let m = choose|m: int| 0 <= m < without(s, r).len() && without(s, r)[m] == x;
                    if m < w.len() {
                        assert(w[m] == x);
                    }
                    assert(x == s.last());
                }
            }
        }
        assert(without(s, r).to_set() =~= s.to_set().remove(r)) by {
            assert forall|x: u64| s.to_set().remove(r).contains(x) implies without(s, r).to_set().contains(x) by {
                let j = choose|j: int| 0 <= j < s.len() && s[j] == x;
                if j < s.len() - 1 {
                    assert(t[j] == x);
                    assert(t.to_set().contains(x));
                    assert(without(t, r).to_set().contains(x));
                    let m = choose|m: int| 0 <= m < without(t, r).len() && without(t, r)[m] == x;
                    if s.last() != r {
                        assert(without(s, r)[m] == x);
                    }
                } else {
                    assert(without(s, r).last() == x);
                }
            }
        }
        if s.no_duplicates() {
            assert(t.no_duplicates());
            if s.last() != r {
                assert(!without(t, r).contains(s.last())) by {
                    if without(t, r).contains(s.last()) {
                        assert(t.contains(s.last()));
                        let j = choose|j: int| 0 <= j < t.len() && t[j] == s.last();
                        assert(s[j] == s[s.len() - 1]);
                    }
                }
            }
        }
    } else {
        assert(s.to_set() =~= Set::empty());
        assert(without(s, r).to_set() =~= Set::empty());
    }
}

/// A permutation of `0..n` takes every value.
pub proof fn lemma_permutation_onto(p: Seq<int>, n: int)
    requires
        is_permutation(p, n),
    ensures
        forall|j: int| 0 <= j < n ==> #[trigger] p.contains(j),
{
    let range = vstd::set_lib::set_int_range(0, n);
    vstd::set_lib::lemma_int_range(0, n);
    assert(p.no_duplicates());
    p.unique_seq_to_set();
    assert(p.to_set().subset_of(range));
    vstd::set_lib::lemma_subset_equality(p.to_set(), range);
    assert forall|j: int| 0 <= j < n implies #[trigger] p.contains(j) by {
        assert(range.contains(j));
        assert(p.to_set().contains(j));
    }
}

impl TreeBuilder {
    proof fn lemma_sums_nonneg(self, r: u64, fuel: nat)
        ensures
            self.sums(r, fuel).0 >= 0,
            self.sums(r, fuel).1 >= 0,
            self.sums(r, fuel).2 >= 0,
        decreases fuel, 0nat,
    {
        if self.entries@.contains_key(r) && self.entries@[r].is_directory && fuel > 0 {
            self.lemma_kid_sums_prefix(r, self.kids(r), 0, (fuel - 1) as nat);
        }
    }

    /// The sums over a prefix of the children are at most those over all of them,
    /// and the next child adds its own.
    proof fn lemma_kid_sums_prefix(self, r: u64, kids: Seq<u64>, i: int, fuel: nat)
        requires
            0 <= i <= kids.len(),
        ensures
            self.kid_sums(r, kids.take(i), fuel).0 <= self.kid_sums(r, kids, fuel).0,
            self.kid_sums(r, kids.take(i), fuel).1 <= self.kid_sums(r, kids, fuel).1,
            self.kid_sums(r, kids.take(i), fuel).2 <= self.kid_sums(r, kids, fuel).2,
            self.kid_sums(r, kids.take(i), fuel).0 >= 0,
            self.kid_sums(r, kids.take(i), fuel).1 >= 0,
            self.kid_sums(r, kids.take(i), fuel).2 >= 1,
        decreases fuel, kids.len() + 1,
    {
        if kids.len() > 0 {
            if i == kids.len() {
                assert(kids.take(i) =~= kids);
                self.lemma_kid_sums_prefix(r, kids.drop_last(), i - 1, fuel);
                assert(kids.drop_last().take(i - 1) =~= kids.drop_last());
                if kids.last() != r {
                    self.lemma_sums_nonneg(kids.last(), fuel);
                }
            } else {
                assert(kids.drop_last().take(i) =~= kids.take(i));
                self.lemma_kid_sums_prefix(r, kids.drop_last(), i, fuel);
                self.lemma_kid_sums_prefix(r, kids.drop_last(), kids.len() - 1, fuel);
                assert(kids.drop_last().take(kids.len() - 1) =~= kids.drop_last());
                if kids.last() != r {
                    self.lemma_sums_nonneg(kids.last(), fuel);
                }
            }
        } else {
            assert(kids.take(i) =~= kids);
        }
    }

    /// The tree that grows from record `r`, following directories at most `fuel`
    /// levels down.
    fn build_subtree(&self, r: u64, fuel: usize) -> (t: TreeNode)
        requires
            self.fits_from(r, fuel as nat),
        ensures
            is_built(self.entries(), r, fuel as nat, t),
            t.wf(),
            t.total_size == self.sums(r, fuel as nat).0,
            t.file_count == self.sums(r, fuel as nat).1,
            t.dir_count == self.sums(r, fuel as nat).2,
        decreases fuel,
    {
        proof {
            use_type_invariant(self);
        }
        let entry: &FileEntry = match self.entries.get(&r) {
            None => {
                return TreeNode::new_directory(String::new());
            },
            Some(e) => e,
        };
        if !entry.is_directory {
            let mut node: TreeNode = TreeNode::new_file(entry.name.clone(), entry.size);
            node.id = r;
            return node;
        }
        let mut node: TreeNode = TreeNode::new_directory(entry.name.clone());
        node.id = r;
        if fuel == 0 {
            return node;
        }
        let ghost f = (fuel - 1) as nat;
        let ghost all = self.kids(r);
        if let Some(kids) = self.children_index.get(&r) {
            assert(kids@ == all);
            let mut i: usize = 0;
            while i < kids.len()
                invariant
                    kids@ == all,
                    all == self.kids(r),
                    index_matches(self.entries@, self.children_index@),
                    i <= kids@.len(),
                    node.id == r,
                    node.name@ == self.entries@[r].name@,
                    node.is_directory,
                    node.own_size == 0,
                    node.wf(),
                    self.fits_from(r, fuel as nat),
                    self.sums(r, fuel as nat) == self.kid_sums(r, all, f),
                    f == fuel - 1,
                    node.total_size == self.kid_sums(r, all.take(i as int), f).0,
                    node.file_count == self.kid_sums(r, all.take(i as int), f).1,
                    node.dir_count == self.kid_sums(r, all.take(i as int), f).2,
                    ids_of(node.children@) == without(all.take(i as int), r),
                    forall|j: int|
                        0 <= j < node.children@.len() ==> is_built(
                            self.entries(),
                            node.children@[j].id,
                            f,
                            #[trigger] node.children@[j],
                        ),
                decreases kids@.len() - i,
            {
                let k: u64 = kids[i];
                proof {
                    assert(all.take(i + 1).drop_last() =~= all.take(i as int));
                    assert(all.take(i + 1).last() == k);
                    self.lemma_kid_sums_prefix(r, all, i + 1, f);
                }
                if k != r {
                    proof {
                        self.lemma_sums_nonneg(k, f);
                        self.lemma_kid_sums_prefix(r, all, i as int, f);
                        assert(kids_in(self.children_index@, r)[i as int] == k);
                    }
                    let child: TreeNode = self.build_subtree(k, fuel - 1);
                    let ghost before = node.children@;
                    node.add_child(child);
                    proof {
                        assert(ids_of(node.children@) =~= ids_of(before).push(k));
                    }
                }
                i = i + 1;
            }
            proof {
                assert(all.take(kids@.len() as int) =~= all);
            }
        } else {
            proof {
                assert(all =~= Seq::<u64>::empty());
                assert(ids_of(node.children@) =~= without(all, r));
            }
        }
        proof {
            lemma_without(all, r);
            assert(all.no_duplicates());
            assert(all.to_set() =~= children_of(self.entries@, r)) by {
                assert forall|x: u64| children_of(self.entries@, r).contains(x) implies all.to_set().contains(x) by {
                    assert(self.entries@.contains_key(x));
                }
            }
        }
        let mut children: Vec<TreeNode> = Vec::new();
        std::mem::swap(&mut children, &mut node.children);
        let ghost before = children@;
        let (sorted, Ghost(p)) = sort_children(children);
        node.children = sorted;
        proof {
            let n = before.len() as int;
            lemma_permutation_onto(p, n);
            lemma_sums_permuted(before, node.children@, p);
            let ids = ids_of(node.children@);
            let ids0 = ids_of(before);
            assert(ids0.no_duplicates());
            assert forall|a: int, b: int| 0 <= a < ids.len() && 0 <= b < ids.len() && a != b implies ids[a] != ids[b] by {
                assert(ids[a] == ids0[p[a]]);
                assert(ids[b] == ids0[p[b]]);
                if a < b { assert(p[a] != p[b]); } else { assert(p[b] != p[a]); }
            }
            assert(ids.to_set() =~= ids0.to_set()) by {
                assert forall|x: u64| ids.to_set().contains(x) implies ids0.to_set().contains(x) by {
                    let a = choose|a: int| 0 <= a < ids.len() && ids[a] == x;
                    assert(ids0[p[a]] == x);
                }
                assert forall|x: u64| ids0.to_set().contains(x) implies ids.to_set().contains(x) by {
                    let b = choose|b: int| 0 <= b < ids0.len() && ids0[b] == x;
                    assert(p.contains(b));
                    let a = choose|a: int| 0 <= a < p.len() && p[a] == b;
                    assert(ids[a] == x);
                }
            }
            assert forall|i: int| 0 <= i < node.children@.len() implies is_built(
                self.entries(),
                node.children@[i].id,
                f,
                #[trigger] node.children@[i],
            ) by {
                assert(node.children@[i] == before[p[i]]);
            }
            assert forall|i: int| 0 <= i < node.children@.len() implies (
            #[trigger] node.children@[i]).wf() by {
                assert(node.children@[i] == before[p[i]]);
            }
            assert forall|a: int, b: int| 0 <= a < b < node.children@.len() implies node.children@[a].total_size
                >= node.children@[b].total_size by {
                assert(node.children@[a] == before[p[a]]);
                assert(node.children@[b] == before[p[b]]);
            }
        }
        node
    }

    /// Checks that the sizes and counts of the tree fit in 64 bits, as
    /// [`TreeBuilder::build`] needs.
    pub fn fits_in_u64(&self) -> (r: bool)
        ensures
            r == self.fits(),
    {
        match self.sums_exec(ROOT_REFERENCE, self.entries.len()) {
            Some(_) => true,
            None => false,
        }
    }

    /// The sums of the tree from `r`, `None` where one of them exceeds 64 bits.
    fn sums_exec(&self, r: u64, fuel: usize) -> (out: Option<(u64, u64, u64)>)
        ensures
            match out {
                Some(x) => self.fits_from(r, fuel as nat) && x.0 == self.sums(r, fuel as nat).0
                    && x.1 == self.sums(r, fuel as nat).1 && x.2 == self.sums(r, fuel as nat).2,
                None => !self.fits_from(r, fuel as nat),
            },
        decreases fuel,
    {
        proof {
            use_type_invariant(self);
        }
        let entry: &FileEntry = match self.entries.get(&r) {
            None => {
                return Some((0, 0, 1));
            },
            Some(e) => e,
        };
        if !entry.is_directory {
            return Some((entry.size, 1, 0));
        }
        if fuel == 0 {
            return Some((0, 0, 1));
        }
        let ghost f = (fuel - 1) as nat;
        let ghost all = self.kids(r);
        let mut acc: (u64, u64, u64) = (0, 0, 1);
        if let Some(kids) = self.children_index.get(&r) {
            let mut i: usize = 0;
            while i < kids.len()
                invariant
                    kids@ == all,
                    all == self.kids(r),
                    i <= kids@.len(),
                    self.sums(r, fuel as nat) == self.kid_sums(r, all, f),
                    f == fuel - 1,
                    acc.0 == self.kid_sums(r, all.take(i as int), f).0,
                    acc.1 == self.kid_sums(r, all.take(i as int), f).1,
                    acc.2 == self.kid_sums(r, all.take(i as int), f).2,
                decreases kids@.len() - i,
            {
                let k: u64 = kids[i];
                proof {
                    assert(all.take(i + 1).drop_last() =~= all.take(i as int));
                    assert(all.take(i + 1).last() == k);
                    self.lemma_kid_sums_prefix(r, all, i + 1, f);
                }
                if k != r {
                    let x: (u64, u64, u64) = match self.sums_exec(k, fuel - 1) {
                        Some(x) => x,
                        None => {
                            proof {
                                self.lemma_kid_sums_prefix(r, all, i as int, f);
                                self.lemma_sums_nonneg(k, f);
                            }
                            return None;
                        },
                    };
                    let t: Option<u64> = acc.0.checked_add(x.0);
                    let c: Option<u64> = acc.1.checked_add(x.1);
                    let d: Option<u64> = acc.2.checked_add(x.2);
                    match (t, c, d) {
                        (Some(t), Some(c), Some(d)) => {
                            acc = (t, c, d);
                        },
                        _ => {
                            proof {
                                self.lemma_kid_sums_prefix(r, all, i + 1, f);
                            }
                            return None;
                        },
                    }
                }
                i = i + 1;
            }
            proof {
                assert(all.take(kids@.len() as int) =~= all);
            }
        } else {
            proof {
                assert(all =~= Seq::<u64>::empty());
            }
        }
        Some(acc)
    }

    /// Builds the tree from the root directory (record 5). Every directory's
    /// children are sorted by size, largest first.
    pub fn build(&self) -> (t: TreeNode)
        requires
            self.fits(),
        ensures
            is_built(self.entries(), ROOT_REFERENCE, self.fuel(), t),
            t.wf(),
    {
        self.build_subtree(ROOT_REFERENCE, self.entries.len())
    }
}

impl TreeBuilder {
    /// The `n` largest nodes of the tree under `root` (directories and files, `root`
    /// included), as copies, largest first; nodes of the same size in pre-order.
    pub fn top_n(root: &TreeNode, n: usize) -> (r: Vec<TreeNode>)
        ensures
            r@.len() == if n < preorder(seq![*root]).len() { n as int } else { preorder(seq![*root]).len() as int },
            exists|p: Seq<int>|
                #[trigger] size_order(preorder(seq![*root]), p) && forall|i: int|
                    0 <= i < r@.len() ==> same_tree(preorder(seq![*root])[p[i]], r@[i]),
    {
        let mut all: Vec<TreeNode> = Vec::new();
        root.collect_nodes(&mut all);
        let ghost pre = preorder(seq![*root]);
        let ghost copies = all@;
        proof {
            assert forall|k: int| 0 <= k < pre.len() implies same_tree(pre[k], copies[k]) by {
                assert(copies[0 + k] == copies[k]);
            }
        }
        let (mut sorted, Ghost(p)) = sort_children(all);
        sorted.truncate(n);
        proof {
            assert forall|i: int, j: int| 0 <= i < j < p.len() implies pre[p[i]].total_size
                > pre[p[j]].total_size || (pre[p[i]].total_size == pre[p[j]].total_size && p[i]
                < p[j]) by {
                assert(same_tree(pre[p[i]], copies[p[i]]));
                assert(same_tree(pre[p[j]], copies[p[j]]));
            }
            assert(size_order(pre, p));
            assert forall|i: int| 0 <= i < sorted@.len() implies same_tree(pre[p[i]], sorted@[i]) by {
                assert(same_tree(pre[p[i]], copies[p[i]]));
            }
        }
        sorted
    }

    /// The `n` largest nodes of the tree under `root` as [`TreeBuilder::top_n`]
    /// gives them, each with its full path: the names from `root` down, joined by
    /// backslashes (see [`paths_in`]).
    pub fn top_n_with_paths(root: &TreeNode, n: usize) -> (r: Vec<(String, TreeNode)>)
        ensures
            r@.len() == if n < preorder(seq![*root]).len() { n as int } else { preorder(seq![*root]).len() as int },
            exists|p: Seq<int>|
                #[trigger] size_order(preorder(seq![*root]), p) && forall|i: int|
                    0 <= i < r@.len() ==> same_tree(preorder(seq![*root])[p[i]], r@[i].1)
                        && r@[i].0@ == paths_in(seq![*root], seq![])[p[i]],
    {
        let mut all: Vec<TreeNode> = Vec::new();
        root.collect_nodes(&mut all);
        let empty: String = String::new();
        let mut paths: Vec<String> = Vec::new();
        root.collect_paths(&empty, &mut paths);
        let ghost pre = preorder(seq![*root]);
        let ghost pv = paths_in(seq![*root], seq![]);
        let ghost copies = all@;
        proof {
            lemma_paths_len(seq![*root], seq![]);
            assert(empty@ =~= Seq::<char>::empty());
            assert forall|k: int| 0 <= k < pre.len() implies same_tree(pre[k], copies[k]) by {
                assert(copies[0 + k] == copies[k]);
            }
            assert forall|k: int| 0 <= k < pv.len() implies paths@[k]@ == pv[k] by {
                assert(paths@[0 + k] == paths@[k]);
            }
        }
        let (mut sorted, idx) = sort_children_indexed(all);
        let ghost p = positions_of(idx@);
        let count: usize = if n < sorted.len() { n } else { sorted.len() };
        sorted.truncate(count);
        let ghost s0 = sorted@;
        let mut rev: Vec<(String, TreeNode)> = Vec::new();
        while sorted.len() > 0
            invariant
                count == s0.len(),
                count <= idx@.len(),
                idx@.len() == pre.len(),
                paths@.len() == pre.len(),
                p == positions_of(idx@),
                is_permutation(p, pre.len() as int),
                sorted@ == s0.take(sorted@.len() as int),
                rev@.len() + sorted@.len() == count,
                forall|k: int| 0 <= k < rev@.len() ==> (#[trigger] rev@[k]).1 == s0[count - 1 - k]
                    && rev@[k].0@ == paths@[p[count - 1 - k]]@,
            decreases sorted@.len(),
        {
            let node: TreeNode = sorted.pop().unwrap();
            let j: usize = sorted.len();
            proof {
                assert(0 <= p[j as int] < pre.len());
            }
            let path: String = paths[idx[j]].clone();
            rev.push((path, node));
            proof {
                assert(sorted@ =~= s0.take(sorted@.len() as int));
            }
        }
        let ghost r0 = rev@;
        let mut result: Vec<(String, TreeNode)> = Vec::new();
        while rev.len() > 0
            invariant
                count == r0.len(),
                rev@ == r0.take(rev@.len() as int),
                result@.len() + rev@.len() == count,
                forall|k: int| 0 <= k < result@.len() ==> #[trigger] result@[k] == r0[count - 1 - k],
            decreases rev@.len(),
        {
            let item: (String, TreeNode) = rev.pop().unwrap();
            result.push(item);
            proof {
                assert(rev@ =~= r0.take(rev@.len() as int));
            }
        }
        proof {
            assert forall|i: int, j: int| 0 <= i < j < p.len() implies pre[p[i]].total_size
                > pre[p[j]].total_size || (pre[p[i]].total_size == pre[p[j]].total_size && p[i]
                < p[j]) by {
                assert(same_tree(pre[p[i]], copies[p[i]]));
                assert(same_tree(pre[p[j]], copies[p[j]]));
            }
            assert(size_order(pre, p));
            assert forall|i: int| 0 <= i < result@.len() implies same_tree(pre[p[i]], result@[i].1)
                && result@[i].0@ == pv[p[i]] by {
                assert(result@[i] == r0[count - 1 - i]);
                assert(r0[count - 1 - i].1 == s0[count - 1 - (count - 1 - i)]);
                assert(s0[i] == copies[p[i]]);
                assert(0 <= p[i] < pre.len());
                assert(same_tree(pre[p[i]], copies[p[i]]));
            }
        }
        result
    }
}
} // verus!
