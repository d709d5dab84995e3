//! A node of the directory tree.
//!
//! Lean on purpose: with millions of nodes every field counts. The full path is
//! not stored but built from the way down the tree ([`TreeNode::path_of`],
//! [`TreeBuilder::top_n_with_paths`](crate::tree::TreeBuilder::top_n_with_paths)).

use vstd::prelude::*;
use rayon::iter::{IntoParallelRefMutIterator, ParallelIterator};
use crate::tree::sort::{is_permutation, Keyed, keyed_from, lemma_sorted_is_size_order, positions, reversed, size_order, sort_keyed};
use crate::text::{push_char, push_str};

verus! {

/// A file or a directory of the tree.
#[derive(Debug)]
pub struct TreeNode {
    /// Record number of the entry, unique on the drive; 0 when unknown.
    pub id: u64,
    /// Name of the file or directory.
    pub name: String,
    /// The node's own size in bytes (for files).
    pub own_size: u64,
    /// Size including all descendants.
    pub total_size: u64,
    pub is_directory: bool,
    /// The children (of directories).
    pub children: Vec<TreeNode>,
    /// Number of files in this subtree.
    pub file_count: u64,
    /// Number of directories in this subtree, the node itself included.
    pub dir_count: u64,
}

/// Sum of the total sizes of `s`.
pub open spec fn sum_total(s: Seq<TreeNode>) -> int
    decreases s.len(),
{
    if s.len() == 0 { 0 } else { sum_total(s.drop_last()) + s.last().total_size }
}

/// Sum of the file counts of `s`.
pub open spec fn sum_files(s: Seq<TreeNode>) -> int
    decreases s.len(),
{
    if s.len() == 0 { 0 } else { sum_files(s.drop_last()) + s.last().file_count }
}

/// Sum of the directory counts of `s`.
pub open spec fn sum_dirs(s: Seq<TreeNode>) -> int
    decreases s.len(),
{
    if s.len() == 0 { 0 } else { sum_dirs(s.drop_last()) + s.last().dir_count }
}

impl TreeNode {
    /// 1 for a file, 0 for a directory.
    pub open spec fn own_files(self) -> int {
        if self.is_directory { 0 } else { 1 }
    }

    /// 1 for a directory, 0 for a file.
    pub open spec fn own_dirs(self) -> int {
        if self.is_directory { 1 } else { 0 }
    }

    /// The aggregates of this node agree with its children.
    pub open spec fn consistent(self) -> bool {
        &&& self.total_size == self.own_size + sum_total(self.children@)
        &&& self.file_count == self.own_files() + sum_files(self.children@)
        &&& self.dir_count == self.own_dirs() + sum_dirs(self.children@)
    }

    /// Every node of the subtree has consistent aggregates.
    pub open spec fn wf(self) -> bool
        decreases self,
    {
        &&& self.consistent()
        &&& forall|i: int| 0 <= i < self.children@.len() ==> (#[trigger] self.children@[i]).wf()
    }
}


/// Number of nodes in the subtrees of `s`.
pub open spec fn nodes_in(s: Seq<TreeNode>) -> int
    decreases s,
{
    if s.len() == 0 {
        0
    } else {
        nodes_in(s.drop_last()) + 1 + nodes_in(s.last().children@)
    }
}

impl TreeNode {
    /// Number of nodes of this subtree, the node included.
    pub open spec fn spec_node_count(self) -> int {
        1 + nodes_in(self.children@)
    }

    /// A file of `size` bytes.
    pub fn new_file(name: String, size: u64) -> (r: Self)
        ensures
            r.id == 0,
            r.name@ == name@,
            r.own_size == size,
            r.total_size == size,
            !r.is_directory,
            r.children@.len() == 0,
            r.file_count == 1,
            r.dir_count == 0,
            r.wf(),
    {
        TreeNode {
            id: 0,
            name,
            own_size: size,
            total_size: size,
            is_directory: false,
            children: Vec::new(),
            file_count: 1,
            dir_count: 0,
        }
    }

    /// An empty directory.
    pub fn new_directory(name: String) -> (r: Self)
        ensures
            r.id == 0,
            r.name@ == name@,
            r.own_size == 0,
            r.total_size == 0,
            r.is_directory,
            r.children@.len() == 0,
            r.file_count == 0,
            r.dir_count == 1,
            r.wf(),
    {
        TreeNode {
            id: 0,
            name,
            own_size: 0,
            total_size: 0,
            is_directory: true,
            children: Vec::new(),
            file_count: 0,
            dir_count: 1,
        }
    }

    /// Appends a child and adds its size and counts to this node's.
    pub fn add_child(&mut self, child: TreeNode)
        requires
            old(self).total_size + child.total_size <= u64::MAX,
            old(self).file_count + child.file_count <= u64::MAX,
            old(self).dir_count + child.dir_count <= u64::MAX,
        ensures
            final(self).children@ == old(self).children@.push(child),
            final(self).total_size == old(self).total_size + child.total_size,
            final(self).file_count == old(self).file_count + child.file_count,
            final(self).dir_count == old(self).dir_count + child.dir_count,
            final(self).id == old(self).id,
            final(self).name == old(self).name,
            final(self).own_size == old(self).own_size,
            final(self).is_directory == old(self).is_directory,
            old(self).wf() && child.wf() ==> final(self).wf(),
    {
        self.total_size = self.total_size + child.total_size;
        self.file_count = self.file_count + child.file_count;
        self.dir_count = self.dir_count + child.dir_count;
        let ghost before = self.children@;
        self.children.push(child);
        proof {
            assert(self.children@.drop_last() =~= before);
            if old(self).wf() && child.wf() {
                assert forall|i: int| 0 <= i < self.children@.len() implies (
                #[trigger] self.children@[i]).wf() by {
                    if i < before.len() {
                        assert(self.children@[i] == before[i]);
                    }
                }
            }
        }
    }

    /// Number of nodes of this subtree, the node included.
    pub fn node_count(&self) -> (r: u64)
        requires
            self.spec_node_count() <= u64::MAX,
        ensures
            r == self.spec_node_count(),
        decreases self,
    {
        let mut total: u64 = 1;
        let mut i: usize = 0;
        while i < self.children.len()
            invariant
                i <= self.children@.len(),
                1 + nodes_in(self.children@) <= u64::MAX,
                total == 1 + nodes_in(self.children@.take(i as int)),
            decreases self.children@.len() - i,
        {
            proof {
                assert(self.children@.take(i + 1).drop_last() =~= self.children@.take(i as int));
                lemma_nodes_in_prefix(self.children@, i + 1);
            }
            let c: u64 = self.children[i].node_count();
            total = total + c;
            i = i + 1;
        }
        proof {
            assert(self.children@.take(i as int) =~= self.children@);
        }
        total
    }
}

/// The nodes of a prefix are at most those of the whole sequence.
pub proof fn lemma_nodes_in_prefix(s: Seq<TreeNode>, k: int)
    requires
        0 <= k <= s.len(),
    ensures
        0 <= nodes_in(s.take(k)) <= nodes_in(s),
    decreases s.len(),
{
    lemma_nodes_in_nonneg(s);
    if k < s.len() {
        assert(s.drop_last().take(k) =~= s.take(k));
        lemma_nodes_in_prefix(s.drop_last(), k);
        lemma_nodes_in_nonneg(s.last().children@);
    } else {
        assert(s.take(k) =~= s);
    }
}

pub proof fn lemma_nodes_in_nonneg(s: Seq<TreeNode>)
    ensures
        nodes_in(s) >= 0,
    decreases s,
{
    if s.len() > 0 {
        lemma_nodes_in_nonneg(s.drop_last());
        lemma_nodes_in_nonneg(s.last().children@);
    }
}

/// Index of the first node of `s` with this id, -1 where there is none.
pub open spec fn index_of_id(s: Seq<TreeNode>, id: u64) -> int
    decreases s.len(),
{
    if s.len() == 0 {
        -1
    } else if s[0].id == id {
        0
    } else {
        let k = index_of_id(s.drop_first(), id);
        if k < 0 { -1 } else { k + 1 }
    }
}

/// `index_of_id` is the first index with that id.
pub proof fn lemma_index_of_id(s: Seq<TreeNode>, id: u64)
    ensures
        -1 <= index_of_id(s, id) < s.len(),
        index_of_id(s, id) == -1 <==> (forall|j: int| 0 <= j < s.len() ==> s[j].id != id),
        index_of_id(s, id) >= 0 ==> s[index_of_id(s, id)].id == id,
        forall|j: int| 0 <= j < index_of_id(s, id) ==> s[j].id != id,
    decreases s.len(),
{
    if s.len() > 0 && s[0].id != id {
        lemma_index_of_id(s.drop_first(), id);
        assert forall|j: int| 1 <= j < s.len() implies s[j] == s.drop_first()[j - 1] by {}
        if index_of_id(s.drop_first(), id) == -1 {
            assert forall|j: int| 0 <= j < s.len() implies s[j].id != id by {
                if j > 0 {
                    assert(s[j] == s.drop_first()[j - 1]);
                }
            }
        }
    }
}

/// The node that a chain of ids leads to from `root` (each step takes the first
/// child with that id); `root` itself for the empty chain.
pub open spec fn spec_node_at(root: TreeNode, chain: Seq<u64>) -> Option<TreeNode>
    decreases chain.len(),
{
    if chain.len() == 0 {
        Some(root)
    } else {
        let k = index_of_id(root.children@, chain[0]);
        if k < 0 {
            None
        } else {
            spec_node_at(root.children@[k], chain.drop_first())
        }
    }
}

/// The path below `root` along the chain: a backslash and a name per step.
pub open spec fn path_below(root: TreeNode, chain: Seq<u64>) -> Option<Seq<char>>
    decreases chain.len(),
{
    if chain.len() == 0 {
        Some(seq![])
    } else {
        let k = index_of_id(root.children@, chain[0]);
        if k < 0 {
            None
        } else {
            let child = root.children@[k];
            match path_below(child, chain.drop_first()) {
                Some(rest) => Some(seq!['\\'] + child.name@ + rest),
                None => None,
            }
        }
    }
}

/// The full path of the node a chain leads to, names joined by backslashes as in
/// the Explorer.
pub open spec fn spec_path_of(root: TreeNode, chain: Seq<u64>) -> Option<Seq<char>> {
    match path_below(root, chain) {
        Some(rest) => Some(root.name@ + rest),
        None => None,
    }
}

/// Two nodes with the same fields and the same children.
pub open spec fn same_node(a: TreeNode, b: TreeNode) -> bool {
    &&& a.id == b.id
    &&& a.name@ == b.name@
    &&& a.own_size == b.own_size
    &&& a.total_size == b.total_size
    &&& a.is_directory == b.is_directory
    &&& a.children@ == b.children@
    &&& a.file_count == b.file_count
    &&& a.dir_count == b.dir_count
}

/// Every node on the way to the node at `chain` (that node excluded) holds at least
/// its size and counts, so that they can be taken off.
pub open spec fn removal_fits(root: TreeNode, chain: Seq<u64>) -> bool
    decreases chain.len(),
{
    match spec_node_at(root, chain) {
        None => true,
        Some(r) => chain.len() == 0 || {
            &&& root.total_size >= r.total_size
            &&& root.file_count >= r.file_count
            &&& root.dir_count >= r.dir_count
            &&& (chain.len() == 1 || removal_fits(
                root.children@[index_of_id(root.children@, chain[0])],
                chain.drop_first(),
            ))
        },
    }
}

/// `new` is `old` without the node at `chain` (a chain of at least one id that
/// leads to a node): the node is gone from its parent's children, and its size
/// and counts are taken off every node on the way.
pub open spec fn removed_at(old: TreeNode, new: TreeNode, chain: Seq<u64>) -> bool
    decreases chain.len(),
{
    let k = index_of_id(old.children@, chain[0]);
    let r = spec_node_at(old, chain).unwrap();
    &&& chain.len() > 0
    &&& new.id == old.id
    &&& new.name@ == old.name@
    &&& new.own_size == old.own_size
    &&& new.is_directory == old.is_directory
    &&& new.total_size == old.total_size - r.total_size
    &&& new.file_count == old.file_count - r.file_count
    &&& new.dir_count == old.dir_count - r.dir_count
    &&& if chain.len() <= 1 {
        new.children@ == old.children@.remove(k)
    } else {
        &&& new.children@.len() == old.children@.len()
        &&& forall|j: int| 0 <= j < old.children@.len() && j != k ==> new.children@[j] == old.children@[j]
        &&& removed_at(old.children@[k], new.children@[k], chain.drop_first())
    }
}

impl TreeNode {
    /// Index of the first child with this id, `len` where there is none.
    fn find_child(&self, id: u64) -> (r: usize)
        ensures
            r <= self.children@.len(),
            r == self.children@.len() <==> index_of_id(self.children@, id) == -1,
            r < self.children@.len() ==> r == index_of_id(self.children@, id),
    {
        proof {
            lemma_index_of_id(self.children@, id);
        }
        let mut i: usize = 0;
        while i < self.children.len()
            invariant
                i <= self.children@.len(),
                forall|j: int| 0 <= j < i ==> self.children@[j].id != id,
            decreases self.children@.len() - i,
        {
            if self.children[i].id == id {
                proof {
                    lemma_index_of_id(self.children@, id);
                    if index_of_id(self.children@, id) < i {
                        assert(self.children@[index_of_id(self.children@, id)].id != id);
                    }
                }
                return i;
            }
            i = i + 1;
        }
        proof {
            lemma_index_of_id(self.children@, id);
        }
        i
    }

    /// The node that a chain of ids leads to from this node.
    pub fn node_at(&self, chain: &[u64]) -> (r: Option<&TreeNode>)
        ensures
            match r {
                Some(n) => spec_node_at(*self, chain@) == Some(*n),
                None => spec_node_at(*self, chain@) is None,
            },
    {
        let mut node: &TreeNode = self;
        let mut i: usize = 0;
        proof {
            assert(chain@.skip(0) =~= chain@);
        }
        while i < chain.len()
            invariant
                i <= chain@.len(),
                spec_node_at(*self, chain@) == spec_node_at(*node, chain@.skip(i as int)),
            decreases chain@.len() - i,
        {
            let k: usize = node.find_child(chain[i]);
            proof {
                assert(chain@.skip(i as int).drop_first() =~= chain@.skip(i + 1));
            }
            if k == node.children.len() {
                return None;
            }
            node = &node.children[k];
            i = i + 1;
        }
        Some(node)
    }

    /// The full path of the node that a chain leads to, names joined by
    /// backslashes, starting with this node's name.
    pub fn path_of(&self, chain: &[u64]) -> (r: Option<String>)
        ensures
            match r {
                Some(p) => spec_path_of(*self, chain@) == Some(p@),
                None => spec_path_of(*self, chain@) is None,
            },
    {
        let mut path: String = self.name.clone();
        let mut node: &TreeNode = self;
        let mut i: usize = 0;
        proof {
            assert(chain@.skip(0) =~= chain@);
            match path_below(*self, chain@) {
                Some(rest) => assert(path@ + rest =~= self.name@ + rest),
                None => {},
            }
        }
        while i < chain.len()
            invariant
                i <= chain@.len(),
                spec_path_of(*self, chain@) == match path_below(*node, chain@.skip(i as int)) {
                    Some(rest) => Some(path@ + rest),
                    None => None,
                },
            decreases chain@.len() - i,
        {
            let k: usize = node.find_child(chain[i]);
            proof {
                assert(chain@.skip(i as int).drop_first() =~= chain@.skip(i + 1));
            }
            if k == node.children.len() {
                return None;
            }
            node = &node.children[k];
            let ghost before = path@;
            crate::text::push_char(&mut path, '\\');
            crate::text::push_str(&mut path, node.name.as_str());
            proof {
                match path_below(*node, chain@.skip(i + 1)) {
                    Some(rest) => assert(before + (seq!['\\'] + node.name@ + rest) =~= path@ + rest),
                    None => {},
                }
            }
            i = i + 1;
        }
        proof {
            assert(chain@.skip(i as int) =~= Seq::<u64>::empty());
            assert(path@ + Seq::<char>::empty() =~= path@);
        }
        Some(path)
    }

    /// Takes the node at `chain` (a way of ids below this node) out of the tree and
    /// returns it. The size and counts of every node on the way are reduced by its
    /// own, so the tree stays consistent without a rebuild. An empty chain (this
    /// node itself) or one that leads nowhere gives `None` and changes nothing.
    pub fn remove_descendant(&mut self, chain: &[u64]) -> (r: Option<TreeNode>)
        requires
            removal_fits(*old(self), chain@),
        ensures
            match r {
                None => {
                    &&& *final(self) == *old(self)
                    &&& (chain@.len() == 0 || spec_node_at(*old(self), chain@) is None)
                },
                Some(n) => {
                    &&& chain@.len() > 0
                    &&& spec_node_at(*old(self), chain@) == Some(n)
                    &&& removed_at(*old(self), *final(self), chain@)
                },
            },
        decreases chain@.len(),
    {
        if chain.len() == 0 {
            return None;
        }
        let id: u64 = chain[0];
        let rest: &[u64] = &chain[1..chain.len()];
        assert(rest@ =~= chain@.drop_first());
        let index: usize = self.find_child(id);
        if index == self.children.len() {
            return None;
        }
        let removed: TreeNode;
        let ghost child = self.children@[index as int];
        assert(index == index_of_id(old(self).children@, chain@[0]));
        if rest.len() == 0 {
            removed = self.children.remove(index);
            assert(spec_node_at(child, rest@) == Some(child));
            assert(removed == child);
        } else {
            if self.children[index].node_at(rest).is_none() {
                return None;
            }
            match self.children[index].remove_descendant(rest) {
                Some(n) => {
                    assert(spec_node_at(child, rest@) == Some(n));
                    removed = n;
                },
                None => {
                    proof {
                        assert(false);
                    }
                    return None;
                },
            }
        }
        proof {
            assert(spec_node_at(*old(self), chain@) == Some(removed));
            assert(removal_fits(*old(self), chain@));
            assert(self.total_size == old(self).total_size);
        }
        self.total_size = self.total_size - removed.total_size;
        self.file_count = self.file_count - removed.file_count;
        self.dir_count = self.dir_count - removed.dir_count;
        Some(removed)
    }
}

// ---------------------------------------------------------------------------
// Laws of the aggregates
// ---------------------------------------------------------------------------

/// Sums over sequences of nodes are not negative and hold each element.
pub proof fn lemma_sums_hold_elements(s: Seq<TreeNode>, k: int)
    requires
        0 <= k < s.len(),
    ensures
        sum_total(s) >= s[k].total_size,
        sum_files(s) >= s[k].file_count,
        sum_dirs(s) >= s[k].dir_count,
    decreases s.len(),
{
    lemma_sums_nonneg(s.drop_last());
    if k < s.len() - 1 {
        lemma_sums_hold_elements(s.drop_last(), k);
    }
}

pub proof fn lemma_sums_nonneg(s: Seq<TreeNode>)
    ensures
        sum_total(s) >= 0,
        sum_files(s) >= 0,
        sum_dirs(s) >= 0,
    decreases s.len(),
{
    if s.len() > 0 {
        lemma_sums_nonneg(s.drop_last());
    }
}

/// Replacing one element changes the sums by the difference.
pub proof fn lemma_sums_update(s: Seq<TreeNode>, k: int, x: TreeNode)
    requires
        0 <= k < s.len(),
    ensures
        sum_total(s.update(k, x)) == sum_total(s) - s[k].total_size + x.total_size,
        sum_files(s.update(k, x)) == sum_files(s) - s[k].file_count + x.file_count,
        sum_dirs(s.update(k, x)) == sum_dirs(s) - s[k].dir_count + x.dir_count,
    decreases s.len(),
{
    if k < s.len() - 1 {
        assert(s.update(k, x).drop_last() =~= s.drop_last().update(k, x));
        lemma_sums_update(s.drop_last(), k, x);
    } else {
        assert(s.update(k, x).drop_last() =~= s.drop_last());
    }
}

/// Removing one element takes it off the sums.
pub proof fn lemma_sums_remove(s: Seq<TreeNode>, k: int)
    requires
        0 <= k < s.len(),
    ensures
        sum_total(s.remove(k)) == sum_total(s) - s[k].total_size,
        sum_files(s.remove(k)) == sum_files(s) - s[k].file_count,
        sum_dirs(s.remove(k)) == sum_dirs(s) - s[k].dir_count,
    decreases s.len(),
{
    if k < s.len() - 1 {
        assert(s.remove(k).drop_last() =~= s.drop_last().remove(k));
        assert(s.remove(k).last() == s.last());
        lemma_sums_remove(s.drop_last(), k);
    } else {
        assert(s.remove(k) =~= s.drop_last());
    }
}

/// In a consistent tree the node at a chain is no bigger than the tree, and every
/// node on the way can give up its size and counts.
pub proof fn lemma_wf_removal_fits(root: TreeNode, chain: Seq<u64>)
    requires
        root.wf(),
    ensures
        removal_fits(root, chain),
        spec_node_at(root, chain) matches Some(r) ==> {
            &&& r.wf()
            &&& r.total_size <= root.total_size
            &&& r.file_count <= root.file_count
            &&& r.dir_count <= root.dir_count
        },
    decreases chain.len(),
{
    if chain.len() > 0 {
        let k = index_of_id(root.children@, chain[0]);
        lemma_index_of_id(root.children@, chain[0]);
        if k >= 0 {
            let child = root.children@[k];
            assert(child.wf());
            lemma_wf_removal_fits(child, chain.drop_first());
            lemma_sums_hold_elements(root.children@, k);
        }
    }
}

/// Taking a node out keeps a consistent tree consistent.
pub proof fn lemma_removal_keeps_wf(old: TreeNode, new: TreeNode, chain: Seq<u64>)
    requires
        old.wf(),
        spec_node_at(old, chain) is Some,
        removed_at(old, new, chain),
    ensures
        new.wf(),
    decreases chain.len(),
{
    let k = index_of_id(old.children@, chain[0]);
    lemma_index_of_id(old.children@, chain[0]);
    let r = spec_node_at(old, chain).unwrap();
    if chain.len() == 1 {
        reveal_with_fuel(spec_node_at, 2);
        assert(r == old.children@[k]);
        lemma_sums_remove(old.children@, k);
        assert forall|i: int| 0 <= i < new.children@.len() implies (#[trigger] new.children@[i]).wf() by {
            if i < k {
                assert(new.children@[i] == old.children@[i]);
            } else {
                assert(new.children@[i] == old.children@[i + 1]);
            }
        }
        assert(new.consistent());
    } else {
        let child = old.children@[k];
        assert(child.wf());
        lemma_removal_keeps_wf(child, new.children@[k], chain.drop_first());
        assert(new.children@ =~= old.children@.update(k, new.children@[k]));
        lemma_sums_update(old.children@, k, new.children@[k]);
        assert forall|i: int| 0 <= i < new.children@.len() implies (#[trigger] new.children@[i]).wf() by {
            if i != k {
                assert(new.children@[i] == old.children@[i]);
            }
        }
        assert(spec_node_at(child, chain.drop_first()) == Some(r));
        reveal_with_fuel(removed_at, 2);
        assert(new.children@[k].total_size == child.total_size - r.total_size);
        assert(new.consistent());
    }
}

/// Removing a child right after adding it gives the child back and restores the
/// parent's size, counts and children, provided no other child had its id.
pub proof fn lemma_remove_undoes_add(before: TreeNode, after: TreeNode, child: TreeNode, back: TreeNode)
    requires
        after.children@ == before.children@.push(child),
        after.total_size == before.total_size + child.total_size,
        after.file_count == before.file_count + child.file_count,
        after.dir_count == before.dir_count + child.dir_count,
        after.id == before.id,
        after.name@ == before.name@,
        after.own_size == before.own_size,
        after.is_directory == before.is_directory,
        forall|j: int| 0 <= j < before.children@.len() ==> before.children@[j].id != child.id,
        removed_at(after, back, seq![child.id]),
    ensures
        spec_node_at(after, seq![child.id]) == Some(child),
        same_node(back, before),
{
    reveal_with_fuel(spec_node_at, 2);
    let s = after.children@;
    lemma_index_of_id(s, child.id);
    let k = index_of_id(s, child.id);
    assert(s[before.children@.len() as int] == child);
    if k < before.children@.len() {
        assert(s[k] == before.children@[k]);
    }
    assert(k == before.children@.len());
    assert(seq![child.id].drop_first() =~= Seq::<u64>::empty());
    assert(s.remove(k) =~= before.children@);
}

// ---------------------------------------------------------------------------
// Sorting by size
// ---------------------------------------------------------------------------

/// Below this depth the subtrees of a directory are sorted in parallel.
pub const PARALLEL_DEPTH: usize = 3;

/// `new` is `old` with the children of every directory sorted by total size,
/// largest first, equal sizes in their previous order; a file's children are
/// left as they are. Nothing else changes.
pub open spec fn sorted_by_size(old: TreeNode, new: TreeNode) -> bool
    decreases old,
{
    &&& new.id == old.id
    &&& new.name@ == old.name@
    &&& new.own_size == old.own_size
    &&& new.total_size == old.total_size
    &&& new.is_directory == old.is_directory
    &&& new.file_count == old.file_count
    &&& new.dir_count == old.dir_count
    &&& new.children@.len() == old.children@.len()
    &&& exists|p: Seq<int>|
        #[trigger] size_order(old.children@, p) && forall|i: int|
            0 <= i < p.len() ==> if old.children@[p[i]].is_directory {
                sorted_by_size(old.children@[p[i]], new.children@[i])
            } else {
                new.children@[i] == old.children@[p[i]]
            }
}

/// Sorts the directories among `children` with `sort_by_size_at` on rayon's thread
/// pool (`par_iter_mut`, `filter`, `for_each`); files stay as they are.
#[verifier::external_body]
fn sort_directories_in_parallel(children: &mut Vec<TreeNode>, depth: usize)
    ensures
        final(children)@.len() == old(children)@.len(),
        forall|i: int| 0 <= i < old(children)@.len() ==> if old(children)@[i].is_directory {
            sorted_by_size(old(children)@[i], final(children)@[i])
        } else {
            final(children)@[i] == old(children)@[i]
        },
{
    children.par_iter_mut().filter(|child| child.is_directory).for_each(
        |child| child.sort_by_size_at(depth),
    );
}

/// The positions as integers.
pub open spec fn positions_of(idx: Seq<usize>) -> Seq<int> {
    idx.map_values(|x: usize| x as int)
}

/// The nodes in size order, largest first, equal sizes in their order in `children`.
pub fn sort_children(children: Vec<TreeNode>) -> (r: (Vec<TreeNode>, Ghost<Seq<int>>))
    ensures
        size_order(children@, r.1@),
        r.0@.len() == children@.len(),
        forall|i: int| 0 <= i < children@.len() ==> r.0@[i] == children@[r.1@[i]],
{
    let (out, idx) = sort_children_indexed(children);
    (out, Ghost(positions_of(idx@)))
}

/// Like [`sort_children`], with the position in `children` of each node of the
/// result.
pub fn sort_children_indexed(children: Vec<TreeNode>) -> (r: (Vec<TreeNode>, Vec<usize>))
    ensures
        size_order(children@, positions_of(r.1@)),
        r.0@.len() == children@.len(),
        forall|i: int| 0 <= i < children@.len() ==> r.0@[i] == children@[r.1@[i] as int],
{
    let ghost orig = children@;
    let mut children = children;
    let n: usize = children.len();
    let mut keyed: Vec<Keyed> = Vec::new();
    while children.len() > 0
        invariant
            n == orig.len(),
            children@ == orig.subrange(0, children@.len() as int),
            keyed@.len() == n - children@.len(),
            forall|k: int| 0 <= k < keyed@.len() ==> keyed_from(orig, #[trigger] keyed@[k])
                && keyed@[k].index == n - 1 - k,
        decreases children@.len(),
    {
        let c: TreeNode = children.pop().unwrap();
        let i: usize = children.len();
        keyed.push(Keyed { key: c.total_size, index: i, node: c });
    }
    let ghost keyed0 = keyed@;
    let sorted: Vec<Keyed> = sort_keyed(keyed);
    let ghost p = positions(sorted@);
    proof {
        assert forall|a: int, b: int| 0 <= a < b < keyed0.len() implies keyed0[a].index
            != keyed0[b].index by {}
        lemma_sorted_is_size_order(orig, keyed0, sorted@);
        sorted@.lemma_reverse_to_multiset();
    }
    let ghost sorted0 = sorted@;
    let mut rev: Vec<Keyed> = reversed(sorted);
    let mut out: Vec<TreeNode> = Vec::new();
    let mut idx: Vec<usize> = Vec::new();
    while rev.len() > 0
        invariant
            n == orig.len(),
            sorted0.len() == n,
            p == positions(sorted0),
            forall|i: int| 0 <= i < sorted0.len() ==> keyed_from(orig, #[trigger] sorted0[i]),
            rev@ == sorted0.reverse().subrange(0, rev@.len() as int),
            out@.len() + rev@.len() == n,
            idx@.len() == out@.len(),
            forall|i: int| 0 <= i < out@.len() ==> out@[i] == orig[p[i]],
            forall|i: int| 0 <= i < idx@.len() ==> idx@[i] as int == p[i],
        decreases rev@.len(),
    {
        let k: Keyed = rev.pop().unwrap();
        proof {
            let i = out@.len() as int;
            assert(k == sorted0[i]);
            assert(keyed_from(orig, sorted0[i]));
        }
        idx.push(k.index);
        out.push(k.node);
    }
    proof {
        assert(positions_of(idx@) =~= p);
    }
    (out, idx)
}

impl TreeNode {
    /// Sorts the children by size, largest first, recursively for the whole subtree.
    /// Call it once at the root, not per level.
    pub fn sort_by_size(&mut self)
        ensures
            sorted_by_size(*old(self), *final(self)),
    {
        self.sort_by_size_at(0);
    }

    /// Like [`TreeNode::sort_by_size`]; the top levels in parallel.
    pub fn sort_by_size_at(&mut self, depth: usize)
        ensures
            sorted_by_size(*old(self), *final(self)),
        decreases *old(self),
    {
        let mut children: Vec<TreeNode> = Vec::new();
        std::mem::swap(&mut children, &mut self.children);
        let ghost orig = children@;
        let n: usize = children.len();
        let (mut out, Ghost(p)) = sort_children(children);
        if depth < PARALLEL_DEPTH {
            let ghost before = out@;
            sort_directories_in_parallel(&mut out, depth + 1);
            proof {
                assert forall|i: int| 0 <= i < p.len() implies if orig[p[i]].is_directory {
                    sorted_by_size(orig[p[i]], out@[i])
                } else {
                    out@[i] == orig[p[i]]
                } by {
                    assert(before[i] == orig[p[i]]);
                }
            }
        } else {
            let mut i: usize = 0;
            while i < out.len()
                invariant
                    n == orig.len(),
                    orig == old(self).children@,
                    p.len() == n,
                    size_order(orig, p),
                    out@.len() == n,
                    i <= n,
                    forall|j: int| 0 <= j < i ==> if orig[p[j]].is_directory {
                        sorted_by_size(orig[p[j]], #[trigger] out@[j])
                    } else {
                        out@[j] == orig[p[j]]
                    },
                    forall|j: int| i <= j < n ==> #[trigger] out@[j] == orig[p[j]],
                decreases n - i,
            {
                // Past the parallel levels the depth no longer matters.
                if out[i].is_directory {
                    let ghost child = out@[i as int];
                    proof {
                        assert(child == old(self).children@[p[i as int]]);
                        assert(decreases_to!(old(self).children => old(self).children@));
                    }
                    out[i].sort_by_size_at(depth);
                }
                i = i + 1;
            }
        }
        self.children = out;
        proof {
            assert(size_order(old(self).children@, p));
        }
    }
}

/// Nodes that are the nodes of `s` in another order, with the same sizes and
/// counts, have the same sums.
pub proof fn lemma_sums_permuted(s: Seq<TreeNode>, t: Seq<TreeNode>, p: Seq<int>)
    requires
        is_permutation(p, s.len() as int),
        t.len() == s.len(),
        forall|i: int| 0 <= i < t.len() ==> {
            &&& (#[trigger] t[i]).total_size == s[p[i]].total_size
            &&& t[i].file_count == s[p[i]].file_count
            &&& t[i].dir_count == s[p[i]].dir_count
        },
    ensures
        sum_total(t) == sum_total(s),
        sum_files(t) == sum_files(s),
        sum_dirs(t) == sum_dirs(s),
    decreases s.len(),
{
    if s.len() > 0 {
        let n = s.len() as int;
        let k = p[n - 1];
        let s2 = s.remove(k);
        let t2 = t.drop_last();
        let p2 = Seq::new((n - 1) as nat, |i: int| if p[i] > k { p[i] - 1 } else { p[i] });
        assert forall|i: int| 0 <= i < p2.len() implies 0 <= #[trigger] p2[i] < s2.len() by {
            assert(p[i] != k);
        }
        assert forall|i: int, j: int| 0 <= i < j < p2.len() implies p2[i] != p2[j] by {
            assert(p[i] != p[j]);
            assert(p[i] != k && p[j] != k);
        }
        assert forall|i: int| 0 <= i < t2.len() implies {
            &&& (#[trigger] t2[i]).total_size == s2[p2[i]].total_size
            &&& t2[i].file_count == s2[p2[i]].file_count
            &&& t2[i].dir_count == s2[p2[i]].dir_count
        } by {
            assert(p[i] != k);
            assert(t2[i] == t[i]);
            if p[i] > k {
                assert(s2[p2[i]] == s[p[i]]);
            } else {
                assert(s2[p2[i]] == s[p[i]]);
            }
        }
        lemma_sums_permuted(s2, t2, p2);
        lemma_sums_remove(s, k);
    }
}

/// Sorting by size keeps a consistent tree consistent.
pub proof fn lemma_sort_keeps_wf(old: TreeNode, new: TreeNode)
    requires
        old.wf(),
        sorted_by_size(old, new),
    ensures
        new.wf(),
    decreases old,
{
    let p = choose|p: Seq<int>|
        #[trigger] size_order(old.children@, p) && forall|i: int|
            0 <= i < p.len() ==> if old.children@[p[i]].is_directory {
                sorted_by_size(old.children@[p[i]], new.children@[i])
            } else {
                new.children@[i] == old.children@[p[i]]
            };
    assert forall|i: int| 0 <= i < new.children@.len() implies (#[trigger] new.children@[i]).wf() by {
        let c = old.children@[p[i]];
        assert(c.wf());
        if c.is_directory {
            lemma_sort_keeps_wf(c, new.children@[i]);
        }
    }
    assert forall|i: int| 0 <= i < new.children@.len() implies {
        &&& (#[trigger] new.children@[i]).total_size == old.children@[p[i]].total_size
        &&& new.children@[i].file_count == old.children@[p[i]].file_count
        &&& new.children@[i].dir_count == old.children@[p[i]].dir_count
    } by {}
    lemma_sums_permuted(old.children@, new.children@, p);
}

// ---------------------------------------------------------------------------
// Copies and traversal
// ---------------------------------------------------------------------------

/// `a` and `b` are the same tree: the same fields in every node.
pub open spec fn same_tree(a: TreeNode, b: TreeNode) -> bool
    decreases a,
{
    &&& a.id == b.id
    &&& a.name@ == b.name@
    &&& a.own_size == b.own_size
    &&& a.total_size == b.total_size
    &&& a.is_directory == b.is_directory
    &&& a.file_count == b.file_count
    &&& a.dir_count == b.dir_count
    &&& a.children@.len() == b.children@.len()
    &&& forall|i: int| 0 <= i < a.children@.len() ==> same_tree(a.children@[i], b.children@[i])
}

/// The nodes of the subtrees of `s` in pre-order: each node before its children.
pub open spec fn preorder(s: Seq<TreeNode>) -> Seq<TreeNode>
    decreases s,
{
    if s.len() == 0 {
        seq![]
    } else {
        preorder(s.drop_last()) + seq![s.last()] + preorder(s.last().children@)
    }
}

/// The path of a node named `name` under a node with the path `parent`: the names
/// joined by a backslash, the name alone under an empty path.
pub open spec fn joined(parent: Seq<char>, name: Seq<char>) -> Seq<char> {
    if parent.len() == 0 {
        name
    } else {
        parent + seq!['\\'] + name
    }
}

/// The paths of the nodes of the subtrees of `s` in pre-order (as in
/// [`preorder`]), when the nodes of `s` lie under a node with the path `parent`.
pub open spec fn paths_in(s: Seq<TreeNode>, parent: Seq<char>) -> Seq<Seq<char>>
    decreases s,
{
    if s.len() == 0 {
        seq![]
    } else {
        let p = joined(parent, s.last().name@);
        paths_in(s.drop_last(), parent) + seq![p] + paths_in(s.last().children@, p)
    }
}

/// There is one path for each node.
pub proof fn lemma_paths_len(s: Seq<TreeNode>, parent: Seq<char>)
    ensures
        paths_in(s, parent).len() == preorder(s).len(),
    decreases s,
{
    if s.len() > 0 {
        lemma_paths_len(s.drop_last(), parent);
        lemma_paths_len(s.last().children@, joined(parent, s.last().name@));
    }
}

/// The path of a node named `name` under the path `parent` (see [`joined`]).
pub fn join_path(parent: &String, name: &String) -> (r: String)
    ensures
        r@ == joined(parent@, name@),
{
    if parent.as_str().unicode_len() == 0 {
        name.clone()
    } else {
        let mut r: String = parent.clone();
        push_char(&mut r, '\\');
        push_str(&mut r, name.as_str());
        proof {
            assert(r@ =~= parent@ + seq!['\\'] + name@);
        }
        r
    }
}

impl TreeNode {
    /// A deep copy of this subtree.
    pub fn deep_copy(&self) -> (r: TreeNode)
        ensures
            same_tree(*self, r),
        decreases self,
    {
        let mut children: Vec<TreeNode> = Vec::new();
        let mut i: usize = 0;
        while i < self.children.len()
            invariant
                i <= self.children@.len(),
                children@.len() == i,
                forall|j: int| 0 <= j < i ==> same_tree(self.children@[j], #[trigger] children@[j]),
            decreases self.children@.len() - i,
        {
            let c: TreeNode = self.children[i].deep_copy();
            children.push(c);
            i = i + 1;
        }
        TreeNode {
            id: self.id,
            name: self.name.clone(),
            own_size: self.own_size,
            total_size: self.total_size,
            is_directory: self.is_directory,
            children,
            file_count: self.file_count,
            dir_count: self.dir_count,
        }
    }

    /// The size as a human-readable text (see [`format_size`]).
    pub fn size_string(&self) -> (r: String)
        ensures
            r@ == crate::tree::size_text::spec_format_size(self.total_size),
    {
        crate::tree::size_text::format_size(self.total_size)
    }

    /// Appends copies of the nodes of this subtree to `out`, in pre-order.
    pub fn collect_nodes(&self, out: &mut Vec<TreeNode>)
        ensures
            final(out)@.len() == old(out)@.len() + preorder(seq![*self]).len(),
            forall|j: int| 0 <= j < old(out)@.len() ==> final(out)@[j] == old(out)@[j],
            forall|j: int|
                0 <= j < preorder(seq![*self]).len() ==> same_tree(
                    preorder(seq![*self])[j],
                    #[trigger] final(out)@[old(out)@.len() + j],
                ),
        decreases self,
    {
        let ghost start = out@.len();
        out.push(self.deep_copy());
        let mut i: usize = 0;
        proof {
            assert(self.children@.take(0) =~= Seq::<TreeNode>::empty());
        }
        while i < self.children.len()
            invariant
                i <= self.children@.len(),
                start == old(out)@.len(),
                out@.len() == start + 1 + preorder(self.children@.take(i as int)).len(),
                forall|j: int| 0 <= j < start ==> out@[j] == old(out)@[j],
                same_tree(*self, out@[start as int]),
                forall|j: int|
                    0 <= j < preorder(self.children@.take(i as int)).len() ==> same_tree(
                        preorder(self.children@.take(i as int))[j],
                        #[trigger] out@[start + 1 + j],
                    ),
            decreases self.children@.len() - i,
        {
            let ghost before = out@;
            let ghost prefix = preorder(self.children@.take(i as int));
            self.children[i].collect_nodes(out);
            proof {
                let c = self.children@[i as int];
                let t = self.children@.take(i + 1);
                assert(t.drop_last() =~= self.children@.take(i as int));
                assert(t.last() == c);
                let single = seq![c];
                assert(single.drop_last() =~= Seq::<TreeNode>::empty());
                assert(preorder(single.drop_last()) =~= Seq::<TreeNode>::empty());
                assert(preorder(single) =~= seq![c] + preorder(c.children@));
                assert(preorder(t) =~= prefix + preorder(single));
                assert forall|j: int| 0 <= j < preorder(t).len() implies same_tree(
                    preorder(t)[j],
                    #[trigger] out@[start + 1 + j],
                ) by {
                    if j < prefix.len() {
                        assert(preorder(t)[j] == prefix[j]);
                        assert(out@[start + 1 + j] == before[start + 1 + j]);
                    } else {
                        let k = j - prefix.len();
                        assert(preorder(t)[j] == preorder(single)[k]);
                        assert(same_tree(preorder(single)[k], out@[before.len() + k]));
                        assert(before.len() + k == start + 1 + j);
                    }
                }
            }
            i = i + 1;
        }
        proof {
            assert(self.children@.take(self.children@.len() as int) =~= self.children@);
            let single = seq![*self];
            assert(single.drop_last() =~= Seq::<TreeNode>::empty());
            assert(preorder(single.drop_last()) =~= Seq::<TreeNode>::empty());
            assert(preorder(single) =~= seq![*self] + preorder(self.children@));
            assert forall|j: int| 0 <= j < preorder(single).len() implies same_tree(
                preorder(single)[j],
                #[trigger] out@[start + j],
            ) by {
                if j > 0 {
                    assert(preorder(single)[j] == preorder(self.children@)[j - 1]);
                    assert(out@[start + 1 + (j - 1)] == out@[start + j]);
                }
            }
        }
    }
}
impl TreeNode {
    /// Appends the paths of the nodes of this subtree to `out`, in pre-order, when
    /// this node lies under the path `parent` (see [`paths_in`]).
    pub fn collect_paths(&self, parent: &String, out: &mut Vec<String>)
        ensures
            final(out)@.len() == old(out)@.len() + paths_in(seq![*self], parent@).len(),
            forall|j: int| 0 <= j < old(out)@.len() ==> final(out)@[j] == old(out)@[j],
            forall|j: int|
                0 <= j < paths_in(seq![*self], parent@).len() ==> (#[trigger] final(out)@[old(
                    out,
                )@.len() + j])@ == paths_in(seq![*self], parent@)[j],
        decreases self,
    {
        let ghost start = out@.len();
        let path: String = join_path(parent, &self.name);
        out.push(path.clone());
        let mut i: usize = 0;
        proof {
            assert(self.children@.take(0) =~= Seq::<TreeNode>::empty());
        }
        while i < self.children.len()
            invariant
                i <= self.children@.len(),
                start == old(out)@.len(),
                path@ == joined(parent@, self.name@),
                out@.len() == start + 1 + paths_in(self.children@.take(i as int), path@).len(),
                forall|j: int| 0 <= j < start ==> out@[j] == old(out)@[j],
                out@[start as int]@ == path@,
                forall|j: int|
                    0 <= j < paths_in(self.children@.take(i as int), path@).len() ==> (
                    #[trigger] out@[start + 1 + j])@ == paths_in(
                        self.children@.take(i as int),
                        path@,
                    )[j],
            decreases self.children@.len() - i,
        {
            let ghost before = out@;
            let ghost prefix = paths_in(self.children@.take(i as int), path@);
            self.children[i].collect_paths(&path, out);
            proof {
                let c = self.children@[i as int];
                let t = self.children@.take(i + 1);
                assert(t.drop_last() =~= self.children@.take(i as int));
                assert(t.last() == c);
                let single = seq![c];
                assert(single.drop_last() =~= Seq::<TreeNode>::empty());
                assert(paths_in(single.drop_last(), path@) =~= Seq::<Seq<char>>::empty());
                let here = paths_in(single, path@);
                assert(paths_in(t, path@) =~= prefix + here);
                assert forall|j: int| 0 <= j < paths_in(t, path@).len() implies (
                #[trigger] out@[start + 1 + j])@ == paths_in(t, path@)[j] by {
                    if j < prefix.len() {
                        assert(paths_in(t, path@)[j] == prefix[j]);
                        assert(out@[start + 1 + j] == before[start + 1 + j]);
                    } else {
                        let k = j - prefix.len();
                        assert(paths_in(t, path@)[j] == here[k]);
                        assert(before.len() + k == start + 1 + j);
                        assert(out@[before.len() + k]@ == here[k]);
                    }
                }
            }
            i = i + 1;
        }
        proof {
            assert(self.children@.take(self.children@.len() as int) =~= self.children@);
            let single = seq![*self];
            assert(single.drop_last() =~= Seq::<TreeNode>::empty());
            assert(paths_in(single.drop_last(), parent@) =~= Seq::<Seq<char>>::empty());
            let all = paths_in(single, parent@);
            assert(all =~= seq![path@] + paths_in(self.children@, path@));
            assert forall|j: int| 0 <= j < all.len() implies (#[trigger] out@[start + j])@
                == all[j] by {
                if j > 0 {
                    assert(all[j] == paths_in(self.children@, path@)[j - 1]);
                    assert(out@[start + 1 + (j - 1)] == out@[start + j]);
                }
            }
        }
    }
}

/// How many levels lie below the nodes `s`: 0 without children, else one more
/// than below the deepest child.
pub open spec fn depth_below(s: Seq<TreeNode>) -> nat
    decreases s,
{
    if s.len() == 0 {
        0
    } else {
        let a = depth_below(s.drop_last());
        let b = 1 + depth_below(s.last().children@);
        if a >= b {
            a
        } else {
            b
        }
    }
}

/// Each node lies one level above the levels below it.
pub proof fn lemma_depth_below_element(s: Seq<TreeNode>, i: int)
    requires
        0 <= i < s.len(),
    ensures
        1 + depth_below(s[i].children@) <= depth_below(s),
    decreases s.len(),
{
    if i < s.len() - 1 {
        lemma_depth_below_element(s.drop_last(), i);
        assert(s.drop_last()[i] == s[i]);
    }
}

/// The nodes of the subtrees of `s` in pre-order, each with its depth when the
/// nodes of `s` stand at `depth`: each node before its children, which stand one
/// level deeper.
pub open spec fn visits_in(s: Seq<TreeNode>, depth: int) -> Seq<(TreeNode, int)>
    decreases s,
{
    if s.len() == 0 {
        seq![]
    } else {
        visits_in(s.drop_last(), depth) + seq![(s.last(), depth)] + visits_in(
            s.last().children@,
            depth + 1,
        )
    }
}

/// The visits of `s` followed by `c` are those of `s`, then those of `c`'s subtree.
proof fn lemma_visits_push(s: Seq<TreeNode>, c: TreeNode, depth: int)
    ensures
        visits_in(s.push(c), depth) =~= visits_in(s, depth) + visits_in(seq![c], depth),
{
    let single = seq![c];
    assert(s.push(c).drop_last() =~= s);
    assert(single.drop_last() =~= Seq::<TreeNode>::empty());
    assert(visits_in(single.drop_last(), depth) =~= Seq::<(TreeNode, int)>::empty());
}

impl TreeNode {
    /// Calls `callback` on every node of the subtree in pre-order, each with its
    /// depth: this node with `depth`, its children with `depth + 1` and so on.
    /// What the callback ensures then holds of each pair in `visits_in`.
    pub fn traverse<F>(&self, depth: usize, callback: &mut F)
        where
            F: FnMut(&TreeNode, usize),
        requires
            depth + depth_below(self.children@) <= usize::MAX,
            forall|n: &TreeNode, d: usize| call_requires(*old(callback), (n, d)),
        ensures
            *final(callback) == *old(callback),
            forall|k: int|
                0 <= k < visits_in(seq![*self], depth as int).len() ==> call_ensures(
                    *old(callback),
                    (
                        &(#[trigger] visits_in(seq![*self], depth as int)[k]).0,
                        visits_in(seq![*self], depth as int)[k].1 as usize,
                    ),
                    (),
                ),
        decreases self,
    {
        callback(self, depth);
        let mut i: usize = 0;
        while i < self.children.len()
            invariant
                i <= self.children@.len(),
                depth + depth_below(self.children@) <= usize::MAX,
                forall|n: &TreeNode, d: usize| call_requires(*old(callback), (n, d)),
                *callback == *old(callback),
                call_ensures(*old(callback), (self, depth), ()),
                forall|k: int|
                    0 <= k < visits_in(self.children@.take(i as int), depth + 1).len()
                    ==> call_ensures(
                    *old(callback),
                    (
                        &(#[trigger] visits_in(self.children@.take(i as int), depth + 1)[k]).0,
                        visits_in(self.children@.take(i as int), depth + 1)[k].1 as usize,
                    ),
                    (),
                ),
            decreases self.children@.len() - i,
        {
            proof {
                lemma_depth_below_element(self.children@, i as int);
            }
            self.children[i].traverse(depth + 1, callback);
            proof {
                let before = visits_in(self.children@.take(i as int), depth + 1);
                let here = visits_in(seq![self.children@[i as int]], depth + 1);
                assert(self.children@.take(i + 1) =~= self.children@.take(i as int).push(
                    self.children@[i as int],
                ));
                lemma_visits_push(
                    self.children@.take(i as int),
                    self.children@[i as int],
                    depth + 1,
                );
                let after = visits_in(self.children@.take(i + 1), depth + 1);
                assert forall|k: int| 0 <= k < after.len() implies call_ensures(
                    *old(callback),
                    (&(#[trigger] after[k]).0, after[k].1 as usize),
                    (),
                ) by {
                    if k < before.len() {
                        assert(after[k] == before[k]);
                    } else {
                        assert(after[k] == here[k - before.len()]);
                    }
                }
            }
            i = i + 1;
        }
        proof {
            assert(self.children@.take(i as int) =~= self.children@);
            let single = seq![*self];
            assert(single.drop_last() =~= Seq::<TreeNode>::empty());
            assert(visits_in(single.drop_last(), depth as int) =~= Seq::<(TreeNode, int)>::empty());
            assert(visits_in(single, depth as int) =~= seq![(*self, depth as int)] + visits_in(
                self.children@,
                depth + 1,
            ));
        }
    }
}

/// A chain leads to a path exactly where it leads to a node: [`TreeNode::path_of`]
/// and [`TreeNode::node_at`] fail on the same chains.
pub proof fn lemma_path_exactly_where_node(root: TreeNode, chain: Seq<u64>)
    ensures
        spec_path_of(root, chain) is Some <==> spec_node_at(root, chain) is Some,
    decreases chain.len(),
{
    lemma_path_below_where_node(root, chain);
}

proof fn lemma_path_below_where_node(root: TreeNode, chain: Seq<u64>)
    ensures
        path_below(root, chain) is Some <==> spec_node_at(root, chain) is Some,
    decreases chain.len(),
{
    if chain.len() > 0 {
        let k = index_of_id(root.children@, chain[0]);
        if k >= 0 {
            lemma_path_below_where_node(root.children@[k], chain.drop_first());
        }
    }
}

} // verus!
