//! The state of the interactive view and how it answers the user: which
//! directories are open, the order of the list, the selected node and the
//! directory that the treemap shows.

use vstd::prelude::*;
use std::collections::HashSet;
use crate::tree::listing::{collect_visible_ids, describe, description, rows_below, SortColumn, SortOrder};
use crate::tree::node::{depth_below, spec_node_at, spec_path_of, TreeNode};
use crate::treemap::Treemap;

verus! {

broadcast use vstd::std_specs::hash::group_hash_axioms;

/// What the view holds besides the window.
pub struct AppState {
    /// The tree of the last scan.
    pub tree: Option<TreeNode>,
    /// Ids of the expanded directories.
    pub expanded: HashSet<u64>,
    pub sort: SortOrder,
    /// The selected node, by a click in the list or in the treemap.
    pub selected: Option<u64>,
    /// The way from the root to the directory the treemap shows (empty: the
    /// whole drive).
    pub treemap_root: Vec<u64>,
    /// The treemap drawn last, for hovering and clicking.
    pub treemap: Option<Treemap>,
}

/// The ids of the rows of the list.
pub open spec fn visible_ids(tree: TreeNode, expanded: Set<u64>, sort: SortOrder) -> Seq<u64> {
    rows_below(tree, expanded, sort, 0).map_values(|x: (TreeNode, int, bool)| x.0.id)
}

/// The depths of the rows of the tree fit in 32 bits.
pub open spec fn depth_fits(tree: Option<TreeNode>) -> bool {
    tree matches Some(t) ==> depth_below(t.children@) <= i32::MAX
}

/// The sort order after a click on the head of `column`: the same column turns
/// the direction round, another column starts with its first choice.
pub open spec fn sort_after_click(sort: SortOrder, column: SortColumn) -> SortOrder {
    if sort.column == column {
        SortOrder { column, descending: !sort.descending }
    } else {
        SortOrder { column, descending: column == SortColumn::Size }
    }
}

/// The first position of `x` in `s`.
pub open spec fn first_position(s: Seq<u64>, x: u64, i: int) -> bool {
    &&& 0 <= i < s.len()
    &&& s[i] == x
    &&& forall|j: int| 0 <= j < i ==> s[j] != x
}

impl AppState {
    /// No tree, nothing open or selected, sorted by size descending.
    pub fn new() -> (r: Self)
        ensures
            r.tree is None,
            r.expanded@ == Set::<u64>::empty(),
            r.sort == (SortOrder { column: SortColumn::Size, descending: true }),
            r.selected is None,
            r.treemap_root@ == Seq::<u64>::empty(),
            r.treemap is None,
    {
        AppState {
            tree: None,
            expanded: HashSet::new(),
            sort: SortOrder::default_for(SortColumn::Size),
            selected: None,
            treemap_root: Vec::new(),
            treemap: None,
        }
    }

    /// The directory that the treemap shows.
    pub fn treemap_root_node(&self) -> (r: Option<&TreeNode>)
        ensures
            match self.tree {
                Some(t) => match r {
                    Some(n) => spec_node_at(t, self.treemap_root@) == Some(*n),
                    None => spec_node_at(t, self.treemap_root@) is None,
                },
                None => r is None,
            },
    {
        match &self.tree {
            Some(t) => t.node_at(self.treemap_root.as_slice()),
            None => None,
        }
    }

    /// A scan is done: its tree, and everything else from the start but the
    /// sort order.
    pub fn set_tree(&mut self, tree: TreeNode)
        ensures
            final(self).tree == Some(tree),
            final(self).expanded@ == Set::<u64>::empty(),
            final(self).sort == old(self).sort,
            final(self).selected is None,
            final(self).treemap_root@ == Seq::<u64>::empty(),
            final(self).treemap is None,
    {
        let sort = self.sort;
        *self = AppState::new();
        self.sort = sort;
        self.tree = Some(tree);
    }

    /// A click on the head of `column` (see [`sort_after_click`]).
    pub fn sort_by(&mut self, column: SortColumn)
        ensures
            final(self).sort == sort_after_click(old(self).sort, column),
            final(self).tree == old(self).tree,
            final(self).expanded@ == old(self).expanded@,
            final(self).selected == old(self).selected,
            final(self).treemap_root@ == old(self).treemap_root@,
    {
        self.sort = if self.sort.column == column {
            SortOrder { column, descending: !self.sort.descending }
        } else {
            SortOrder::default_for(column)
        };
    }

    /// A click on row `index` of the list: a directory there opens or closes,
    /// and its node is selected. Returns whether there was such a row.
    pub fn toggle_entry(&mut self, index: usize) -> (r: bool)
        requires
            depth_fits(old(self).tree),
        ensures
            final(self).tree == old(self).tree,
            final(self).sort == old(self).sort,
            final(self).treemap_root@ == old(self).treemap_root@,
            match old(self).tree {
                Some(t) if index < visible_ids(t, old(self).expanded@, old(self).sort).len() => {
                    let id = visible_ids(t, old(self).expanded@, old(self).sort)[index as int];
                    &&& r
                    &&& final(self).selected == Some(id)
                    &&& final(self).expanded@ == if old(self).expanded@.contains(id) {
                        old(self).expanded@.remove(id)
                    } else {
                        old(self).expanded@.insert(id)
                    }
                },
                _ => {
                    &&& !r
                    &&& final(self).selected == old(self).selected
                    &&& final(self).expanded@ == old(self).expanded@
                },
            },
    {
        let clicked: u64 = match &self.tree {
            None => {
                return false;
            },
            Some(tree) => {
                let visible = collect_visible_ids(tree, &self.expanded, self.sort);
                if index >= visible.len() {
                    return false;
                }
                visible[index]
            },
        };
        if !self.expanded.remove(&clicked) {
            self.expanded.insert(clicked);
        }
        self.selected = Some(clicked);
        true
    }

    /// A click in the treemap on the node at `chain` (from the tree's root):
    /// the directories on the way open and the node is selected. Returns
    /// whether the chain was not empty.
    pub fn show_in_list(&mut self, chain: &[u64]) -> (r: bool)
        ensures
            final(self).tree == old(self).tree,
            final(self).sort == old(self).sort,
            final(self).treemap_root@ == old(self).treemap_root@,
            r == (chain@.len() > 0),
            chain@.len() == 0 ==> final(self).expanded@ == old(self).expanded@ && final(self).selected
                == old(self).selected,
            chain@.len() > 0 ==> final(self).selected == Some(chain@.last()) && final(self).expanded@
                == old(self).expanded@.union(chain@.drop_last().to_set()),
    {
        if chain.len() == 0 {
            return false;
        }
        let n: usize = chain.len();
        let ghost start = self.expanded@;
        let mut i: usize = 0;
        while i < n - 1
            invariant
                n == chain@.len(),
                n > 0,
                i <= n - 1,
                self.expanded@ == start.union(chain@.subrange(0, i as int).to_set()),
                self.tree == old(self).tree,
                self.sort == old(self).sort,
                self.treemap_root@ == old(self).treemap_root@,
                start == old(self).expanded@,
            decreases n - 1 - i,
        {
            self.expanded.insert(chain[i]);
            proof {
                assert(chain@.subrange(0, i + 1) =~= chain@.subrange(0, i as int).push(chain@[i as int]));
                chain@.subrange(0, i as int).lemma_push_to_set_commute(chain@[i as int]);
                assert(self.expanded@ =~= start.union(chain@.subrange(0, i + 1).to_set()));
            }
            i = i + 1;
        }
        proof {
            assert(chain@.subrange(0, n - 1) =~= chain@.drop_last());
        }
        self.selected = Some(chain[n - 1]);
        true
    }

    /// A double click in the treemap on the node at `chain` (from the tree's
    /// root): the treemap moves one level down, towards it, where that level is a
    /// directory with children. Returns whether it moved.
    pub fn descend(&mut self, chain: &[u64]) -> (r: bool)
        ensures
            final(self).tree == old(self).tree,
            final(self).sort == old(self).sort,
            final(self).expanded@ == old(self).expanded@,
            final(self).selected == old(self).selected,
            r == (old(self).treemap_root@.len() < chain@.len() && match old(self).tree {
                Some(t) => match spec_node_at(
                    t,
                    old(self).treemap_root@.push(chain@[old(self).treemap_root@.len() as int]),
                ) {
                    Some(n) => n.is_directory && n.children@.len() > 0,
                    None => false,
                },
                None => false,
            }),
            r ==> final(self).treemap_root@ == old(self).treemap_root@.push(
                chain@[old(self).treemap_root@.len() as int],
            ),
            !r ==> final(self).treemap_root@ == old(self).treemap_root@,
    {
        let depth: usize = self.treemap_root.len();
        if depth >= chain.len() {
            return false;
        }
        let mut new_root: Vec<u64> = self.treemap_root.clone();
        new_root.push(chain[depth]);
        proof {
            assert(new_root@ =~= old(self).treemap_root@.push(chain@[depth as int]));
        }
        let opens: bool = match &self.tree {
            Some(t) => match t.node_at(new_root.as_slice()) {
                Some(n) => n.is_directory && n.children.len() > 0,
                None => false,
            },
            None => false,
        };
        if !opens {
            return false;
        }
        self.treemap_root = new_root;
        true
    }

    /// "Up": the treemap moves one level back. Returns whether it was below the
    /// root.
    pub fn ascend(&mut self) -> (r: bool)
        ensures
            final(self).tree == old(self).tree,
            final(self).expanded@ == old(self).expanded@,
            final(self).selected == old(self).selected,
            r == (old(self).treemap_root@.len() > 0),
            final(self).treemap_root@ == if r {
                old(self).treemap_root@.drop_last()
            } else {
                old(self).treemap_root@
            },
    {
        match self.treemap_root.pop() {
            Some(_) => true,
            None => false,
        }
    }

    /// The row of the selected node in the list, if it is shown.
    pub fn selected_index(&self) -> (r: Option<usize>)
        requires
            depth_fits(self.tree),
        ensures
            match (self.tree, self.selected) {
                (Some(t), Some(id)) => match r {
                    Some(i) => first_position(visible_ids(t, self.expanded@, self.sort), id, i as int),
                    None => !visible_ids(t, self.expanded@, self.sort).contains(id),
                },
                _ => r is None,
            },
    {
        let tree = match &self.tree {
            Some(t) => t,
            None => {
                return None;
            },
        };
        let id: u64 = match self.selected {
            Some(id) => id,
            None => {
                return None;
            },
        };
        let visible = collect_visible_ids(tree, &self.expanded, self.sort);
        let ghost ids = visible_ids(*tree, self.expanded@, self.sort);
        let mut i: usize = 0;
        while i < visible.len()
            invariant
                visible@ == ids,
                self.tree == Some(*tree),
                self.selected == Some(id),
                ids == visible_ids(*tree, self.expanded@, self.sort),
                i <= visible@.len(),
                forall|j: int| 0 <= j < i ==> ids[j] != id,
            decreases visible@.len() - i,
        {
            if visible[i] == id {
                return Some(i);
            }
            i = i + 1;
        }
        None
    }

    /// The chain from the tree's root of a treemap hit, whose chain starts below
    /// the treemap's root.
    pub fn hit_chain(&self, hit: &[u64]) -> (r: Vec<u64>)
        ensures
            r@ == self.treemap_root@ + hit@,
    {
        let mut chain: Vec<u64> = self.treemap_root.clone();
        let ghost start = chain@;
        let mut i: usize = 0;
        proof {
            assert(start =~= self.treemap_root@);
        }
        while i < hit.len()
            invariant
                i <= hit@.len(),
                start == self.treemap_root@,
                chain@ == start + hit@.subrange(0, i as int),
            decreases hit@.len() - i,
        {
            chain.push(hit[i]);
            i = i + 1;
            proof {
                assert(chain@ =~= start + hit@.subrange(0, i as int));
            }
        }
        proof {
            assert(hit@.subrange(0, hit@.len() as int) =~= hit@);
        }
        chain
    }

    /// The hover text of the node at `chain` (see [`describe`]).
    pub fn hover_text(&self, chain: &[u64]) -> (r: Option<String>)
        ensures
            match self.tree {
                Some(t) => match (spec_node_at(t, chain@), spec_path_of(t, chain@)) {
                    (Some(node), Some(path)) => r matches Some(text) && text@ == description(node, path),
                    _ => r is None,
                },
                None => r is None,
            },
    {
        match &self.tree {
            Some(t) => describe(t, chain),
            None => None,
        }
    }

    /// The path of the directory the treemap shows; empty for the whole drive.
    pub fn treemap_root_text(&self) -> (r: String)
        ensures
            self.treemap_root@.len() == 0 ==> r@ == Seq::<char>::empty(),
            self.treemap_root@.len() > 0 ==> r@ == match self.tree {
                Some(t) => match spec_path_of(t, self.treemap_root@) {
                    Some(p) => p,
                    None => Seq::<char>::empty(),
                },
                None => Seq::<char>::empty(),
            },
    {
        if self.treemap_root.len() == 0 {
            return String::new();
        }
        match &self.tree {
            Some(t) => match t.path_of(self.treemap_root.as_slice()) {
                Some(p) => p,
                None => String::new(),
            },
            None => String::new(),
        }
    }
}

} // verus!
