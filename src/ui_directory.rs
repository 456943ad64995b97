//! A file tree on display: the ids it lists, and the queue of changes asked
//! for while it is drawn.
use vstd::prelude::*;
use std::collections::HashSet;
use crate::flat_tree::{FlatTree, TreeNode, removed, renamed, toggled};
use crate::projection::visible_order;
use crate::settings::FileTreeSettings;

verus! {

broadcast use vstd::std_specs::hash::group_hash_axioms;

/// A change to the tree that a user asked for while it was on display.
#[allow(non_camel_case_types)]
#[derive(Debug, Clone)]
pub enum UIDOperation {
    /// Rename the node with this id to this name.
    RENAME(usize, String),
    /// Remove the node with this id and everything below it.
    DELETE(usize),
}

/// The two operations ask for the same change.
pub open spec fn same_operation(a: UIDOperation, b: UIDOperation) -> bool {
    match (a, b) {
        (UIDOperation::RENAME(i, n), UIDOperation::RENAME(j, m)) => i == j && n@ == m@,
        (UIDOperation::DELETE(i), UIDOperation::DELETE(j)) => i == j,
        _ => false,
    }
}

impl UIDOperation {
    /// Whether this operation asks for the same change as `other`.
    pub fn same_as(&self, other: &UIDOperation) -> (r: bool)
        ensures
            r == same_operation(*self, *other),
    {
        match (self, other) {
            (UIDOperation::RENAME(i, n), UIDOperation::RENAME(j, m)) => *i == *j && *n == *m,
            (UIDOperation::DELETE(i), UIDOperation::DELETE(j)) => *i == *j,
            _ => false,
        }
    }
}

/// `t1` is what `op` makes of tree `t0`: a rename as `rename` leaves it, a
/// removal as `remove` does.
pub open spec fn op_applied(t0: FlatTree, op: UIDOperation, t1: FlatTree) -> bool {
    match op {
        UIDOperation::RENAME(id, name) => renamed(t0, id, name@, t1),
        UIDOperation::DELETE(id) => removed(t0, id, t1),
    }
}

/// `chain` records the trees that the operations `ops[n..]` pass through from
/// `t0`, applied one at a time from the last to the `n`-th: `chain[k + 1]`
/// becomes `chain[k]` by `ops[n + k]`, and the chain ends at `t0`.
pub open spec fn chain_from(t0: FlatTree, ops: Seq<UIDOperation>, n: int, chain: Seq<FlatTree>) -> bool {
    &&& 0 <= n <= ops.len()
    &&& chain.len() == ops.len() - n + 1
    &&& chain.last() == t0
    &&& forall|k: int| 0 <= k < chain.len() - 1 ==> op_applied(chain[k + 1], #[trigger] ops[n + k], chain[k])
}

/// `t1` is what the queued operations `ops` make of tree `t0`, applied one at a
/// time from the newest to the oldest.
pub open spec fn applied(t0: FlatTree, ops: Seq<UIDOperation>, t1: FlatTree) -> bool {
    exists|chain: Seq<FlatTree>| chain_from(t0, ops, 0, chain) && chain[0] == t1
}

/// The nodes at positions `order` of `s`, in that order.
pub open spec fn nodes_at(s: Seq<TreeNode>, order: Seq<usize>) -> Seq<TreeNode> {
    order.map_values(|i: usize| s[i as int])
}

/// The ids of the first `n` of `items` that are of the top layer or whose
/// parent came earlier among them.
pub open spec fn shown_ids(items: Seq<TreeNode>, n: int) -> Seq<usize>
    decreases n,
{
    if n <= 0 {
        seq![]
    } else {
        let r = shown_ids(items, n - 1);
        if items[n - 1].depth == 0 || r.contains(items[n - 1].parent) {
            r.push(items[n - 1].id)
        } else {
            r
        }
    }
}

/// The ids, in order, of the first `n` of `items` that are hidden, expanded
/// directories.
pub open spec fn collapse_targets(items: Seq<TreeNode>, n: int) -> Seq<usize>
    decreases n,
{
    if n <= 0 {
        seq![]
    } else {
        let r = collapse_targets(items, n - 1);
        let m = items[n - 1];
        if m.file_entry.is_hidden && m.file_entry.is_dir && m.expanded {
            r.push(m.id)
        } else {
            r
        }
    }
}

/// The hidden, expanded directories that `t` shows, in display order.
pub open spec fn hidden_expanded_dirs(t: FlatTree) -> Seq<usize> {
    let items = nodes_at(t.nodes(), visible_order(t.nodes()));
    collapse_targets(items, items.len() as int)
}

/// `t1` is what toggling the nodes with ids `ids`, one after another, makes of
/// tree `t0`.
pub open spec fn toggled_all(t0: FlatTree, ids: Seq<usize>, t1: FlatTree) -> bool {
    exists|chain: Seq<FlatTree>|
        {
            &&& chain.len() == ids.len() + 1
            &&& chain[0] == t0
            &&& chain.last() == t1
            &&& forall|k: int| 0 <= k < ids.len() ==> toggled(chain[k], #[trigger] ids[k], chain[k + 1])
        }
}

/// The ids that a file-tree pane lists for `t`.
pub open spec fn display_of(t: FlatTree) -> Seq<usize> {
    let items = nodes_at(t.nodes(), visible_order(t.nodes()));
    shown_ids(items, items.len() as int)
}

/// A file tree on display: the whole tree, the ids it lists, and the changes
/// that were asked for while it was drawn, applied between two frames.
#[derive(Debug, Clone)]
pub struct UiDirectory {
    flat_tree: FlatTree,
    display_tree: Vec<usize>,
    operations: Vec<UIDOperation>,
    pub user_input: Option<String>,
}

impl UiDirectory {
    /// The tree.
    pub closed spec fn tree(&self) -> FlatTree {
        self.flat_tree
    }

    /// The ids on display.
    pub closed spec fn display(&self) -> Seq<usize> {
        self.display_tree@
    }

    /// What the user is typing into the pane, if anything.
    pub closed spec fn input(&self) -> Option<String> {
        self.user_input
    }

    /// The changes waiting to be applied, oldest first.
    pub closed spec fn queued(&self) -> Seq<UIDOperation> {
        self.operations@
    }

    /// A pane for `tree`, listing what the tree shows, with nothing queued.
    pub fn new(tree: FlatTree) -> (r: UiDirectory)
        requires
            tree.wf(),
        ensures
            r.tree() == tree,
            r.display() == display_of(tree),
            r.queued().len() == 0,
            r.input() is None,
    {
        let display = shown_ids_exec(&tree);
        UiDirectory { flat_tree: tree, display_tree: display, operations: Vec::new(), user_input: None }
    }

    /// The tree.
    pub fn flat_tree(&self) -> (r: &FlatTree)
        ensures
            *r == self.tree(),
    {
        &self.flat_tree
    }

    /// The ids on display.
    pub fn display_tree(&self) -> (r: &Vec<usize>)
        ensures
            r@ == self.display(),
    {
        &self.display_tree
    }

    /// The changes waiting to be applied.
    pub fn operations(&self) -> (r: &Vec<UIDOperation>)
        ensures
            r@ == self.queued(),
    {
        &self.operations
    }

    /// Queues `operation`, unless the same change is already waiting.
    pub fn queue_operation(&mut self, operation: UIDOperation)
        ensures
            final(self).tree() == old(self).tree(),
            final(self).display() == old(self).display(),
            (exists|k: int| 0 <= k < old(self).queued().len() && same_operation(#[trigger] old(self).queued()[k], operation))
                ==> final(self).queued() == old(self).queued(),
            !(exists|k: int| 0 <= k < old(self).queued().len() && same_operation(#[trigger] old(self).queued()[k], operation))
                ==> final(self).queued() == old(self).queued().push(operation),
    {
        let mut k: usize = 0;
        while k < self.operations.len()
            invariant
                k <= self.operations@.len(),
                forall|j: int| 0 <= j < k ==> !same_operation(#[trigger] self.operations@[j], operation),
            decreases self.operations@.len() - k,
        {
            if self.operations[k].same_as(&operation) {
                return;
            }
            k = k + 1;
        }
        self.operations.push(operation);
    }

    /// Applies the queued changes, newest first, and empties the queue. Changes
    /// on ids the tree no longer has do nothing. Afterwards no node has an id
    /// that a queued removal named, and no id has been added.
    pub fn execute_operations(&mut self)
        requires
            old(self).tree().wf(),
        ensures
            final(self).tree().wf(),
            final(self).queued().len() == 0,
            final(self).display() == old(self).display(),
            applied(old(self).tree(), old(self).queued(), final(self).tree()),
            forall|k: usize| #[trigger] final(self).tree().index().contains_key(k) ==> old(self).tree().index().contains_key(k),
            forall|j: int|
                0 <= j < old(self).queued().len() ==> (#[trigger] old(self).queued()[j] matches UIDOperation::DELETE(id)
                    ==> !final(self).tree().index().contains_key(id)),
    {
        let ghost q = self.operations@;
        let ghost mut chain: Seq<FlatTree> = seq![self.flat_tree];
        while self.operations.len() > 0
            invariant
                self.flat_tree.wf(),
                self.display_tree@ == old(self).display(),
                self.operations@ == q.take(self.operations@.len() as int),
                self.operations@.len() <= q.len(),
                q == old(self).queued(),
                chain_from(old(self).tree(), q, self.operations@.len() as int, chain),
                chain[0] == self.flat_tree,
                forall|k: usize| #[trigger] self.flat_tree.index().contains_key(k) ==> old(self).tree().index().contains_key(k),
                forall|j: int|
                    self.operations@.len() <= j < q.len() ==> (#[trigger] q[j] matches UIDOperation::DELETE(id)
                        ==> !self.flat_tree.index().contains_key(id)),
            decreases self.operations@.len(),
        {
            let ghost n = self.operations@.len();
            let operation = self.operations.pop().unwrap();
            assert(operation == q[n - 1]);
            assert(self.operations@ =~= q.take(n - 1));
            match operation {
                UIDOperation::RENAME(id, new_name) => {
                    let _ = self.flat_tree.rename(id, &new_name);
                },
                UIDOperation::DELETE(id) => {
                    let _ = self.flat_tree.remove(id);
                },
            }
            proof {
                let c2 = seq![self.flat_tree] + chain;
                assert forall|k: int| 0 <= k < c2.len() - 1 implies op_applied(c2[k + 1], #[trigger] q[n - 1 + k], c2[k]) by {
                    if k > 0 {
                        assert(c2[k + 1] == chain[k] && c2[k] == chain[k - 1]);
                        assert(q[n - 1 + k] == q[n + (k - 1)]);
                    }
                }
                chain = c2;
            }
            assert(self.operations@.len() as int == n - 1);
        }
        assert(chain_from(old(self).tree(), q, 0, chain) && chain[0] == self.flat_tree);
    }

    /// Brings the listed ids up to date. Where hidden entries are not to be
    /// shown, every listed directory that is hidden and expanded is toggled
    /// first, which collapses it; the ids listed are then those that the tree
    /// shows, each of the top layer or under a parent listed before it.
    pub fn reload(&mut self, settings: FileTreeSettings)
        requires
            old(self).tree().wf(),
        ensures
            final(self).tree().wf(),
            final(self).queued() == old(self).queued(),
            final(self).display() == display_of(final(self).tree()),
            settings.show_hidden_elements ==> final(self).tree() == old(self).tree(),
            !settings.show_hidden_elements ==> toggled_all(
                old(self).tree(),
                hidden_expanded_dirs(old(self).tree()),
                final(self).tree(),
            ),
    {
        let mut dirs_to_collapse: Vec<usize> = Vec::new();
        let ghost t0 = self.flat_tree;
        let ghost all = nodes_at(t0.nodes(), visible_order(t0.nodes()));
        if !settings.show_hidden_elements {
            let visible_nodes = self.flat_tree.get_visible_items();
            let mut k: usize = 0;
            while k < visible_nodes.len()
                invariant
                    visible_nodes@.len() == all.len(),
                    forall|j: int| 0 <= j < all.len() ==> *#[trigger] visible_nodes@[j] == all[j],
                    k <= all.len(),
                    dirs_to_collapse@ == collapse_targets(all, k as int),
                decreases all.len() - k,
            {
                let node = visible_nodes[k];
                assert(*node == all[k as int]);
                if node.file_entry.is_hidden && node.file_entry.is_dir && node.expanded {
                    dirs_to_collapse.push(node.id);
                }
                k = k + 1;
            }
        }
        let ghost mut chain: Seq<FlatTree> = seq![t0];
        let mut k: usize = 0;
        while k < dirs_to_collapse.len()
            invariant
                self.flat_tree.wf(),
                self.operations@ == old(self).queued(),
                settings.show_hidden_elements ==> dirs_to_collapse@.len() == 0 && self.flat_tree == old(self).tree(),
                t0 == old(self).tree(),
                k <= dirs_to_collapse@.len(),
                chain.len() == k + 1,
                chain[0] == t0,
                chain.last() == self.flat_tree,
                forall|j: int| 0 <= j < k ==> toggled(chain[j], #[trigger] dirs_to_collapse@[j], chain[j + 1]),
            decreases dirs_to_collapse@.len() - k,
        {
            self.flat_tree.toggle_visibility(&dirs_to_collapse[k]);
            proof {
                let c2 = chain.push(self.flat_tree);
                assert forall|j: int| 0 <= j < k + 1 implies toggled(c2[j], #[trigger] dirs_to_collapse@[j], c2[j + 1]) by {
                    if j < k {
                        assert(c2[j] == chain[j] && c2[j + 1] == chain[j + 1]);
                    }
                }
                chain = c2;
            }
            k = k + 1;
        }
        proof {
            if !settings.show_hidden_elements {
                assert(dirs_to_collapse@ == hidden_expanded_dirs(t0));
                assert(chain.len() == dirs_to_collapse@.len() + 1);
            }
        }
        self.display_tree = shown_ids_exec(&self.flat_tree);
    }
}

/// The ids that a file-tree pane lists for `tree`.
fn shown_ids_exec(tree: &FlatTree) -> (r: Vec<usize>)
    requires
        tree.wf(),
    ensures
        r@ == display_of(*tree),
{
    let items = tree.get_visible_items();
    let ghost s = tree.nodes();
    let ghost all = nodes_at(s, visible_order(s));
    assert(items@.len() == all.len());
    let mut r: Vec<usize> = Vec::new();
    let mut seen: HashSet<usize> = HashSet::new();
    let mut k: usize = 0;
    while k < items.len()
        invariant
            items@.len() == all.len(),
            forall|j: int| 0 <= j < all.len() ==> *#[trigger] items@[j] == all[j],
            k <= all.len(),
            r@ == shown_ids(all, k as int),
            forall|x: usize| #[trigger] seen@.contains(x) <==> r@.contains(x),
        decreases all.len() - k,
    {
        let node = items[k];
        assert(*node == all[k as int]);
        if node.depth == 0 || seen.contains(&node.parent) {
            proof {
                assert forall|x: usize| r@.push(node.id).contains(x) <==> (r@.contains(x) || x == node.id) by {
                    if r@.contains(x) {
                        let m = r@.index_of(x);
                        assert(r@.push(node.id)[m] == x);
                    }
                    if x == node.id {
                        assert(r@.push(node.id)[r@.len() as int] == x);
                    }
                    if r@.push(node.id).contains(x) {
                        let m = r@.push(node.id).index_of(x);
                        if m < r@.len() {
                            assert(r@[m] == x);
                        }
                    }
                }
            }
            r.push(node.id);
            seen.insert(node.id);
        }
        k = k + 1;
    }
    r
}

} // verus!
