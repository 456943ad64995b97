//! The flat tree: nodes in one vector, an index from id to position, and
//! the operations that build and change it while keeping its links valid.
use vstd::prelude::*;
use std::collections::HashMap;
use crate::entry::{FileEntry, same_entry, text_lt, name_lt, join, join_path, starts_with, replace_prefix};
use crate::removal::{goes_with, kept_positions, without, lemma_kept_positions, lemma_below_deeper, lemma_after_remove};

verus! {

broadcast use vstd::std_specs::hash::group_hash_axioms;

/// One node of a [`FlatTree`]: a listed entry with its place in the hierarchy
/// and its display state.
///
/// `parent` is the id of the containing node, or 0 for a node of the top layer;
/// `children` lists the ids of the nodes whose `parent` is this node's id.
#[derive(Debug, Clone)]
pub struct TreeNode {
    pub id: usize,
    pub depth: usize,
    pub file_entry: FileEntry,
    pub children: Vec<usize>,
    pub parent: usize,
    pub visible: bool,
    pub expanded: bool,
}

/// The id that stands for "no parent".
pub const ROOT_PARENT: usize = 0;

/// `a` comes strictly before `b` in display order: directories before files,
/// then by name.
pub open spec fn node_before(a: TreeNode, b: TreeNode) -> bool {
    (a.file_entry.is_dir && !b.file_entry.is_dir) || (a.file_entry.is_dir
        == b.file_entry.is_dir && text_lt(a.file_entry.name@, b.file_entry.name@))
}

impl TreeNode {
    /// Whether this node comes strictly before `other` in display order.
    pub fn is_before(&self, other: &TreeNode) -> (r: bool)
        ensures
            r == node_before(*self, *other),
    {
        if self.file_entry.is_dir != other.file_entry.is_dir {
            self.file_entry.is_dir
        } else {
            name_lt(&self.file_entry.name, &other.file_entry.name)
        }
    }

    /// The ids of this node's children.
    pub fn children(&self) -> (r: &Vec<usize>)
        ensures
            r@ == self.children@,
    {
        &self.children
    }
}

/// `b` is `a` with the same identity, entry, place and flags; only the
/// children list may differ.
pub open spec fn same_but_children(a: TreeNode, b: TreeNode) -> bool {
    &&& a.id == b.id
    &&& a.depth == b.depth
    &&& same_entry(a.file_entry, b.file_entry)
    &&& a.parent == b.parent
    &&& a.visible == b.visible
    &&& a.expanded == b.expanded
}

/// `b` holds the nodes of `a` at the same positions, each with the same
/// identity, entry, place and flags, its children list possibly extended at
/// the end; `b` may hold more nodes after them.
pub open spec fn grown(a: Seq<TreeNode>, b: Seq<TreeNode>) -> bool {
    &&& a.len() <= b.len()
    &&& forall|i: int|
        0 <= i < a.len() ==> {
            &&& same_but_children(#[trigger] b[i], a[i])
            &&& a[i].children@.len() <= b[i].children@.len()
            &&& forall|c: int| 0 <= c < a[i].children@.len() ==> b[i].children@[c] == a[i].children@[c]
        }
}

/// `ix` maps the id of every node to its position, and nothing else.
pub open spec fn index_exact(s: Seq<TreeNode>, ix: Map<usize, usize>) -> bool {
    &&& forall|i: int|
        0 <= i < s.len() ==> #[trigger] ix.contains_key(s[i].id) && ix[s[i].id] == i
    &&& forall|k: usize| #[trigger]
        ix.contains_key(k) ==> ix[k] < s.len() && s[ix[k] as int].id == k
}

/// The links between the nodes of `s` are consistent:
/// ids are non-zero and below `next`; a node has depth 0 exactly when it has no
/// parent; otherwise its parent is present, was created before it, is one
/// layer up, and lists it as a child; and every children list is free of
/// duplicates and names only nodes that point back to its owner.
pub open spec fn links_ok(s: Seq<TreeNode>, ix: Map<usize, usize>, next: usize) -> bool {
    &&& forall|i: int| 0 <= i < s.len() ==> 0 < #[trigger] s[i].id < next
    &&& forall|i: int| 0 <= i < s.len() ==> (#[trigger] s[i].parent == ROOT_PARENT) == (s[i].depth
        == 0)
    &&& forall|i: int| 0 <= i < s.len() ==> #[trigger] s[i].depth < s[i].id
    &&& forall|i: int|
        0 <= i < s.len() && #[trigger] s[i].parent != ROOT_PARENT ==> {
            &&& ix.contains_key(s[i].parent)
            &&& s[i].parent < s[i].id
            &&& s[ix[s[i].parent] as int].depth + 1 == s[i].depth
            &&& s[ix[s[i].parent] as int].children@.contains(s[i].id)
        }
    &&& forall|i: int| 0 <= i < s.len() ==> (#[trigger] s[i].children@).no_duplicates()
    &&& forall|i: int, k: int|
        0 <= i < s.len() && 0 <= k < s[i].children@.len() ==> {
            &&& ix.contains_key(#[trigger] s[i].children@[k])
            &&& s[ix[s[i].children@[k]] as int].parent == s[i].id
        }
}

/// The node at position `i` lies strictly below the node with id `a`: `a` is
/// the id of its parent, of its parent's parent, and so on up to the top layer.
pub open spec fn below(s: Seq<TreeNode>, ix: Map<usize, usize>, i: int, a: usize) -> bool
    decreases s[i].depth,
{
    if !(0 <= i < s.len()) || s[i].parent == ROOT_PARENT {
        false
    } else if s[i].parent == a {
        true
    } else {
        let j = ix[s[i].parent] as int;
        if 0 <= j < s.len() && s[j].depth < s[i].depth {
            below(s, ix, j, a)
        } else {
            false
        }
    }
}

/// `b` is `a` with at most the display flags of its nodes changed.
pub open spec fn flags_only(a: Seq<TreeNode>, b: Seq<TreeNode>) -> bool {
    &&& a.len() == b.len()
    &&& forall|i: int|
        0 <= i < a.len() ==> {
            &&& #[trigger] b[i].id == a[i].id
            &&& b[i].depth == a[i].depth
            &&& same_entry(b[i].file_entry, a[i].file_entry)
            &&& b[i].parent == a[i].parent
            &&& b[i].children == a[i].children
        }
}

/// `v` without the occurrences of `x`.
fn without_id(v: &Vec<usize>, x: usize) -> (r: Vec<usize>)
    ensures
        r@ == without(v@, x),
{
    let mut r: Vec<usize> = Vec::new();
    let mut k: usize = 0;
    while k < v.len()
        invariant
            k <= v@.len(),
            r@ == without(v@.take(k as int), x),
        decreases v@.len() - k,
    {
        proof {
            assert(v@.take(k + 1).drop_last() =~= v@.take(k as int));
        }
        if v[k] != x {
            r.push(v[k]);
        }
        k = k + 1;
    }
    assert(v@.take(v@.len() as int) =~= v@);
    r
}

/// `p` with its leading `from` replaced by `to`; `p` itself where it does not
/// begin with `from`.
pub open spec fn rebased(p: Seq<char>, from: Seq<char>, to: Seq<char>) -> Seq<char> {
    if from.len() <= p.len() && p.subrange(0, from.len() as int) == from {
        to + p.subrange(from.len() as int, p.len() as int)
    } else {
        p
    }
}

/// `b` is `a` with at most the entries of its nodes changed: ids, layers,
/// links and display flags stay.
pub open spec fn entries_only(a: Seq<TreeNode>, b: Seq<TreeNode>) -> bool {
    &&& a.len() == b.len()
    &&& forall|i: int|
        0 <= i < a.len() ==> {
            &&& (#[trigger] b[i]).id == a[i].id
            &&& b[i].depth == a[i].depth
            &&& b[i].parent == a[i].parent
            &&& b[i].children == a[i].children
            &&& b[i].visible == a[i].visible
            &&& b[i].expanded == a[i].expanded
        }
}

/// An entry that differs from `a` only in its path and parent path.
pub open spec fn moved_entry(a: FileEntry, b: FileEntry) -> bool {
    &&& a.name@ == b.name@
    &&& a.is_dir == b.is_dir
    &&& a.is_file == b.is_file
    &&& a.is_symlink == b.is_symlink
    &&& a.is_hidden == b.is_hidden
    &&& a.size == b.size
    &&& a.modified == b.modified
}

/// Changing entries alone keeps the index and the links valid.
pub proof fn lemma_entries_only_wf(s: Seq<TreeNode>, t: Seq<TreeNode>, ix: Map<usize, usize>, next: usize)
    requires
        entries_only(s, t),
        index_exact(s, ix),
        links_ok(s, ix, next),
    ensures
        index_exact(t, ix),
        links_ok(t, ix, next),
{
    assert forall|j: int| 0 <= j < t.len() implies #[trigger] ix.contains_key(t[j].id) && ix[t[j].id] == j by {
        assert(ix.contains_key(s[j].id));
    }
    assert forall|k: usize| #[trigger] ix.contains_key(k) implies ix[k] < t.len() && t[ix[k] as int].id == k by {}
    assert forall|j: int| 0 <= j < t.len() && #[trigger] t[j].parent != ROOT_PARENT implies {
        &&& ix.contains_key(t[j].parent)
        &&& t[j].parent < t[j].id
        &&& t[ix[t[j].parent] as int].depth + 1 == t[j].depth
        &&& t[ix[t[j].parent] as int].children@.contains(t[j].id)
    } by {
        assert(s[j].parent != ROOT_PARENT);
        assert(ix.contains_key(s[j].parent));
        let pj = ix[s[j].parent] as int;
        assert(t[pj].children == s[pj].children);
    }
    assert forall|j: int, k: int|
        0 <= j < t.len() && 0 <= k < t[j].children@.len() implies {
            &&& ix.contains_key(#[trigger] t[j].children@[k])
            &&& t[ix[t[j].children@[k]] as int].parent == t[j].id
        } by {
        assert(t[j].children == s[j].children);
        assert(ix.contains_key(s[j].children@[k]));
    }
    assert forall|j: int| 0 <= j < t.len() implies (#[trigger] t[j].children@).no_duplicates() by {
        assert(t[j].children == s[j].children);
        assert(s[j].children@.no_duplicates());
    }
    assert forall|j: int| 0 <= j < t.len() implies (#[trigger] t[j].parent == ROOT_PARENT) == (t[j].depth == 0) by {
        assert(s[j].parent == ROOT_PARENT <==> s[j].depth == 0);
    }
    assert forall|j: int| 0 <= j < t.len() implies 0 < #[trigger] t[j].id < next by {
        assert(0 < s[j].id < next);
    }
    assert forall|j: int| 0 <= j < t.len() implies #[trigger] t[j].depth < t[j].id by {
        assert(s[j].depth < s[j].id);
    }
}

/// The entries of `e` have distinct paths that no node of `s` has, and each
/// entry's parent path is the path of a node of `s`.
pub open spec fn fresh_layer(s: Seq<TreeNode>, e: Seq<FileEntry>) -> bool {
    &&& forall|a: int, b: int|
        0 <= a < e.len() && 0 <= b < e.len() && a != b ==> #[trigger] e[a].path@ != #[trigger] e[b].path@
    &&& forall|k: int, j: int|
        0 <= k < e.len() && 0 <= j < s.len() ==> #[trigger] s[j].file_entry.path@ != #[trigger] e[k].path@
    &&& forall|k: int| 0 <= k < e.len() ==> has_path(s, #[trigger] e[k].parent@)
}

/// What `toggle_visibility` makes of tree `t0` for id `id`: the tree `t1`.
///
/// For an unknown id nothing changes. A visible, expanded node collapses and
/// its direct children are hidden and collapsed; a visible, collapsed node
/// expands and its direct children become visible; a hidden node is hidden and
/// collapsed with every node below it hidden. Only display flags change.
pub open spec fn toggled(t0: FlatTree, id: usize, t1: FlatTree) -> bool {
    &&& t1.wf()
    &&& t1.index() == t0.index()
    &&& t1.next_id() == t0.next_id()
    &&& flags_only(t0.nodes(), t1.nodes())
    &&& !t0.index().contains_key(id) ==> t1.nodes() == t0.nodes()
    &&& t0.index().contains_key(id) ==> ({
        let s = t0.nodes();
        let t = t1.nodes();
        let x = t0.index()[id] as int;
        if s[x].visible && s[x].expanded {
            &&& t[x].visible && !t[x].expanded
            &&& forall|i: int|
                0 <= i < s.len() && i != x ==> if s[i].parent == id {
                    !(#[trigger] t[i]).visible && !t[i].expanded
                } else {
                    t[i] == s[i]
                }
        } else if s[x].visible {
            &&& t[x].visible && t[x].expanded
            &&& forall|i: int|
                0 <= i < s.len() && i != x ==> if s[i].parent == id {
                    (#[trigger] t[i]).visible && t[i].expanded == s[i].expanded
                } else {
                    t[i] == s[i]
                }
        } else {
            &&& !t[x].visible && !t[x].expanded
            &&& forall|i: int|
                0 <= i < s.len() && i != x ==> if below(s, t0.index(), i, id) {
                    !(#[trigger] t[i]).visible && t[i].expanded == s[i].expanded
                } else {
                    t[i] == s[i]
                }
        }
    })
}

/// What `remove` makes of tree `t0` for id `id`: the tree `t1`.
///
/// For an unknown id nothing changes. Otherwise the nodes that stay are those
/// of `t0` that neither have id `id` nor lie below it, in their order, with
/// `id` dropped from their children lists; no removed id is indexed any more.
/// Either way `t1` is well formed and indexes no id that `t0` did not.
pub open spec fn removed(t0: FlatTree, id: usize, t1: FlatTree) -> bool {
    &&& t1.wf()
    &&& t1.next_id() == t0.next_id()
    &&& forall|k: usize| #[trigger] t1.index().contains_key(k) ==> t0.index().contains_key(k)
    &&& !t0.index().contains_key(id) ==> t1.nodes() == t0.nodes() && t1.index() == t0.index()
    &&& t0.index().contains_key(id) ==> ({
        let s = t0.nodes();
        let ix = t0.index();
        let kp = kept_positions(s, ix, id, s.len() as int);
        &&& t1.nodes().len() == kp.len()
        &&& forall|j: int|
            0 <= j < kp.len() ==> {
                &&& same_but_children(#[trigger] t1.nodes()[j], s[kp[j]])
                &&& t1.nodes()[j].children@ == without(s[kp[j]].children@, id)
            }
        &&& forall|i: int|
            0 <= i < s.len() && goes_with(s, ix, i, id) ==> !t1.index().contains_key(#[trigger] s[i].id)
    })
}

/// What `rename` makes of tree `t0` for id `id` and name `name`: the tree `t1`.
///
/// For an unknown id nothing changes. Otherwise the node takes the name and
/// the path `name` inside its parent directory; if it is a directory, every
/// node below it has the old path, where it begins its path or parent path,
/// replaced by the new one; every other entry stays. Ids, layers, links, flags
/// and the index stay as they are, and `t1` is well formed.
pub open spec fn renamed(t0: FlatTree, id: usize, name: Seq<char>, t1: FlatTree) -> bool {
    &&& t1.wf()
    &&& t1.index() == t0.index()
    &&& t1.next_id() == t0.next_id()
    &&& entries_only(t0.nodes(), t1.nodes())
    &&& !t0.index().contains_key(id) ==> t1.nodes() == t0.nodes()
    &&& t0.index().contains_key(id) ==> ({
        let s = t0.nodes();
        let t = t1.nodes();
        let x = t0.index()[id] as int;
        let np = join_path(s[x].file_entry.parent@, name);
        &&& t[x].file_entry.name@ == name
        &&& t[x].file_entry.path@ == np
        &&& t[x].file_entry.parent@ == s[x].file_entry.parent@
        &&& t[x].file_entry.is_dir == s[x].file_entry.is_dir
        &&& t[x].file_entry.is_file == s[x].file_entry.is_file
        &&& t[x].file_entry.is_symlink == s[x].file_entry.is_symlink
        &&& t[x].file_entry.is_hidden == s[x].file_entry.is_hidden
        &&& t[x].file_entry.size == s[x].file_entry.size
        &&& t[x].file_entry.modified == s[x].file_entry.modified
        &&& forall|i: int|
            0 <= i < s.len() && i != x ==> if s[x].file_entry.is_dir && below(s, t0.index(), i, id) {
                &&& moved_entry(s[i].file_entry, #[trigger] t[i].file_entry)
                &&& t[i].file_entry.path@ == rebased(s[i].file_entry.path@, s[x].file_entry.path@, np)
                &&& t[i].file_entry.parent@ == rebased(s[i].file_entry.parent@, s[x].file_entry.path@, np)
            } else {
                same_entry(#[trigger] t[i].file_entry, s[i].file_entry)
            }
    })
}

/// What `build` makes of tree `o` with layer `e`: the tree `n`.
///
/// `n` is well formed and keeps the nodes of `o` in place, their children
/// lists only extended; each new node comes from an entry of `e`. Into an
/// empty tree, while ids last, the entries become in order the visible,
/// collapsed nodes of the top layer. Otherwise each new node is hidden and
/// collapsed, sits under a node whose path is its entry's parent path, and has
/// a path that no node before it has; each entry whose parent path is the path
/// of a node of `o` ends up with a node, and so does, in a layer of distinct
/// paths, each entry whose parent is an earlier entry that ended up with one;
/// and a layer of fresh, distinct paths whose parents are all in `o` adds
/// exactly one node per entry.
pub open spec fn built(o: FlatTree, e: Seq<FileEntry>, n: FlatTree) -> bool {
    &&& n.wf()
    &&& o.next_id() <= n.next_id() <= o.next_id() + e.len()
    &&& grown(o.nodes(), n.nodes())
    &&& forall|i: int|
        o.nodes().len() <= i < n.nodes().len() ==> exists|k: int|
            0 <= k < e.len() && same_entry(#[trigger] n.nodes()[i].file_entry, e[k])
    &&& o.nodes().len() == 0 && o.next_id() + e.len() < usize::MAX ==> {
        &&& n.nodes().len() == e.len()
        &&& forall|i: int|
            0 <= i < e.len() ==> {
                &&& same_entry((#[trigger] n.nodes()[i]).file_entry, e[i])
                &&& n.nodes()[i].parent == ROOT_PARENT
                &&& n.nodes()[i].visible
                &&& !n.nodes()[i].expanded
            }
    }
    &&& o.nodes().len() > 0 ==> forall|i: int|
        o.nodes().len() <= i < n.nodes().len() ==> {
            &&& #[trigger] n.nodes()[i].parent != ROOT_PARENT
            &&& !n.nodes()[i].visible
            &&& !n.nodes()[i].expanded
            &&& n.nodes()[n.index()[n.nodes()[i].parent] as int].file_entry.path@
                == n.nodes()[i].file_entry.parent@
            &&& forall|j: int|
                0 <= j < i ==> n.nodes()[j].file_entry.path@
                    != n.nodes()[i].file_entry.path@
        }
    &&& o.nodes().len() > 0 && o.next_id() + e.len() < usize::MAX && fresh_layer(o.nodes(), e)
        ==> n.nodes().len() == o.nodes().len() + e.len()
    &&& o.nodes().len() > 0 && o.next_id() + e.len() < usize::MAX && distinct_paths(e) ==> forall|k: int|
        0 <= k < e.len() && (has_path(o.nodes(), e[k].parent@) || exists|q: int|
            0 <= q < k && e[q].path@ == e[k].parent@ && has_path(n.nodes(), e[q].path@)) ==> has_path(
            n.nodes(),
            #[trigger] e[k].path@,
        )
    &&& o.nodes().len() > 0 && o.next_id() + e.len() < usize::MAX
        ==> forall|k: int, j: int|
        #![trigger o.nodes()[j], e[k]]
        0 <= k < e.len() && 0 <= j < o.nodes().len()
            && o.nodes()[j].file_entry.path@ == e[k].parent@
            ==> exists|i: int|
            0 <= i < n.nodes().len() && #[trigger] n.nodes()[i].file_entry.path@
                == e[k].path@
}

/// The paths of the entries of `e` are pairwise distinct.
pub open spec fn distinct_paths(e: Seq<FileEntry>) -> bool {
    forall|a: int, b: int| 0 <= a < e.len() && 0 <= b < e.len() && a != b ==> #[trigger] e[a].path@ != #[trigger] e[b].path@
}

/// One of the first `m` nodes of `t` has path `p`.
pub open spec fn has_path_before(t: Seq<TreeNode>, m: int, p: Seq<char>) -> bool {
    exists|i: int| 0 <= i < m && i < t.len() && #[trigger] t[i].file_entry.path@ == p
}

proof fn lemma_has_path_before_grown(a: Seq<TreeNode>, b: Seq<TreeNode>, m: int, p: Seq<char>)
    requires
        grown(a, b),
        m <= a.len(),
    ensures
        has_path_before(a, m, p) == has_path_before(b, m, p),
{
    if has_path_before(a, m, p) {
        let i = choose|i: int| 0 <= i < m && i < a.len() && #[trigger] a[i].file_entry.path@ == p;
        assert(same_but_children(b[i], a[i]));
        assert(b[i].file_entry.path@ == p);
    }
    if has_path_before(b, m, p) {
        let i = choose|i: int| 0 <= i < m && i < b.len() && #[trigger] b[i].file_entry.path@ == p;
        assert(same_but_children(b[i], a[i]));
        assert(a[i].file_entry.path@ == p);
    }
}

proof fn lemma_find_step(lens: Seq<int>, lo: int, i: int)
    requires
        forall|a: int, b: int| 0 <= a <= b < lens.len() ==> #[trigger] lens[a] <= #[trigger] lens[b],
        0 <= lo < lens.len(),
        lens[lo] <= i < lens.last(),
    ensures
        exists|j: int| lo <= j < lens.len() - 1 && lens[j] <= i < #[trigger] lens[j + 1],
    decreases lens.len() - lo,
{
    if i < lens[lo + 1] {
        assert(lens[lo] <= i < lens[lo + 1]);
    } else {
        lemma_find_step(lens, lo + 1, i);
    }
}

/// One step of `build` on entry `k` of `e` took the nodes from `before` to
/// `t`: at most one node was added, with the entry's path; and where `check`
/// holds and the entry's parent path was present, the entry's path is present.
pub open spec fn layer_step(before: Seq<TreeNode>, t: Seq<TreeNode>, e: Seq<FileEntry>, k: int, check: bool) -> bool {
    &&& before.len() <= t.len() <= before.len() + 1
    &&& forall|i: int| before.len() <= i < t.len() ==> #[trigger] t[i].file_entry.path@ == e[k].path@
    &&& check && has_path_before(before, before.len() as int, e[k].parent@) ==> has_path_before(
        t,
        t.len() as int,
        e[k].path@,
    )
}

/// Some node of `t` has path `p`.
pub open spec fn has_path(t: Seq<TreeNode>, p: Seq<char>) -> bool {
    exists|i: int| 0 <= i < t.len() && t[i].file_entry.path@ == p
}

pub(crate) proof fn lemma_injection_bound(n: int, m: int, f: spec_fn(int) -> int)
    requires
        0 <= n,
        0 <= m,
        forall|i: int| 0 <= i < n ==> 0 <= #[trigger] f(i) < m,
        forall|i: int, j: int| 0 <= i < n && 0 <= j < n && i != j ==> #[trigger] f(i) != #[trigger] f(j),
    ensures
        n <= m,
{
    let x = vstd::set_lib::set_int_range(0, n);
    let y = x.map(f);
    vstd::set_lib::lemma_int_range(0, n);
    vstd::set_lib::lemma_int_range(0, m);
    assert(vstd::relations::injective_on(f, x));
    vstd::set_lib::lemma_map_size(x, y, f);
    assert(y.subset_of(vstd::set_lib::set_int_range(0, m)));
    vstd::set_lib::lemma_len_subset(y, vstd::set_lib::set_int_range(0, m));
}

/// A layer of `e.len()` entries with distinct paths, none of them in `s`,
/// each of which ends up in `t` while every new node comes from an entry and
/// has a path of its own, grows `s` by exactly `e.len()` nodes.
proof fn lemma_layer_count(s: Seq<TreeNode>, t: Seq<TreeNode>, e: Seq<FileEntry>)
    requires
        grown(s, t),
        forall|i: int| s.len() <= i < t.len() ==> exists|k: int| 0 <= k < e.len() && same_entry(#[trigger] t[i].file_entry, e[k]),
        forall|i: int, j: int| s.len() <= i < t.len() && 0 <= j < i ==> #[trigger] t[j].file_entry.path@ != #[trigger] t[i].file_entry.path@,
        forall|k: int| 0 <= k < e.len() ==> has_path(t, #[trigger] e[k].path@),
        fresh_layer(s, e),
    ensures
        t.len() == s.len() + e.len(),
{
    let n0 = s.len() as int;
    let d = t.len() - n0;
    let f = |i: int| choose|k: int| 0 <= k < e.len() && same_entry(t[n0 + i].file_entry, e[k]);
    assert forall|i: int| 0 <= i < d implies 0 <= #[trigger] f(i) < e.len() by {
        assert(exists|k: int| 0 <= k < e.len() && same_entry(t[n0 + i].file_entry, e[k]));
    }
    assert forall|a: int, b: int| 0 <= a < d && 0 <= b < d && a != b implies #[trigger] f(a) != #[trigger] f(b) by {
        assert(exists|k: int| 0 <= k < e.len() && same_entry(t[n0 + a].file_entry, e[k]));
        assert(exists|k: int| 0 <= k < e.len() && same_entry(t[n0 + b].file_entry, e[k]));
        if a < b {
            assert(t[n0 + a].file_entry.path@ != t[n0 + b].file_entry.path@);
        } else {
            assert(t[n0 + b].file_entry.path@ != t[n0 + a].file_entry.path@);
        }
    }
    lemma_injection_bound(d, e.len() as int, f);
    let g = |k: int| (choose|i: int| 0 <= i < t.len() && t[i].file_entry.path@ == e[k].path@) - n0;
    assert forall|k: int| 0 <= k < e.len() implies 0 <= #[trigger] g(k) < d by {
        assert(has_path(t, e[k].path@));
        let i = choose|i: int| 0 <= i < t.len() && t[i].file_entry.path@ == e[k].path@;
        if i < n0 {
            assert(same_but_children(t[i], s[i]));
            assert(s[i].file_entry.path@ != e[k].path@);
        }
    }
    assert forall|a: int, b: int| 0 <= a < e.len() && 0 <= b < e.len() && a != b implies #[trigger] g(a) != #[trigger] g(b) by {
        assert(has_path(t, e[a].path@));
        assert(has_path(t, e[b].path@));
        assert(e[a].path@ != e[b].path@);
    }
    lemma_injection_bound(e.len() as int, d, g);
}

/// A flat store of tree nodes with an index from id to position.
///
/// Ids are handed out in increasing order from 1, one per node ever created,
/// so two nodes never share an id. An id lasts as long as this tree: a tree
/// built afresh hands out its ids anew. An entry's identity is its path: a layer
/// entry whose path is already in the tree is not added again.
#[derive(Debug, Clone)]
pub struct FlatTree {
    elements: Vec<TreeNode>,
    lookup: HashMap<usize, usize>,
    next_id: usize,
}

impl FlatTree {
    /// The nodes, in storage order.
    pub closed spec fn nodes(&self) -> Seq<TreeNode> {
        self.elements@
    }

    /// The index from id to position.
    pub closed spec fn index(&self) -> Map<usize, usize> {
        self.lookup@
    }

    /// The id that the next created node receives.
    pub closed spec fn next_id(&self) -> usize {
        self.next_id
    }

    /// The tree's invariant.
    pub open spec fn wf(&self) -> bool {
        &&& index_exact(self.nodes(), self.index())
        &&& links_ok(self.nodes(), self.index(), self.next_id())
        &&& self.next_id() >= 1
        &&& self.nodes().len() < self.next_id()
    }

    /// An empty tree.
    pub fn new() -> (r: FlatTree)
        ensures
            r.wf(),
            r.nodes().len() == 0,
            r.index().is_empty(),
            r.next_id() == 1,
    {
        FlatTree { elements: Vec::new(), lookup: HashMap::new(), next_id: 1 }
    }

    /// The nodes, in storage order.
    pub fn elements(&self) -> (r: &Vec<TreeNode>)
        ensures
            r@ == self.nodes(),
    {
        &self.elements
    }

    /// The number of nodes.
    pub fn len(&self) -> (r: usize)
        ensures
            r == self.nodes().len(),
    {
        self.elements.len()
    }

    /// The position of the node with id `id`, if there is one.
    pub fn position_of(&self, id: usize) -> (r: Option<usize>)
        requires
            self.wf(),
        ensures
            r == (if self.index().contains_key(id) {
                Some(self.index()[id])
            } else {
                None::<usize>
            }),
            r matches Some(p) ==> p < self.nodes().len() && self.nodes()[p as int].id == id,
            r is None ==> forall|i: int| 0 <= i < self.nodes().len() ==> self.nodes()[i].id != id,
    {
        match self.lookup.get(&id) {
            Some(p) => Some(*p),
            None => None,
        }
    }

    /// The node with id `id`, if there is one.
    pub fn get_node(&self, id: usize) -> (r: Option<&TreeNode>)
        requires
            self.wf(),
        ensures
            r matches Some(n) ==> self.index().contains_key(id) && *n == self.nodes()[self.index()[id] as int],
            r is None <==> !self.index().contains_key(id),
    {
        match self.position_of(id) {
            Some(p) => Some(&self.elements[p]),
            None => None,
        }
    }

    /// The position of the first node whose path is `path`, if there is one.
    pub fn position_of_path(&self, path: &String) -> (r: Option<usize>)
        ensures
            r matches Some(p) ==> p < self.nodes().len() && self.nodes()[p as int].file_entry.path@
                == path@ && forall|q: int|
                0 <= q < p ==> self.nodes()[q].file_entry.path@ != path@,
            r is None ==> forall|i: int|
                0 <= i < self.nodes().len() ==> self.nodes()[i].file_entry.path@ != path@,
    {
        let mut i: usize = 0;
        while i < self.elements.len()
            invariant
                i <= self.nodes().len(),
                forall|q: int| 0 <= q < i ==> self.nodes()[q].file_entry.path@ != path@,
            decreases self.nodes().len() - i,
        {
            if self.elements[i].file_entry.path == *path {
                return Some(i);
            }
            i = i + 1;
        }
        None
    }

    /// The id of the first node whose path is `path`, if there is one.
    pub fn path_to_id(&self, path: &String) -> (r: Option<usize>)
        ensures
            r matches Some(id) ==> exists|p: int|
                0 <= p < self.nodes().len() && self.nodes()[p].file_entry.path@ == path@
                    && self.nodes()[p].id == id && forall|q: int|
                    0 <= q < p ==> self.nodes()[q].file_entry.path@ != path@,
            r is None ==> forall|i: int|
                0 <= i < self.nodes().len() ==> self.nodes()[i].file_entry.path@ != path@,
    {
        match self.position_of_path(path) {
            Some(p) => Some(self.elements[p].id),
            None => None,
        }
    }

    /// Adds one directory layer to the tree.
    ///
    /// Into an empty tree every entry goes as a visible, collapsed node of the
    /// top layer. Otherwise an entry is added, hidden and collapsed, under the
    /// first node whose path is the entry's `parent`, one layer below it, unless
    /// a node with the entry's path is already present; an entry whose parent is
    /// not in the tree is left out. Ids are only handed out while they last.
    #[verifier::rlimit(60)]
    #[verifier::spinoff_prover]
    pub fn build(&mut self, directory: &Vec<FileEntry>)
        requires
            old(self).wf(),
        ensures
            built(*old(self), directory@, *final(self)),
    {
        let ghost s0 = self.elements@;
        let was_empty = self.elements.len() == 0;
        let mut k: usize = 0;
        let ghost mut lens: Seq<int> = seq![s0.len() as int];
        while k < directory.len()
            invariant
                lens.len() == k + 1,
                lens[0] == s0.len(),
                lens[k as int] == self.nodes().len(),
                forall|a: int, b: int| 0 <= a <= b < lens.len() ==> #[trigger] lens[a] <= #[trigger] lens[b],
                forall|q: int, i: int|
                    0 <= q < k && lens[q] <= i < lens[q + 1] ==> #[trigger] self.nodes()[i].file_entry.path@
                        == #[trigger] directory@[q].path@,
                !was_empty && old(self).next_id() + directory@.len() < usize::MAX ==> forall|q: int|
                    0 <= q < k && has_path_before(self.nodes(), lens[q], directory@[q].parent@) ==> has_path_before(
                        self.nodes(),
                        lens[q + 1],
                        #[trigger] directory@[q].path@,
                    ),
                self.wf(),
                k <= directory@.len(),
                was_empty == (s0.len() == 0),
                s0 == old(self).nodes(),
                self.next_id() <= old(self).next_id() + k,
                self.next_id() - old(self).next_id() == self.nodes().len() - s0.len(),
                grown(s0, self.nodes()),
                forall|i: int|
                    s0.len() <= i < self.nodes().len() ==> exists|q: int|
                        0 <= q < k && same_entry(#[trigger] self.nodes()[i].file_entry, directory@[q]),
                was_empty && old(self).next_id() + directory@.len() < usize::MAX ==> {
                    &&& self.nodes().len() == k
                    &&& forall|i: int|
                        0 <= i < k ==> {
                            &&& same_entry(#[trigger] self.nodes()[i].file_entry, directory@[i])
                            &&& self.nodes()[i].parent == ROOT_PARENT
                            &&& self.nodes()[i].visible
                            &&& !self.nodes()[i].expanded
                        }
                },
                !was_empty ==> forall|i: int|
                    s0.len() <= i < self.nodes().len() ==> {
                        &&& #[trigger] self.nodes()[i].parent != ROOT_PARENT
                        &&& !self.nodes()[i].visible
                        &&& !self.nodes()[i].expanded
                        &&& self.nodes()[self.index()[self.nodes()[i].parent] as int].file_entry.path@
                            == self.nodes()[i].file_entry.parent@
                        &&& forall|j: int|
                            0 <= j < i ==> self.nodes()[j].file_entry.path@
                                != self.nodes()[i].file_entry.path@
                    },
                !was_empty && old(self).next_id() + directory@.len() < usize::MAX ==> forall|q: int, j: int|
                    #![trigger s0[j], directory@[q]]
                    0 <= q < k && 0 <= j < s0.len() && s0[j].file_entry.path@
                        == directory@[q].parent@ ==> exists|i: int|
                        0 <= i < self.nodes().len() && #[trigger] self.nodes()[i].file_entry.path@
                            == directory@[q].path@,
            decreases directory@.len() - k,
        {
            let element = &directory[k];
            let ghost before = self.nodes();
            let ghost ix0 = self.index();
            let ghost check = !was_empty && old(self).next_id() + directory@.len() < usize::MAX;
            if self.next_id < usize::MAX {
                if was_empty {
                    self.add_as_root(element);
                    proof {
                        let t = self.nodes();
                        assert forall|i: int| s0.len() <= i < t.len() implies exists|q: int|
                            0 <= q < k + 1 && same_entry(#[trigger] t[i].file_entry, directory@[q]) by {
                            if i < before.len() {
                                let q = choose|q: int| 0 <= q < k && same_entry(before[i].file_entry, directory@[q]);
                                assert(same_entry(t[i].file_entry, directory@[q]));
                            } else {
                                assert(same_entry(t[i].file_entry, directory@[k as int]));
                            }
                        }
                        assert(layer_step(before, t, directory@, k as int, check));
                    }
                } else {
                    let existing = self.position_of_path(&element.path);
                    if existing.is_none() {
                    match self.position_of_path(&element.parent) {
                        Some(pi) => {
                            self.add_as_child(element, pi);
                            proof {
                                let t = self.nodes();
                                let ix = self.index();
                                assert forall|i: int| s0.len() <= i < t.len() implies exists|q: int|
                                    0 <= q < k + 1 && same_entry(#[trigger] t[i].file_entry, directory@[q]) by {
                                    if i < before.len() {
                                        assert(same_but_children(t[i], before[i]));
                                        let q = choose|q: int| 0 <= q < k && same_entry(before[i].file_entry, directory@[q]);
                                        assert(same_entry(t[i].file_entry, directory@[q]));
                                    } else {
                                        assert(same_entry(t[i].file_entry, directory@[k as int]));
                                    }
                                }
                                assert forall|i: int| s0.len() <= i < t.len() implies {
                                    &&& #[trigger] t[i].parent != ROOT_PARENT
                                    &&& !t[i].visible
                                    &&& !t[i].expanded
                                    &&& t[ix[t[i].parent] as int].file_entry.path@ == t[i].file_entry.parent@
                                    &&& forall|j: int| 0 <= j < i ==> t[j].file_entry.path@ != t[i].file_entry.path@
                                } by {
                                    if i < before.len() {
                                        assert(same_but_children(t[i], before[i]));
                                        let pp = ix0[before[i].parent] as int;
                                        assert(ix0.contains_key(before[pp].id));
                                        assert(same_but_children(t[pp], before[pp]));
                                        assert(ix.contains_key(t[pp].id));
                                        assert forall|j: int| 0 <= j < i implies t[j].file_entry.path@ != t[i].file_entry.path@ by {
                                            assert(same_but_children(t[j], before[j]));
                                        }
                                    } else {
                                        assert(ix.contains_key(t[pi as int].id));
                                        assert forall|j: int| 0 <= j < i implies t[j].file_entry.path@ != t[i].file_entry.path@ by {
                                            assert(same_but_children(t[j], before[j]));
                                        }
                                    }
                                }
                                assert(t[t.len() - 1].file_entry.path@ == directory@[k as int].path@);
                                assert(layer_step(before, t, directory@, k as int, check));
                            }
                        },
                        None => {
                            proof {
                                if has_path_before(before, before.len() as int, directory@[k as int].parent@) {
                                    let i = choose|i: int| 0 <= i < before.len() && i < before.len()
                                        && #[trigger] before[i].file_entry.path@ == directory@[k as int].parent@;
                                }
                                assert(layer_step(before, self.nodes(), directory@, k as int, check));
                            }
                        },
                    }
                    } else {
                        proof {
                            let p = existing->Some_0 as int;
                            assert(before[p].file_entry.path@ == directory@[k as int].path@);
                            assert(layer_step(before, self.nodes(), directory@, k as int, check));
                        }
                    }
                }
            } else {
                assert(layer_step(before, self.nodes(), directory@, k as int, check));
            }
            proof {
                let t = self.nodes();
                assert(layer_step(before, t, directory@, k as int, check));
                let e = directory@;
                let lens2 = lens.push(t.len() as int);
                assert forall|q: int, i: int|
                    0 <= q < k + 1 && lens2[q] <= i < lens2[q + 1] implies #[trigger] t[i].file_entry.path@
                        == #[trigger] e[q].path@ by {
                    if q < k {
                        assert(lens2[q + 1] == lens[q + 1] && lens2[q] == lens[q]);
                        assert(lens[q + 1] <= lens[k as int]);
                        assert(same_but_children(t[i], before[i]));
                        assert(before[i].file_entry.path@ == e[q].path@);
                    }
                }
                if check {
                    assert forall|q: int|
                        0 <= q < k + 1 && has_path_before(t, lens2[q], e[q].parent@) implies has_path_before(
                            t,
                            lens2[q + 1],
                            #[trigger] e[q].path@,
                        ) by {
                        if q < k {
                            assert(lens2[q + 1] == lens[q + 1] && lens2[q] == lens[q]);
                            assert(lens[q] <= lens[q + 1] && lens[q + 1] <= lens[k as int]);
                            lemma_has_path_before_grown(before, t, lens[q], e[q].parent@);
                            lemma_has_path_before_grown(before, t, lens[q + 1], e[q].path@);
                        }
                    }
                }
                assert forall|a: int, b: int| 0 <= a <= b < lens2.len() implies #[trigger] lens2[a] <= #[trigger] lens2[b] by {
                    if b < lens.len() {
                        assert(lens2[a] == lens[a] && lens2[b] == lens[b]);
                    } else if a < lens.len() {
                        assert(lens[a] <= lens[k as int]);
                    }
                }
                lens = lens2;
            }
            proof {
                let t = self.nodes();
                assert(grown(before, t));
                assert forall|i: int| 0 <= i < s0.len() implies {
                    &&& same_but_children(#[trigger] t[i], s0[i])
                    &&& s0[i].children@.len() <= t[i].children@.len()
                    &&& forall|c: int| 0 <= c < s0[i].children@.len() ==> t[i].children@[c] == s0[i].children@[c]
                } by {
                    assert(same_but_children(before[i], s0[i]));
                    assert(same_but_children(t[i], before[i]));
                }
                if !was_empty && old(self).next_id() + directory@.len() < usize::MAX {
                    assert forall|q: int, j: int|
                        #![trigger s0[j], directory@[q]]
                        0 <= q < k + 1 && 0 <= j < s0.len() && s0[j].file_entry.path@
                            == directory@[q].parent@ implies exists|i: int|
                            0 <= i < t.len() && #[trigger] t[i].file_entry.path@ == directory@[q].path@ by {
                        if q < k {
                            let i = choose|i: int| 0 <= i < before.len() && #[trigger] before[i].file_entry.path@ == directory@[q].path@;
                            assert(same_but_children(t[i], before[i]));
                            assert(t[i].file_entry.path@ == directory@[q].path@);
                        } else {
                            assert(same_but_children(before[j], s0[j]));
                            if exists|i: int| 0 <= i < before.len() && before[i].file_entry.path@ == directory@[q].path@ {
                                let i = choose|i: int| 0 <= i < before.len() && before[i].file_entry.path@ == directory@[q].path@;
                                assert(same_but_children(t[i], before[i]));
                                assert(t[i].file_entry.path@ == directory@[q].path@);
                            } else {
                                assert(t[t.len() - 1].file_entry.path@ == directory@[q].path@);
                            }
                        }
                    }
                }
            }
            k = k + 1;
        }
        proof {
            let t = self.nodes();
            let e = directory@;
            if s0.len() > 0 && old(self).next_id() + e.len() < usize::MAX && distinct_paths(e) {
                assert forall|k: int|
                    0 <= k < e.len() && (has_path(s0, e[k].parent@) || exists|q: int|
                        0 <= q < k && e[q].path@ == e[k].parent@ && has_path(t, e[q].path@)) implies has_path(
                    t,
                    #[trigger] e[k].path@,
                ) by {
                    assert(lens[0] <= lens[k] && lens[k] <= lens[k + 1]);
                    if has_path(s0, e[k].parent@) {
                        let j = choose|j: int| 0 <= j < s0.len() && s0[j].file_entry.path@ == e[k].parent@;
                        assert(same_but_children(t[j], s0[j]));
                        assert(t[j].file_entry.path@ == e[k].parent@);
                    } else {
                        let q = choose|q: int| 0 <= q < k && e[q].path@ == e[k].parent@ && has_path(t, e[q].path@);
                        let i = choose|i: int| 0 <= i < t.len() && t[i].file_entry.path@ == e[q].path@;
                        if i >= lens[k] {
                            assert(lens.last() == t.len());
                            lemma_find_step(lens, k, i);
                            let j = choose|j: int| k <= j < lens.len() - 1 && lens[j] <= i < #[trigger] lens[j + 1];
                            assert(t[i].file_entry.path@ == e[j].path@);
                            assert(e[j].path@ != e[q].path@);
                        }
                        assert(t[i].file_entry.path@ == e[k].parent@);
                    }
                    assert(has_path_before(t, lens[k], e[k].parent@));
                    assert(has_path_before(t, lens[k + 1], e[k].path@));
                    let w = choose|w: int| 0 <= w < lens[k + 1] && w < t.len() && #[trigger] t[w].file_entry.path@ == e[k].path@;
                }
            }
            if s0.len() > 0 && old(self).next_id() + directory@.len() < usize::MAX && fresh_layer(s0, directory@) {
                let e = directory@;
                assert forall|q: int| 0 <= q < e.len() implies has_path(t, #[trigger] e[q].path@) by {
                    assert(has_path(s0, e[q].parent@));
                    let j = choose|j: int| 0 <= j < s0.len() && #[trigger] s0[j].file_entry.path@ == e[q].parent@;
                    assert(s0[j].file_entry.path@ == directory@[q].parent@);
                    assert(exists|i: int| 0 <= i < t.len() && #[trigger] t[i].file_entry.path@ == directory@[q].path@);
                    let i = choose|i: int| 0 <= i < t.len() && #[trigger] t[i].file_entry.path@ == directory@[q].path@;
                    assert(t[i].file_entry.path@ == e[q].path@);
                }
                assert forall|i: int, j: int| s0.len() <= i < t.len() && 0 <= j < i implies #[trigger] t[j].file_entry.path@
                    != #[trigger] t[i].file_entry.path@ by {
                    assert(t[i].parent != ROOT_PARENT);
                }
                lemma_layer_count(s0, t, e);
            }
        }
    }

    /// Appends `element` as a node of the top layer.
    #[verifier::spinoff_prover]
    fn add_as_root(&mut self, element: &FileEntry)
        requires
            old(self).wf(),
            old(self).next_id() < usize::MAX,
        ensures
            final(self).wf(),
            final(self).next_id() == old(self).next_id() + 1,
            final(self).nodes().len() == old(self).nodes().len() + 1,
            forall|i: int| 0 <= i < old(self).nodes().len() ==> final(self).nodes()[i] == old(self).nodes()[i],
            grown(old(self).nodes(), final(self).nodes()),
            ({
                let n = final(self).nodes().last();
                &&& n.id == old(self).next_id()
                &&& n.depth == 0
                &&& same_entry(n.file_entry, *element)
                &&& n.children@.len() == 0
                &&& n.parent == ROOT_PARENT
                &&& n.visible
                &&& !n.expanded
            }),
    {
        let id = self.next_id;
        let node = TreeNode {
            id: id,
            depth: 0,
            file_entry: element.duplicate(),
            children: Vec::new(),
            parent: ROOT_PARENT,
            visible: true,
            expanded: false,
        };
        let ghost s = self.elements@;
        let pos = self.elements.len();
        self.elements.push(node);
        self.lookup.insert(id, pos);
        self.next_id = id + 1;
        proof {
            let t = self.elements@;
            assert forall|i: int| 0 <= i < s.len() implies s[i].id != id by {
                assert(s[i].id < id);
            }
            assert forall|i: int, k: int|
                0 <= i < t.len() && 0 <= k < t[i].children@.len() implies {
                    &&& self.lookup@.contains_key(#[trigger] t[i].children@[k])
                    &&& t[self.lookup@[t[i].children@[k]] as int].parent == t[i].id
                } by {
                assert(old(self).lookup@.contains_key(s[i].children@[k]));
            }
            assert forall|i: int| 0 <= i < t.len() && #[trigger] t[i].parent != ROOT_PARENT implies {
                &&& self.lookup@.contains_key(t[i].parent)
                &&& t[i].parent < t[i].id
                &&& t[self.lookup@[t[i].parent] as int].depth + 1 == t[i].depth
                &&& t[self.lookup@[t[i].parent] as int].children@.contains(t[i].id)
            } by {
                assert(i < s.len());
                assert(old(self).lookup@.contains_key(s[i].parent));
            }
        }
    }

    /// Appends `element` as a child of the node at position `pi`, and adds its id
    /// to that node's children.
    #[verifier::spinoff_prover]
    fn add_as_child(&mut self, element: &FileEntry, pi: usize)
        requires
            old(self).wf(),
            old(self).next_id() < usize::MAX,
            pi < old(self).nodes().len(),
        ensures
            final(self).wf(),
            final(self).next_id() == old(self).next_id() + 1,
            final(self).nodes().len() == old(self).nodes().len() + 1,
            forall|i: int|
                0 <= i < old(self).nodes().len() && i != pi ==> final(self).nodes()[i] == old(self).nodes()[i],
            same_but_children(final(self).nodes()[pi as int], old(self).nodes()[pi as int]),
            final(self).nodes()[pi as int].children@ == old(self).nodes()[pi as int].children@.push(
                old(self).next_id(),
            ),
            grown(old(self).nodes(), final(self).nodes()),
            ({
                let n = final(self).nodes().last();
                let p = old(self).nodes()[pi as int];
                &&& n.id == old(self).next_id()
                &&& n.depth == p.depth + 1
                &&& same_entry(n.file_entry, *element)
                &&& n.children@.len() == 0
                &&& n.parent == p.id
                &&& !n.visible
                &&& !n.expanded
            }),
    {
        let ghost s = self.elements@;
        let id = self.next_id;
        let pid = self.elements[pi].id;
        let pdepth = self.elements[pi].depth;
        assert(s[pi as int].depth < s[pi as int].id);
        let node = TreeNode {
            id: id,
            depth: pdepth + 1,
            file_entry: element.duplicate(),
            children: Vec::new(),
            parent: pid,
            visible: false,
            expanded: false,
        };
        let pos = self.elements.len();
        self.elements.push(node);
        self.lookup.insert(id, pos);
        self.next_id = id + 1;
        self.elements[pi].children.push(id);
        proof {
            let t = self.elements@;
            let ix = self.lookup@;
            assert forall|i: int| 0 <= i < s.len() implies s[i].id != id by {
                assert(s[i].id < id);
            }
            assert(!s[pi as int].children@.contains(id)) by {
                if s[pi as int].children@.contains(id) {
                    let k = s[pi as int].children@.index_of(id);
                    assert(old(self).lookup@.contains_key(s[pi as int].children@[k]));
                }
            }
            assert forall|i: int| 0 <= i < t.len() implies (#[trigger] t[i].children@).no_duplicates() by {
                if i == pi {
                    assert(s[i].children@.no_duplicates());
                }
            }
            assert forall|i: int, k: int|
                0 <= i < t.len() && 0 <= k < t[i].children@.len() implies {
                    &&& ix.contains_key(#[trigger] t[i].children@[k])
                    &&& t[ix[t[i].children@[k]] as int].parent == t[i].id
                } by {
                if i == pi && k == s[i].children@.len() {
                } else {
                    assert(i < s.len());
                    assert(t[i].children@[k] == s[i].children@[k]);
                    assert(old(self).lookup@.contains_key(s[i].children@[k]));
                }
            }
            assert forall|i: int| 0 <= i < t.len() && #[trigger] t[i].parent != ROOT_PARENT implies {
                &&& ix.contains_key(t[i].parent)
                &&& t[i].parent < t[i].id
                &&& t[ix[t[i].parent] as int].depth + 1 == t[i].depth
                &&& t[ix[t[i].parent] as int].children@.contains(t[i].id)
            } by {
                if i == s.len() {
                    assert(t[pi as int].children@.last() == id);
                } else {
                    assert(old(self).lookup@.contains_key(s[i].parent));
                    let j = old(self).lookup@[s[i].parent] as int;
                    if j == pi {
                        let k = s[j].children@.index_of(s[i].id);
                        assert(t[j].children@[k] == s[i].id);
                    }
                }
            }
        }
    }

    /// Whether the node at position `i` lies below the node with id `a`.
    pub fn is_below(&self, i: usize, a: usize) -> (r: bool)
        requires
            self.wf(),
            i < self.nodes().len(),
        ensures
            r == below(self.nodes(), self.index(), i as int, a),
    {
        let ghost s = self.nodes();
        let ghost ix = self.index();
        let mut cur = i;
        while self.elements[cur].parent != ROOT_PARENT && self.elements[cur].parent != a
            invariant
                self.wf(),
                s == self.nodes(),
                ix == self.index(),
                cur < s.len(),
                below(s, ix, i as int, a) == below(s, ix, cur as int, a),
            decreases s[cur as int].depth,
        {
            let p = self.elements[cur].parent;
            assert(ix.contains_key(s[cur as int].parent));
            cur = *self.lookup.get(&p).unwrap();
        }
        self.elements[cur].parent != ROOT_PARENT
    }

    /// Steps the display state of the node with id `id`; an unknown id changes
    /// nothing.
    ///
    /// A visible, expanded node collapses: its direct children are hidden and
    /// collapsed. A visible, collapsed node expands: its direct children become
    /// visible. A hidden node is hidden and collapsed together with every node
    /// below it.
    #[verifier::spinoff_prover]
    pub fn toggle_visibility(&mut self, id: &usize)
        requires
            old(self).wf(),
        ensures
            toggled(*old(self), *id, *final(self)),
    {
        let id: usize = *id;
        let x = match self.position_of(id) {
            Some(x) => x,
            None => return,
        };
        let ghost s = self.nodes();
        let ghost ix = self.index();
        let visible = self.elements[x].visible;
        let expanded = self.elements[x].expanded;
        // 0: collapse, 1: expand, 2: hide the whole branch
        let mode: u8 = if visible && expanded {
            0
        } else if visible {
            1
        } else {
            2
        };
        let mut hit: Vec<bool> = Vec::new();
        let mut h: usize = 0;
        while h < self.elements.len()
            invariant
                self.wf(),
                s == self.nodes(),
                ix == self.index(),
                h <= s.len(),
                hit@.len() == h,
                forall|j: int|
                    0 <= j < h ==> #[trigger] hit@[j] == if mode == 2 {
                        below(s, ix, j, id)
                    } else {
                        s[j].parent == id
                    },
            decreases s.len() - h,
        {
            if mode == 2 {
                hit.push(self.is_below(h, id));
            } else {
                hit.push(self.elements[h].parent == id);
            }
            h = h + 1;
        }
        if mode == 0 {
            self.set_flags(x, true, false);
        } else if mode == 1 {
            self.set_flags(x, true, true);
        } else {
            self.set_flags(x, false, false);
        }
        let mut i: usize = 0;
        while i < self.elements.len()
            invariant
                ix == self.index(),
                self.next_id() == old(self).next_id(),
                s == old(self).nodes(),
                index_exact(s, ix),
                links_ok(s, ix, self.next_id()),
                x < s.len(),
                s[x as int].id == id,
                hit@.len() == s.len(),
                forall|j: int|
                    0 <= j < s.len() ==> #[trigger] hit@[j] == if mode == 2 {
                        below(s, ix, j, id)
                    } else {
                        s[j].parent == id
                    },
                mode == 0 <==> s[x as int].visible && s[x as int].expanded,
                mode == 1 <==> s[x as int].visible && !s[x as int].expanded,
                mode == 2 <==> !s[x as int].visible,
                flags_only(s, self.nodes()),
                i <= s.len(),
                mode == 0 ==> self.nodes()[x as int].visible && !self.nodes()[x as int].expanded,
                mode == 1 ==> self.nodes()[x as int].visible && self.nodes()[x as int].expanded,
                mode == 2 ==> !self.nodes()[x as int].visible && !self.nodes()[x as int].expanded,
                forall|j: int|
                    i <= j < s.len() && j != x ==> #[trigger] self.nodes()[j] == s[j],
                forall|j: int|
                    0 <= j < i && j != x ==> if mode == 0 {
                        if s[j].parent == id {
                            !(#[trigger] self.nodes()[j]).visible && !self.nodes()[j].expanded
                        } else {
                            self.nodes()[j] == s[j]
                        }
                    } else if mode == 1 {
                        if s[j].parent == id {
                            (#[trigger] self.nodes()[j]).visible && self.nodes()[j].expanded == s[j].expanded
                        } else {
                            self.nodes()[j] == s[j]
                        }
                    } else {
                        if below(s, ix, j, id) {
                            !(#[trigger] self.nodes()[j]).visible && self.nodes()[j].expanded == s[j].expanded
                        } else {
                            self.nodes()[j] == s[j]
                        }
                    },
            decreases s.len() - i,
        {
            if i != x && hit[i] {
                let e = self.elements[i].expanded;
                if mode == 0 {
                    self.set_flags(i, false, false);
                } else if mode == 1 {
                    self.set_flags(i, true, e);
                } else {
                    self.set_flags(i, false, e);
                }
            }
            i = i + 1;
        }
        proof {
            let t = self.nodes();
            assert forall|j: int| 0 <= j < t.len() implies #[trigger] ix.contains_key(t[j].id) && ix[t[j].id] == j by {
                assert(ix.contains_key(s[j].id));
            }
            assert forall|k: usize| #[trigger] ix.contains_key(k) implies ix[k] < t.len() && t[ix[k] as int].id == k by {
                assert(ix.contains_key(k));
            }
            assert(index_exact(t, ix));
            assert forall|j: int| 0 <= j < t.len() && #[trigger] t[j].parent != ROOT_PARENT implies {
                &&& ix.contains_key(t[j].parent)
                &&& t[j].parent < t[j].id
                &&& t[ix[t[j].parent] as int].depth + 1 == t[j].depth
                &&& t[ix[t[j].parent] as int].children@.contains(t[j].id)
            } by {
                assert(s[j].parent != ROOT_PARENT);
                assert(ix.contains_key(s[j].parent));
                let pj = ix[s[j].parent] as int;
                assert(t[pj].children == s[pj].children);
            }
            assert forall|j: int, k: int|
                0 <= j < t.len() && 0 <= k < t[j].children@.len() implies {
                    &&& ix.contains_key(#[trigger] t[j].children@[k])
                    &&& t[ix[t[j].children@[k]] as int].parent == t[j].id
                } by {
                assert(t[j].children == s[j].children);
                assert(ix.contains_key(s[j].children@[k]));
            }
            assert forall|j: int| 0 <= j < t.len() implies (#[trigger] t[j].children@).no_duplicates() by {
                assert(t[j].children == s[j].children);
                assert(s[j].children@.no_duplicates());
            }
            assert forall|j: int| 0 <= j < t.len() implies (#[trigger] t[j].parent == ROOT_PARENT) == (t[j].depth == 0) by {
                assert(s[j].parent == ROOT_PARENT <==> s[j].depth == 0);
            }
            assert forall|j: int| 0 <= j < t.len() implies 0 < #[trigger] t[j].id < self.next_id() by {
                assert(0 < s[j].id < self.next_id());
            }
            assert forall|j: int| 0 <= j < t.len() implies #[trigger] t[j].depth < t[j].id by {
                assert(s[j].depth < s[j].id);
            }
        }
    }

    /// Sets the display flags of the node at position `i`.
    fn set_flags(&mut self, i: usize, visible: bool, expanded: bool)
        requires
            i < old(self).nodes().len(),
        ensures
            final(self).nodes() == old(self).nodes().update(
                i as int,
                TreeNode { visible: visible, expanded: expanded, ..old(self).nodes()[i as int] },
            ),
            final(self).index() == old(self).index(),
            final(self).next_id() == old(self).next_id(),
            flags_only(old(self).nodes(), final(self).nodes()),
    {
        self.elements[i].visible = visible;
        self.elements[i].expanded = expanded;
        assert(self.elements@ =~= old(self).nodes().update(
            i as int,
            TreeNode { visible: visible, expanded: expanded, ..old(self).nodes()[i as int] },
        ));
    }

    /// Removes the node with id `id` together with every node below it, drops
    /// the id from its parent's children and rebuilds the index. Returns the
    /// removed node, or `None` for an unknown id.
    #[verifier::spinoff_prover]
    #[verifier::rlimit(60)]
    pub fn remove(&mut self, id: usize) -> (r: Option<TreeNode>)
        requires
            old(self).wf(),
        ensures
            removed(*old(self), id, *final(self)),
            r is Some <==> old(self).index().contains_key(id),
            r matches Some(n) ==> n == old(self).nodes()[old(self).index()[id] as int],
    {
        let x = match self.position_of(id) {
            Some(x) => x,
            None => return None,
        };
        let ghost s = self.nodes();
        let ghost ix = self.index();
        let ghost next = self.next_id();
        let n = self.elements.len();
        let parent = self.elements[x].parent;
        let mut gone: Vec<bool> = Vec::new();
        let mut h: usize = 0;
        while h < n
            invariant
                self.wf(),
                s == self.nodes(),
                ix == self.index(),
                n == s.len(),
                h <= n,
                gone@.len() == h,
                forall|j: int| 0 <= j < h ==> #[trigger] gone@[j] == goes_with(s, ix, j, id),
            decreases n - h,
        {
            let g = self.elements[h].id == id || self.is_below(h, id);
            gone.push(g);
            h = h + 1;
        }
        let mut removed: Option<TreeNode> = None;
        let mut i: usize = 0;
        let mut w: usize = 0;
        proof {
            lemma_kept_positions(s, ix, id, s.len() as int);
        }
        while i < n
            invariant
                n == s.len(),
                x < n,
                s[x as int].id == id,
                gone@.len() == n,
                forall|j: int| 0 <= j < n ==> #[trigger] gone@[j] == goes_with(s, ix, j, id),
                i <= n,
                w <= i,
                w == kept_positions(s, ix, id, i as int).len(),
                self.elements@.len() == w + (n - i),
                forall|j: int| 0 <= j < w ==> #[trigger] self.elements@[j] == s[kept_positions(s, ix, id, i as int)[j]],
                forall|j: int| w <= j < w + (n - i) ==> #[trigger] self.elements@[j] == s[i + j - w],
                i > x ==> removed == Some(s[x as int]),
                self.next_id == next,
            decreases n - i,
        {
            let ghost kp0 = kept_positions(s, ix, id, i as int);
            if gone[i] {
                let node = self.elements.remove(w);
                if i == x {
                    removed = Some(node);
                }
            } else {
                w = w + 1;
            }
            proof {
                let kp1 = kept_positions(s, ix, id, i + 1);
                assert forall|j: int| 0 <= j < w implies #[trigger] self.elements@[j] == s[kp1[j]] by {
                    if j < kp0.len() {
                        assert(kp1[j] == kp0[j]);
                    }
                }
            }
            i = i + 1;
        }
        let ghost kp = kept_positions(s, ix, id, n as int);
        proof {
            lemma_kept_positions(s, ix, id, n as int);
            assert forall|a: int, b: int| 0 <= a < b < self.elements@.len() implies self.elements@[a].id != self.elements@[b].id by {
                assert(kp[a] < kp[b]);
                assert(ix.contains_key(s[kp[a]].id));
            }
        }
        self.rebuild_index();
        let ghost ix2 = self.index();
        let ghost t1 = self.nodes();
        let ghost mut jj: int = -1;
        if parent != ROOT_PARENT {
            proof {
                assert(ix.contains_key(parent));
                let pq = ix[parent] as int;
                assert(!goes_with(s, ix, pq, id)) by {
                    if below(s, ix, pq, id) {
                        lemma_below_deeper(s, ix, next, pq, id);
                    }
                }
                assert(kp.contains(pq));
                jj = kp.index_of(pq);
                assert(t1[jj] == s[pq]);
                assert(ix2.contains_key(t1[jj].id));
            }
            let pp = *self.lookup.get(&parent).unwrap();
            assert(pp == jj);
            let kids = without_id(&self.elements[pp].children, id);
            self.elements[pp].children = kids;
            assert(self.elements@ =~= t1.update(jj, TreeNode { children: self.elements@[jj].children, ..t1[jj] }));
        }
        let ghost t = self.nodes();
        proof {
            lemma_after_remove(s, ix, t1, ix2, t, kp, x as int, jj, id, next);
            assert forall|k: usize| #[trigger] ix2.contains_key(k) implies ix.contains_key(k) by {
                let j = ix2[k] as int;
                assert(same_but_children(t[j], s[kp[j]]));
                assert(ix.contains_key(s[kp[j]].id));
            }
        }
        removed
    }

    /// Renames the node with id `id` to `new_name` and returns its former path,
    /// or `None` for an unknown id. The node's path becomes `new_name` inside
    /// its parent directory. If the node is a directory, every node below it
    /// has the old path, where it begins its path or its parent path, replaced
    /// by the new one. Ids, layers and links stay as they are.
    #[verifier::spinoff_prover]
    pub fn rename(&mut self, id: usize, new_name: &String) -> (r: Option<String>)
        requires
            old(self).wf(),
        ensures
            renamed(*old(self), id, new_name@, *final(self)),
            r is Some <==> old(self).index().contains_key(id),
            r matches Some(o) ==> o@ == old(self).nodes()[old(self).index()[id] as int].file_entry.path@,
    {
        let x = match self.position_of(id) {
            Some(x) => x,
            None => return None,
        };
        let ghost s = self.nodes();
        let ghost ix = self.index();
        let n = self.elements.len();
        let is_dir = self.elements[x].file_entry.is_dir;
        let mut hit: Vec<bool> = Vec::new();
        let mut h: usize = 0;
        while h < n
            invariant
                self.wf(),
                s == self.nodes(),
                ix == self.index(),
                n == s.len(),
                h <= n,
                hit@.len() == h,
                forall|j: int| 0 <= j < h ==> #[trigger] hit@[j] == (is_dir && below(s, ix, j, id)),
            decreases n - h,
        {
            hit.push(is_dir && self.is_below(h, id));
            h = h + 1;
        }
        let old_path = self.elements[x].file_entry.path.clone();
        let new_path = join(&self.elements[x].file_entry.parent, new_name);
        self.elements[x].file_entry.name = new_name.clone();
        self.elements[x].file_entry.path = new_path.clone();
        let mut i: usize = 0;
        while i < n
            invariant
                n == s.len(),
                x < n,
                s[x as int].id == id,
                s[x as int].file_entry.is_dir == is_dir,
                old_path@ == s[x as int].file_entry.path@,
                new_path@ == join_path(s[x as int].file_entry.parent@, new_name@),
                hit@.len() == n,
                forall|j: int| 0 <= j < n ==> #[trigger] hit@[j] == (is_dir && below(s, ix, j, id)),
                self.index() == ix,
                self.next_id() == old(self).next_id(),
                entries_only(s, self.nodes()),
                i <= n,
                self.nodes()[x as int].file_entry.name@ == new_name@,
                self.nodes()[x as int].file_entry.path@ == new_path@,
                self.nodes()[x as int].file_entry.parent@ == s[x as int].file_entry.parent@,
                self.nodes()[x as int].file_entry.is_dir == s[x as int].file_entry.is_dir,
                self.nodes()[x as int].file_entry.is_file == s[x as int].file_entry.is_file,
                self.nodes()[x as int].file_entry.is_symlink == s[x as int].file_entry.is_symlink,
                self.nodes()[x as int].file_entry.is_hidden == s[x as int].file_entry.is_hidden,
                self.nodes()[x as int].file_entry.size == s[x as int].file_entry.size,
                self.nodes()[x as int].file_entry.modified == s[x as int].file_entry.modified,
                forall|j: int| i <= j < n && j != x ==> #[trigger] self.nodes()[j] == s[j],
                forall|j: int|
                    0 <= j < i && j != x ==> if is_dir && below(s, ix, j, id) {
                        &&& moved_entry(s[j].file_entry, #[trigger] self.nodes()[j].file_entry)
                        &&& self.nodes()[j].file_entry.path@ == rebased(s[j].file_entry.path@, old_path@, new_path@)
                        &&& self.nodes()[j].file_entry.parent@ == rebased(s[j].file_entry.parent@, old_path@, new_path@)
                    } else {
                        same_entry(#[trigger] self.nodes()[j].file_entry, s[j].file_entry)
                    },
            decreases n - i,
        {
            if i != x && hit[i] {
                let ghost before = self.nodes();
                if starts_with(&self.elements[i].file_entry.path, &old_path) {
                    let p = replace_prefix(&self.elements[i].file_entry.path, old_path.as_str().unicode_len(), &new_path);
                    self.elements[i].file_entry.path = p;
                }
                if starts_with(&self.elements[i].file_entry.parent, &old_path) {
                    let p = replace_prefix(&self.elements[i].file_entry.parent, old_path.as_str().unicode_len(), &new_path);
                    self.elements[i].file_entry.parent = p;
                }
            }
            i = i + 1;
        }
        proof {
            lemma_entries_only_wf(s, self.nodes(), ix, self.next_id());
        }
        Some(old_path)
    }

    /// Makes the index map each node's id to its position.
    #[verifier::spinoff_prover]
    fn rebuild_index(&mut self)
        requires
            forall|i: int, j: int|
                0 <= i < j < old(self).nodes().len() ==> old(self).nodes()[i].id != old(self).nodes()[j].id,
        ensures
            final(self).nodes() == old(self).nodes(),
            final(self).next_id() == old(self).next_id(),
            index_exact(final(self).nodes(), final(self).index()),
    {
        let ghost s = self.elements@;
        self.lookup.clear();
        assert(self.elements@ == s);
        assert forall|a: int, b: int| 0 <= a < b < s.len() implies s[a].id != s[b].id by {
            assert(old(self).nodes()[a].id != old(self).nodes()[b].id);
        }
        let mut i: usize = 0;
        while i < self.elements.len()
            invariant
                self.elements@ == s,
                s == old(self).nodes(),
                self.next_id == old(self).next_id(),
                i <= s.len(),
                forall|a: int, b: int| 0 <= a < b < s.len() ==> s[a].id != s[b].id,
                forall|a: int|
                    0 <= a < i ==> #[trigger] self.lookup@.contains_key(s[a].id)
                        && self.lookup@[s[a].id] == a,
                forall|k: usize| #[trigger]
                    self.lookup@.contains_key(k) ==> self.lookup@[k] < i && s[self.lookup@[k] as int].id == k,
            decreases s.len() - i,
        {
            let id = self.elements[i].id;
            self.lookup.insert(id, i);
            proof {
                assert forall|a: int| 0 <= a < i + 1 implies #[trigger] self.lookup@.contains_key(s[a].id)
                    && self.lookup@[s[a].id] == a by {
                    if a < i {
                        assert(s[a].id != s[i as int].id);
                    }
                }
            }
            i = i + 1;
        }
        assert(index_exact(self.elements@, self.lookup@));
    }
}

/// No two nodes of a well-formed tree share an id, and no children list holds
/// an id twice.
pub proof fn lemma_ids_unique(t: &FlatTree)
    requires
        t.wf(),
    ensures
        forall|i: int, j: int|
            0 <= i < t.nodes().len() && 0 <= j < t.nodes().len() && i != j ==> #[trigger] t.nodes()[i].id
                != #[trigger] t.nodes()[j].id,
        forall|i: int| 0 <= i < t.nodes().len() ==> (#[trigger] t.nodes()[i].children@).no_duplicates(),
{
    assert forall|i: int, j: int|
        0 <= i < t.nodes().len() && 0 <= j < t.nodes().len() && i != j implies #[trigger] t.nodes()[i].id
            != #[trigger] t.nodes()[j].id by {
        assert(t.index().contains_key(t.nodes()[i].id));
        assert(t.index().contains_key(t.nodes()[j].id));
    }
}

/// In a well-formed tree every node below the top layer has its parent in the
/// tree, exactly one layer up.
pub proof fn lemma_depth_consistent(t: &FlatTree)
    requires
        t.wf(),
    ensures
        forall|i: int|
            0 <= i < t.nodes().len() && #[trigger] t.nodes()[i].parent != ROOT_PARENT ==> {
                &&& t.index().contains_key(t.nodes()[i].parent)
                &&& t.nodes()[t.index()[t.nodes()[i].parent] as int].id == t.nodes()[i].parent
                &&& t.nodes()[i].depth == t.nodes()[t.index()[t.nodes()[i].parent] as int].depth + 1
            },
{
    assert forall|i: int|
        0 <= i < t.nodes().len() && #[trigger] t.nodes()[i].parent != ROOT_PARENT implies {
            &&& t.index().contains_key(t.nodes()[i].parent)
            &&& t.nodes()[t.index()[t.nodes()[i].parent] as int].id == t.nodes()[i].parent
            &&& t.nodes()[i].depth == t.nodes()[t.index()[t.nodes()[i].parent] as int].depth + 1
        } by {
        assert(t.index().contains_key(t.nodes()[i].parent));
    }
}

} // verus!
