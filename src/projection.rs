//! The display sequence of a flat tree: which nodes are shown, and in which
//! order, with the facts proved about it.
use vstd::prelude::*;
use crate::flat_tree::{TreeNode, FlatTree, node_before, below, index_exact, links_ok, ROOT_PARENT};
use crate::entry::{text_lt, lemma_text_lt_irreflexive, lemma_text_lt_total, lemma_text_lt_transitive, lemma_text_lt_asymmetric};

verus! {

/// Positions, in storage order, of the visible nodes among the first `n`
/// whose parent is `p`.
pub open spec fn visible_group(s: Seq<TreeNode>, p: usize, n: int) -> Seq<usize>
    decreases n,
{
    if n <= 0 {
        seq![]
    } else {
        let g = visible_group(s, p, n - 1);
        if s[n - 1].visible && s[n - 1].parent == p {
            g.push((n - 1) as usize)
        } else {
            g
        }
    }
}

/// The node at position `i` is displayed before the one at `j`: display order,
/// and storage order between nodes that display order does not separate.
pub open spec fn pos_before(s: Seq<TreeNode>, i: usize, j: usize) -> bool {
    node_before(s[i as int], s[j as int]) || (!node_before(s[j as int], s[i as int]) && i < j)
}

/// The first place from `q` on in `g` whose node `x` is displayed before.
pub open spec fn insert_point(s: Seq<TreeNode>, g: Seq<usize>, x: usize, q: int) -> int
    decreases g.len() - q,
{
    if q < 0 || q >= g.len() {
        g.len() as int
    } else if pos_before(s, x, g[q]) {
        q
    } else {
        insert_point(s, g, x, q + 1)
    }
}

/// `g` sorted into display order by insertion, one position after another.
pub open spec fn sort_group(s: Seq<TreeNode>, g: Seq<usize>) -> Seq<usize>
    decreases g.len(),
{
    if g.len() == 0 {
        g
    } else {
        let r = sort_group(s, g.drop_last());
        r.insert(insert_point(s, r, g.last(), 0), g.last())
    }
}

/// The visible children of `p` (the top layer for `ROOT_PARENT`), in display order.
pub open spec fn sorted_group(s: Seq<TreeNode>, p: usize) -> Seq<usize> {
    sort_group(s, visible_group(s, p, s.len() as int))
}

/// The display sequence below parent `p`, reaching at most `fuel` layers down:
/// each visible child in display order, each followed by its own display
/// sequence where it is expanded.
pub open spec fn projection(s: Seq<TreeNode>, p: usize, fuel: nat) -> Seq<usize>
    decreases fuel, 0nat,
{
    if fuel == 0 {
        seq![]
    } else {
        projection_of(s, sorted_group(s, p), (fuel - 1) as nat)
    }
}

/// The display sequence of the nodes at positions `g` and of what lies below them.
pub open spec fn projection_of(s: Seq<TreeNode>, g: Seq<usize>, fuel: nat) -> Seq<usize>
    decreases fuel, g.len() + 1,
{
    if g.len() == 0 {
        seq![]
    } else {
        let i = g[0];
        let below = if i < s.len() && s[i as int].expanded {
            projection(s, s[i as int].id, fuel)
        } else {
            seq![]
        };
        seq![i] + below + projection_of(s, g.drop_first(), fuel)
    }
}

/// The positions of the nodes on display, in display order. A node of depth
/// `d` has `d` ancestors, all distinct, so no display sequence goes deeper
/// than the number of nodes.
pub open spec fn visible_order(s: Seq<TreeNode>) -> Seq<usize> {
    projection(s, ROOT_PARENT, s.len() as nat)
}

proof fn lemma_sort_group_bounded(s: Seq<TreeNode>, g: Seq<usize>, n: usize)
    requires
        forall|k: int| 0 <= k < g.len() ==> g[k] < n,
    ensures
        forall|k: int| 0 <= k < sort_group(s, g).len() ==> sort_group(s, g)[k] < n,
        sort_group(s, g).len() == g.len(),
    decreases g.len(),
{
    if g.len() > 0 {
        lemma_sort_group_bounded(s, g.drop_last(), n);
        let r = sort_group(s, g.drop_last());
        lemma_insert_point_range(s, r, g.last(), 0);
    }
}

proof fn lemma_insert_point_range(s: Seq<TreeNode>, g: Seq<usize>, x: usize, q: int)
    requires
        0 <= q <= g.len(),
    ensures
        q <= insert_point(s, g, x, q) <= g.len(),
    decreases g.len() - q,
{
    if q < g.len() && !pos_before(s, x, g[q]) {
        lemma_insert_point_range(s, g, x, q + 1);
    }
}

proof fn lemma_visible_group_bounded(s: Seq<TreeNode>, p: usize, n: int)
    requires
        0 <= n <= s.len() < usize::MAX,
    ensures
        forall|k: int| 0 <= k < visible_group(s, p, n).len() ==> visible_group(s, p, n)[k] < s.len(),
    decreases n,
{
    if n > 0 {
        lemma_visible_group_bounded(s, p, n - 1);
        let g = visible_group(s, p, n - 1);
        if s[n - 1].visible && s[n - 1].parent == p {
            assert(visible_group(s, p, n) == g.push((n - 1) as usize));
            assert forall|k: int| 0 <= k < g.len() + 1 implies #[trigger] g.push((n - 1) as usize)[k] < s.len() by {
                if k < g.len() {
                    assert(g.push((n - 1) as usize)[k] == g[k]);
                }
            }
        }
    }
}

impl FlatTree {
    /// Positions of the visible nodes whose parent is `p`, in display order.
    fn sorted_group(&self, p: usize) -> (r: Vec<usize>)
        requires
            self.nodes().len() < usize::MAX,
        ensures
            r@ == sorted_group(self.nodes(), p),
            forall|k: int| 0 <= k < r@.len() ==> r@[k] < self.nodes().len(),
    {
        let ghost s = self.nodes();
        let elements = self.elements();
        let mut g: Vec<usize> = Vec::new();
        let mut i: usize = 0;
        while i < elements.len()
            invariant
                elements@ == s,
                s.len() < usize::MAX,
                i <= s.len(),
                g@ == visible_group(s, p, i as int),
            decreases s.len() - i,
        {
            if elements[i].visible && elements[i].parent == p {
                g.push(i);
            }
            i = i + 1;
        }
        proof {
            lemma_visible_group_bounded(s, p, s.len() as int);
        }
        let mut r: Vec<usize> = Vec::new();
        let mut k: usize = 0;
        while k < g.len()
            invariant
                elements@ == s,
                s.len() < usize::MAX,
                k <= g@.len(),
                forall|c: int| 0 <= c < g@.len() ==> g@[c] < s.len(),
                r@ == sort_group(s, g@.take(k as int)),
            decreases g@.len() - k,
        {
            let x = g[k];
            let mut q: usize = 0;
            proof {
                assert forall|c: int| 0 <= c < g@.take(k as int).len() implies g@.take(k as int)[c] < s.len() as usize by {
                    assert(g@.take(k as int)[c] == g@[c]);
                }
                lemma_sort_group_bounded(s, g@.take(k as int), s.len() as usize);
            }
            while q < r.len() && !pos_before_exec(elements, x, r[q])
                invariant
                    elements@ == s,
                    q <= r@.len(),
                    x < s.len(),
                    forall|c: int| 0 <= c < r@.len() ==> r@[c] < s.len(),
                    insert_point(s, r@, x, 0) == insert_point(s, r@, x, q as int),
                decreases r@.len() - q,
            {
                q = q + 1;
            }
            r.insert(q, x);
            proof {
                assert(g@.take(k + 1).drop_last() =~= g@.take(k as int));
            }
            k = k + 1;
        }
        assert(g@.take(g@.len() as int) =~= g@);
        proof {
            lemma_sort_group_bounded(s, g@, s.len() as usize);
        }
        r
    }

    /// Appends to `out` the display sequence below parent `p`.
    fn project(&self, p: usize, fuel: usize, out: &mut Vec<usize>)
        requires
            self.nodes().len() < usize::MAX,
        ensures
            final(out)@ == old(out)@ + projection(self.nodes(), p, fuel as nat),
            (forall|k: int| 0 <= k < old(out)@.len() ==> old(out)@[k] < self.nodes().len())
                ==> forall|k: int| 0 <= k < final(out)@.len() ==> final(out)@[k] < self.nodes().len(),
        decreases fuel, 0nat,
    {
        if fuel == 0 {
            return;
        }
        let g = self.sorted_group(p);
        self.project_group(&g, fuel - 1, out);
    }

    /// Appends to `out` the display sequence of the nodes at positions `g`.
    fn project_group(&self, g: &Vec<usize>, fuel: usize, out: &mut Vec<usize>)
        requires
            self.nodes().len() < usize::MAX,
            forall|k: int| 0 <= k < g@.len() ==> g@[k] < self.nodes().len(),
        ensures
            final(out)@ == old(out)@ + projection_of(self.nodes(), g@, fuel as nat),
            (forall|k: int| 0 <= k < old(out)@.len() ==> old(out)@[k] < self.nodes().len())
                ==> forall|k: int| 0 <= k < final(out)@.len() ==> final(out)@[k] < self.nodes().len(),
        decreases fuel, g@.len() + 1,
    {
        let ghost s = self.nodes();
        let elements = self.elements();
        let mut q: usize = 0;
        assert(g@.skip(0) =~= g@);
        while q < g.len()
            invariant
                elements@ == s,
                s == self.nodes(),
                s.len() < usize::MAX,
                q <= g@.len(),
                forall|k: int| 0 <= k < g@.len() ==> g@[k] < s.len(),
                old(out)@ + projection_of(s, g@, fuel as nat) == out@ + projection_of(
                    s,
                    g@.skip(q as int),
                    fuel as nat,
                ),
                (forall|k: int| 0 <= k < old(out)@.len() ==> old(out)@[k] < s.len())
                    ==> forall|k: int| 0 <= k < out@.len() ==> out@[k] < s.len(),
            decreases g@.len() - q,
        {
            let i = g[q];
            proof {
                assert(g@.skip(q as int).drop_first() =~= g@.skip(q + 1));
                assert(g@.skip(q as int)[0] == i);
            }
            out.push(i);
            if elements[i].expanded {
                self.project(elements[i].id, fuel, out);
            }
            proof {
                let below = if s[i as int].expanded {
                    projection(s, s[i as int].id, fuel as nat)
                } else {
                    seq![]
                };
                assert(projection_of(s, g@.skip(q as int), fuel as nat) == seq![i] + below
                    + projection_of(s, g@.skip(q + 1), fuel as nat));
                assert(out@ + projection_of(s, g@.skip(q + 1), fuel as nat) =~= old(out)@ + projection_of(s, g@, fuel as nat));
            }
            q = q + 1;
        }
        assert(out@ =~= old(out)@ + projection_of(s, g@, fuel as nat));
    }
}

impl FlatTree {
    /// The nodes on display, in display order: the visible nodes of the top
    /// layer, directories first and then by name, each followed by the display
    /// sequence of its children where it is expanded.
    pub fn get_visible_items(&self) -> (r: Vec<&TreeNode>)
        requires
            self.wf(),
        ensures
            r@.len() == visible_order(self.nodes()).len(),
            forall|k: int|
                #![trigger r@[k]]
                #![trigger visible_order(self.nodes())[k]]
                0 <= k < r@.len() ==> visible_order(self.nodes())[k] < self.nodes().len()
                    && *r@[k] == self.nodes()[visible_order(self.nodes())[k] as int],
    {
        let mut order: Vec<usize> = Vec::new();
        self.project(ROOT_PARENT, self.len(), &mut order);
        let elements = self.elements();
        let mut r: Vec<&TreeNode> = Vec::new();
        let mut k: usize = 0;
        while k < order.len()
            invariant
                elements@ == self.nodes(),
                order@ == visible_order(self.nodes()),
                forall|c: int| 0 <= c < order@.len() ==> order@[c] < self.nodes().len(),
                k <= order@.len(),
                r@.len() == k,
                forall|c: int| 0 <= c < k ==> *r@[c] == self.nodes()[order@[c] as int],
            decreases order@.len() - k,
        {
            r.push(&elements[order[k]]);
            k = k + 1;
        }
        r
    }

    /// The nodes with the given ids, in the order of `children`; an id that no
    /// node has is passed over.
    pub fn get_children_from_ids(&self, children: &Vec<usize>) -> (r: Vec<&TreeNode>)
        requires
            self.wf(),
        ensures
            r@.len() == known_ids(self.index(), children@).len(),
            forall|k: int|
                0 <= k < r@.len() ==> *#[trigger] r@[k] == self.nodes()[self.index()[known_ids(
                    self.index(),
                    children@,
                )[k]] as int],
    {
        let mut r: Vec<&TreeNode> = Vec::new();
        let mut k: usize = 0;
        while k < children.len()
            invariant
                self.wf(),
                k <= children@.len(),
                r@.len() == known_ids(self.index(), children@.take(k as int)).len(),
                forall|j: int|
                    0 <= j < r@.len() ==> *#[trigger] r@[j] == self.nodes()[self.index()[known_ids(
                        self.index(),
                        children@.take(k as int),
                    )[j]] as int],
            decreases children@.len() - k,
        {
            proof {
                assert(children@.take(k + 1).drop_last() =~= children@.take(k as int));
            }
            match self.get_node(children[k]) {
                Some(node) => {
                    r.push(node);
                },
                None => {},
            }
            k = k + 1;
        }
        assert(children@.take(children@.len() as int) =~= children@);
        r
    }
}

/// The ids of `ids` that `ix` holds, in their order.
pub open spec fn known_ids(ix: Map<usize, usize>, ids: Seq<usize>) -> Seq<usize>
    decreases ids.len(),
{
    if ids.len() == 0 {
        seq![]
    } else {
        let r = known_ids(ix, ids.drop_last());
        if ix.contains_key(ids.last()) {
            r.push(ids.last())
        } else {
            r
        }
    }
}

/// Every node of `out` is visible, and its parent is `p` or a node of `out`
/// that is expanded.
pub open spec fn displayed_closed(s: Seq<TreeNode>, out: Seq<usize>, p: usize) -> bool {
    forall|k: int|
        0 <= k < out.len() ==> {
            &&& #[trigger] out[k] < s.len()
            &&& s[out[k] as int].visible
            &&& (s[out[k] as int].parent == p || exists|m: int|
                0 <= m < out.len() && out[m] < s.len() && s[out[m] as int].id == s[out[k] as int].parent
                    && s[out[m] as int].expanded)
        }
}

proof fn lemma_insert_members(r: Seq<usize>, q: int, x: usize)
    requires
        0 <= q <= r.len(),
    ensures
        forall|k: int| 0 <= k < r.len() + 1 ==> (#[trigger] r.insert(q, x)[k] == x || r.contains(r.insert(q, x)[k])),
{
    assert forall|k: int| 0 <= k < r.len() + 1 implies (#[trigger] r.insert(q, x)[k] == x || r.contains(r.insert(q, x)[k])) by {
        if k < q {
            assert(r.insert(q, x)[k] == r[k]);
        } else if k > q {
            assert(r.insert(q, x)[k] == r[k - 1]);
        }
    }
}

proof fn lemma_sort_group_members(s: Seq<TreeNode>, g: Seq<usize>)
    ensures
        forall|k: int| 0 <= k < sort_group(s, g).len() ==> g.contains(#[trigger] sort_group(s, g)[k]),
        sort_group(s, g).len() == g.len(),
    decreases g.len(),
{
    if g.len() > 0 {
        let u = g.drop_last();
        lemma_sort_group_members(s, u);
        let r = sort_group(s, u);
        lemma_insert_point_range(s, r, g.last(), 0);
        lemma_insert_members(r, insert_point(s, r, g.last(), 0), g.last());
        assert forall|k: int| 0 <= k < sort_group(s, g).len() implies g.contains(#[trigger] sort_group(s, g)[k]) by {
            let e = sort_group(s, g)[k];
            if e == g.last() {
                assert(g[g.len() - 1] == e);
            } else {
                assert(r.contains(e));
                let m = r.index_of(e);
                assert(u.contains(e));
                let j = u.index_of(e);
                assert(g[j] == e);
            }
        }
    }
}

proof fn lemma_visible_group_members(s: Seq<TreeNode>, p: usize, n: int)
    requires
        0 <= n <= s.len() < usize::MAX,
    ensures
        forall|k: int|
            0 <= k < visible_group(s, p, n).len() ==> #[trigger] visible_group(s, p, n)[k] < n
                && s[visible_group(s, p, n)[k] as int].visible && s[visible_group(s, p, n)[k] as int].parent == p,
    decreases n,
{
    if n > 0 {
        lemma_visible_group_members(s, p, n - 1);
        let g = visible_group(s, p, n - 1);
        if s[n - 1].visible && s[n - 1].parent == p {
            assert forall|k: int| 0 <= k < g.len() + 1 implies #[trigger] g.push((n - 1) as usize)[k] < n
                && s[g.push((n - 1) as usize)[k] as int].visible && s[g.push((n - 1) as usize)[k] as int].parent == p by {
                if k < g.len() {
                    assert(g.push((n - 1) as usize)[k] == g[k]);
                }
            }
        }
    }
}

proof fn lemma_sorted_group_members(s: Seq<TreeNode>, p: usize)
    requires
        s.len() < usize::MAX,
    ensures
        forall|k: int|
            0 <= k < sorted_group(s, p).len() ==> #[trigger] sorted_group(s, p)[k] < s.len()
                && s[sorted_group(s, p)[k] as int].visible && s[sorted_group(s, p)[k] as int].parent == p,
{
    let g = visible_group(s, p, s.len() as int);
    lemma_visible_group_members(s, p, s.len() as int);
    lemma_sort_group_members(s, g);
    assert forall|k: int| 0 <= k < sorted_group(s, p).len() implies #[trigger] sorted_group(s, p)[k] < s.len()
        && s[sorted_group(s, p)[k] as int].visible && s[sorted_group(s, p)[k] as int].parent == p by {
        let e = sorted_group(s, p)[k];
        assert(g.contains(e));
        let j = g.index_of(e);
        assert(g[j] == e);
    }
}

proof fn lemma_projection_closed(s: Seq<TreeNode>, p: usize, fuel: nat)
    requires
        s.len() < usize::MAX,
    ensures
        displayed_closed(s, projection(s, p, fuel), p),
    decreases fuel, 0nat,
{
    if fuel > 0 {
        lemma_sorted_group_members(s, p);
        lemma_projection_of_closed(s, sorted_group(s, p), (fuel - 1) as nat, p);
    }
}

proof fn lemma_projection_of_closed(s: Seq<TreeNode>, g: Seq<usize>, fuel: nat, p: usize)
    requires
        s.len() < usize::MAX,
        forall|k: int| 0 <= k < g.len() ==> #[trigger] g[k] < s.len() && s[g[k] as int].visible && s[g[k] as int].parent == p,
    ensures
        displayed_closed(s, projection_of(s, g, fuel), p),
    decreases fuel, g.len() + 1,
{
    if g.len() > 0 {
        let i = g[0];
        let below_seq = if i < s.len() && s[i as int].expanded {
            projection(s, s[i as int].id, fuel)
        } else {
            seq![]
        };
        if i < s.len() && s[i as int].expanded {
            lemma_projection_closed(s, s[i as int].id, fuel);
        }
        let rest = projection_of(s, g.drop_first(), fuel);
        assert forall|k: int| 0 <= k < g.len() - 1 implies #[trigger] g.drop_first()[k] < s.len()
            && s[g.drop_first()[k] as int].visible && s[g.drop_first()[k] as int].parent == p by {
            assert(g.drop_first()[k] == g[k + 1]);
        }
        lemma_projection_of_closed(s, g.drop_first(), fuel, p);
        let out = projection_of(s, g, fuel);
        let head = seq![i];
        assert(out == head + below_seq + rest);
        let b = below_seq.len() as int;
        assert forall|k: int| 0 <= k < out.len() implies {
            &&& #[trigger] out[k] < s.len()
            &&& s[out[k] as int].visible
            &&& (s[out[k] as int].parent == p || exists|m: int|
                0 <= m < out.len() && out[m] < s.len() && s[out[m] as int].id == s[out[k] as int].parent
                    && s[out[m] as int].expanded)
        } by {
            if k == 0 {
                assert(out[0] == i);
            } else if k < 1 + b {
                assert(out[k] == below_seq[k - 1]);
                assert(below_seq[k - 1] < s.len());
                if s[out[k] as int].parent != s[i as int].id {
                    let m = choose|m: int|
                        0 <= m < below_seq.len() && below_seq[m] < s.len() && s[below_seq[m] as int].id
                            == s[below_seq[k - 1] as int].parent && s[below_seq[m] as int].expanded;
                    assert(out[1 + m] == below_seq[m]);
                } else {
                    assert(out[0] == i);
                }
            } else {
                assert(out[k] == rest[k - 1 - b]);
                assert(rest[k - 1 - b] < s.len());
                if s[out[k] as int].parent != p {
                    let m = choose|m: int|
                        0 <= m < rest.len() && rest[m] < s.len() && s[rest[m] as int].id
                            == s[rest[k - 1 - b] as int].parent && s[rest[m] as int].expanded;
                    assert(out[1 + b + m] == rest[m]);
                }
            }
        }
    }
}

proof fn lemma_displayed_not_below(
    s: Seq<TreeNode>,
    ix: Map<usize, usize>,
    next: usize,
    out: Seq<usize>,
    id: usize,
    k: int,
)
    requires
        index_exact(s, ix),
        links_ok(s, ix, next),
        displayed_closed(s, out, ROOT_PARENT),
        forall|i: int| 0 <= i < s.len() && #[trigger] s[i].parent == id ==> !s[i].visible,
        0 <= k < out.len(),
    ensures
        !below(s, ix, out[k] as int, id),
    decreases s[out[k] as int].depth,
{
    let e = out[k] as int;
    assert(out[k] < s.len());
    if below(s, ix, e, id) {
        assert(s[e].parent != ROOT_PARENT);
        assert(s[e].parent != id);
        let m = choose|m: int|
            0 <= m < out.len() && out[m] < s.len() && s[out[m] as int].id == s[e].parent && s[out[m] as int].expanded;
        assert(ix.contains_key(s[out[m] as int].id));
        assert(ix[s[e].parent] == out[m]);
        lemma_displayed_not_below(s, ix, next, out, id, m);
    }
}

proof fn lemma_displayed_below_is_child(
    s: Seq<TreeNode>,
    ix: Map<usize, usize>,
    next: usize,
    out: Seq<usize>,
    id: usize,
    k: int,
)
    requires
        index_exact(s, ix),
        links_ok(s, ix, next),
        displayed_closed(s, out, ROOT_PARENT),
        forall|i: int| 0 <= i < s.len() && #[trigger] s[i].parent == id ==> !s[i].expanded,
        0 <= k < out.len(),
    ensures
        below(s, ix, out[k] as int, id) ==> s[out[k] as int].parent == id,
    decreases s[out[k] as int].depth,
{
    let e = out[k] as int;
    assert(out[k] < s.len());
    if below(s, ix, e, id) && s[e].parent != id {
        assert(s[e].parent != ROOT_PARENT);
        let m = choose|m: int|
            0 <= m < out.len() && out[m] < s.len() && s[out[m] as int].id == s[e].parent && s[out[m] as int].expanded;
        assert(ix.contains_key(s[out[m] as int].id));
        assert(ix[s[e].parent] == out[m]);
        lemma_displayed_below_is_child(s, ix, next, out, id, m);
    }
}

impl FlatTree {
    /// Once every direct child of the node with id `id` is hidden, as collapsing
    /// it leaves them, no node below it is on display, however the nodes
    /// further down are flagged.
    pub proof fn lemma_collapse_hides_subtree(&self, id: usize)
        requires
            self.wf(),
            forall|i: int|
                0 <= i < self.nodes().len() && #[trigger] self.nodes()[i].parent == id ==> !self.nodes()[i].visible,
        ensures
            forall|k: int|
                0 <= k < visible_order(self.nodes()).len() ==> !below(
                    self.nodes(),
                    self.index(),
                    #[trigger] visible_order(self.nodes())[k] as int,
                    id,
                ),
    {
        let s = self.nodes();
        lemma_projection_closed(s, ROOT_PARENT, s.len() as nat);
        assert forall|k: int| 0 <= k < visible_order(s).len() implies !below(
            s,
            self.index(),
            #[trigger] visible_order(s)[k] as int,
            id,
        ) by {
            lemma_displayed_not_below(s, self.index(), self.next_id(), visible_order(s), id, k);
        }
    }

    /// Once every direct child of the node with id `id` is collapsed, as
    /// collapsing the node leaves them, the only nodes below it on display are
    /// its direct children: expanding it again shows no grandchildren.
    pub proof fn lemma_reexpand_shows_children_only(&self, id: usize)
        requires
            self.wf(),
            forall|i: int|
                0 <= i < self.nodes().len() && #[trigger] self.nodes()[i].parent == id ==> !self.nodes()[i].expanded,
        ensures
            forall|k: int|
                0 <= k < visible_order(self.nodes()).len() && below(
                    self.nodes(),
                    self.index(),
                    #[trigger] visible_order(self.nodes())[k] as int,
                    id,
                ) ==> self.nodes()[visible_order(self.nodes())[k] as int].parent == id,
    {
        let s = self.nodes();
        lemma_projection_closed(s, ROOT_PARENT, s.len() as nat);
        assert forall|k: int|
            0 <= k < visible_order(s).len() && below(s, self.index(), #[trigger] visible_order(s)[k] as int, id)
            implies s[visible_order(s)[k] as int].parent == id by {
            lemma_displayed_below_is_child(s, self.index(), self.next_id(), visible_order(s), id, k);
        }
    }
}

/// The positions of `g` are in display order.
pub open spec fn in_display_order(s: Seq<TreeNode>, g: Seq<usize>) -> bool {
    forall|a: int, b: int| 0 <= a < b < g.len() ==> pos_before(s, #[trigger] g[a], #[trigger] g[b])
}

/// Display order between distinct positions is a strict total order.
proof fn lemma_pos_order(s: Seq<TreeNode>, i: usize, j: usize, k: usize)
    requires
        i < s.len(),
        j < s.len(),
        k < s.len(),
    ensures
        i != j ==> pos_before(s, i, j) || pos_before(s, j, i),
        pos_before(s, i, j) ==> !pos_before(s, j, i),
        pos_before(s, i, j) && pos_before(s, j, k) ==> pos_before(s, i, k),
{
    let (x, y, z) = (s[i as int], s[j as int], s[k as int]);
    let (nx, ny, nz) = (x.file_entry.name@, y.file_entry.name@, z.file_entry.name@);
    lemma_text_lt_irreflexive(nx, 0);
    lemma_text_lt_total(nx, ny, 0);
    lemma_text_lt_total(ny, nz, 0);
    lemma_text_lt_total(nx, nz, 0);
    if text_lt(nx, ny) {
        lemma_text_lt_asymmetric(nx, ny, 0);
    }
    if text_lt(ny, nx) {
        lemma_text_lt_asymmetric(ny, nx, 0);
    }
    if text_lt(nx, ny) && text_lt(ny, nz) {
        lemma_text_lt_transitive(nx, ny, nz, 0);
    }
    if !text_lt(nx, ny) && !text_lt(ny, nx) {
        assert(nx =~= ny);
    }
    if !text_lt(ny, nz) && !text_lt(nz, ny) {
        assert(ny =~= nz);
    }
}

proof fn lemma_insert_point_facts(s: Seq<TreeNode>, r: Seq<usize>, x: usize, q: int)
    requires
        0 <= q <= r.len(),
    ensures
        forall|k: int| q <= k < insert_point(s, r, x, q) ==> !pos_before(s, x, #[trigger] r[k]),
        insert_point(s, r, x, q) < r.len() ==> pos_before(s, x, r[insert_point(s, r, x, q)]),
    decreases r.len() - q,
{
    if q < r.len() && !pos_before(s, x, r[q]) {
        lemma_insert_point_facts(s, r, x, q + 1);
    }
}

proof fn lemma_insert_sorted(s: Seq<TreeNode>, r: Seq<usize>, x: usize)
    requires
        in_display_order(s, r),
        forall|k: int| 0 <= k < r.len() ==> #[trigger] r[k] < s.len() && r[k] != x,
        x < s.len(),
    ensures
        in_display_order(s, r.insert(insert_point(s, r, x, 0), x)),
{
    let q = insert_point(s, r, x, 0);
    lemma_insert_point_range(s, r, x, 0);
    lemma_insert_point_facts(s, r, x, 0);
    let t = r.insert(q, x);
    assert forall|a: int, b: int| 0 <= a < b < t.len() implies pos_before(s, #[trigger] t[a], #[trigger] t[b]) by {
        if a < q && b < q {
            assert(t[a] == r[a] && t[b] == r[b]);
        } else if a < q && b == q {
            assert(t[a] == r[a] && t[b] == x);
            lemma_pos_order(s, r[a], x, x);
        } else if a < q {
            assert(t[a] == r[a] && t[b] == r[b - 1]);
        } else if a == q {
            assert(t[a] == x && t[b] == r[b - 1]);
            if b - 1 > q {
                lemma_pos_order(s, x, r[q], r[b - 1]);
            }
        } else {
            assert(t[a] == r[a - 1] && t[b] == r[b - 1]);
        }
    }
}

proof fn lemma_sort_group_sorted(s: Seq<TreeNode>, g: Seq<usize>)
    requires
        g.no_duplicates(),
        forall|k: int| 0 <= k < g.len() ==> #[trigger] g[k] < s.len(),
    ensures
        in_display_order(s, sort_group(s, g)),
    decreases g.len(),
{
    if g.len() > 0 {
        let u = g.drop_last();
        assert(u.no_duplicates()) by {
            assert forall|a: int, b: int| 0 <= a < b < u.len() implies u[a] != u[b] by {
                assert(g[a] == u[a] && g[b] == u[b]);
            }
        }
        lemma_sort_group_sorted(s, u);
        lemma_sort_group_members(s, u);
        let r = sort_group(s, u);
        assert forall|k: int| 0 <= k < r.len() implies #[trigger] r[k] < s.len() && r[k] != g.last() by {
            assert(u.contains(r[k]));
            let m = u.index_of(r[k]);
            assert(g[m] == u[m]);
            assert(g[g.len() - 1] == g.last());
        }
        lemma_insert_sorted(s, r, g.last());
    }
}

proof fn lemma_visible_group_increasing(s: Seq<TreeNode>, p: usize, n: int)
    requires
        0 <= n <= s.len() < usize::MAX,
    ensures
        forall|a: int, b: int|
            0 <= a < b < visible_group(s, p, n).len() ==> #[trigger] visible_group(s, p, n)[a] < #[trigger] visible_group(s, p, n)[b],
    decreases n,
{
    if n > 0 {
        lemma_visible_group_increasing(s, p, n - 1);
        lemma_visible_group_members(s, p, n - 1);
        let g = visible_group(s, p, n - 1);
        if s[n - 1].visible && s[n - 1].parent == p {
            let h = g.push((n - 1) as usize);
            assert forall|a: int, b: int| 0 <= a < b < h.len() implies #[trigger] h[a] < #[trigger] h[b] by {
                assert(h[a] == g[a]);
                if b < g.len() {
                    assert(h[b] == g[b]);
                }
            }
        }
    }
}

/// Siblings are displayed directories first, and by name within each kind.
pub proof fn lemma_siblings_in_display_order(t: &FlatTree, p: usize)
    requires
        t.wf(),
    ensures
        forall|a: int, b: int|
            0 <= a < b < sorted_group(t.nodes(), p).len() ==> {
                let x = t.nodes()[#[trigger] sorted_group(t.nodes(), p)[a] as int];
                let y = t.nodes()[#[trigger] sorted_group(t.nodes(), p)[b] as int];
                &&& x.file_entry.is_dir || !y.file_entry.is_dir
                &&& x.file_entry.is_dir == y.file_entry.is_dir ==> !text_lt(
                    y.file_entry.name@,
                    x.file_entry.name@,
                )
            },
{
    let s = t.nodes();
    let g = visible_group(s, p, s.len() as int);
    lemma_visible_group_increasing(s, p, s.len() as int);
    lemma_visible_group_members(s, p, s.len() as int);
    assert(g.no_duplicates()) by {
        assert forall|a: int, b: int| 0 <= a < b < g.len() implies g[a] != g[b] by {
            assert(g[a] < g[b]);
        }
    }
    lemma_sort_group_sorted(s, g);
    lemma_sorted_group_members(s, p);
    let r = sorted_group(s, p);
    assert forall|a: int, b: int| 0 <= a < b < r.len() implies {
        let x = s[#[trigger] r[a] as int];
        let y = s[#[trigger] r[b] as int];
        &&& x.file_entry.is_dir || !y.file_entry.is_dir
        &&& x.file_entry.is_dir == y.file_entry.is_dir ==> !text_lt(y.file_entry.name@, x.file_entry.name@)
    } by {
        assert(pos_before(s, r[a], r[b]));
        lemma_pos_order(s, r[a], r[b], r[b]);
        lemma_text_lt_irreflexive(s[r[a] as int].file_entry.name@, 0);
        if text_lt(s[r[b] as int].file_entry.name@, s[r[a] as int].file_entry.name@) {
            lemma_text_lt_asymmetric(s[r[b] as int].file_entry.name@, s[r[a] as int].file_entry.name@, 0);
        }
    }
}

/// Each node of `out` lies below the node with id `x`, and is deeper than `d`.
pub open spec fn all_below(s: Seq<TreeNode>, ix: Map<usize, usize>, out: Seq<usize>, x: usize, d: int) -> bool {
    forall|k: int| 0 <= k < out.len() ==> #[trigger] out[k] < s.len() && below(s, ix, out[k] as int, x)
        && s[out[k] as int].depth > d
}

proof fn lemma_below_deeper_all(
    s: Seq<TreeNode>,
    ix: Map<usize, usize>,
    next: usize,
    out: Seq<usize>,
    xi: int,
    k: int,
)
    requires
        index_exact(s, ix),
        links_ok(s, ix, next),
        0 <= xi < s.len(),
        displayed_closed(s, out, s[xi].id),
        0 <= k < out.len(),
    ensures
        below(s, ix, out[k] as int, s[xi].id),
        s[out[k] as int].depth > s[xi].depth,
    decreases s[out[k] as int].depth,
{
    let e = out[k] as int;
    assert(out[k] < s.len());
    if s[e].parent == s[xi].id {
        assert(ix.contains_key(s[xi].id));
        assert(s[e].parent != ROOT_PARENT);
    } else {
        let m = choose|m: int|
            0 <= m < out.len() && out[m] < s.len() && s[out[m] as int].id == s[e].parent && s[out[m] as int].expanded;
        assert(ix.contains_key(s[out[m] as int].id));
        assert(s[e].parent != ROOT_PARENT) by {
            if s[e].parent == ROOT_PARENT {
                assert(ix.contains_key(s[xi].id));
            }
        }
        lemma_below_deeper_all(s, ix, next, out, xi, m);
    }
}

/// Two ancestors of one node at the same depth are the same node.
proof fn lemma_one_ancestor_per_depth(
    s: Seq<TreeNode>,
    ix: Map<usize, usize>,
    next: usize,
    i: int,
    a: usize,
    b: usize,
)
    requires
        index_exact(s, ix),
        links_ok(s, ix, next),
        below(s, ix, i, a),
        below(s, ix, i, b),
        ix.contains_key(a),
        ix.contains_key(b),
        s[ix[a] as int].depth == s[ix[b] as int].depth,
    ensures
        a == b,
    decreases s[i].depth,
{
    let p = s[i].parent;
    assert(ix.contains_key(p));
    let j = ix[p] as int;
    if p == a && p != b {
        crate::removal::lemma_below_deeper(s, ix, next, j, b);
    } else if p == b && p != a {
        crate::removal::lemma_below_deeper(s, ix, next, j, a);
    } else if p != a && p != b {
        lemma_one_ancestor_per_depth(s, ix, next, j, a, b);
    }
}

/// Nodes with the same parent lie at the same depth.
proof fn lemma_same_parent_same_depth(s: Seq<TreeNode>, ix: Map<usize, usize>, next: usize, i: int, j: int)
    requires
        index_exact(s, ix),
        links_ok(s, ix, next),
        0 <= i < s.len(),
        0 <= j < s.len(),
        s[i].parent == s[j].parent,
    ensures
        s[i].depth == s[j].depth,
{
    if s[i].parent != ROOT_PARENT {
        assert(ix.contains_key(s[i].parent));
    }
}

/// Display order holds between any two nodes of `out` with the same parent.
pub open spec fn siblings_ordered(s: Seq<TreeNode>, out: Seq<usize>) -> bool {
    forall|a: int, b: int|
        0 <= a < b < out.len() && s[out[a] as int].parent == s[out[b] as int].parent ==> pos_before(
            s,
            #[trigger] out[a],
            #[trigger] out[b],
        )
}

proof fn lemma_projection_ordered(s: Seq<TreeNode>, ix: Map<usize, usize>, next: usize, p: usize, fuel: nat)
    requires
        index_exact(s, ix),
        links_ok(s, ix, next),
        s.len() < usize::MAX,
    ensures
        siblings_ordered(s, projection(s, p, fuel)),
    decreases fuel, 0nat,
{
    if fuel > 0 {
        let g = sorted_group(s, p);
        let vg = visible_group(s, p, s.len() as int);
        lemma_visible_group_increasing(s, p, s.len() as int);
        lemma_visible_group_members(s, p, s.len() as int);
        assert(vg.no_duplicates()) by {
            assert forall|a: int, b: int| 0 <= a < b < vg.len() implies vg[a] != vg[b] by {
                assert(vg[a] < vg[b]);
            }
        }
        lemma_sort_group_sorted(s, vg);
        lemma_sorted_group_members(s, p);
        lemma_projection_of_ordered(s, ix, next, g, (fuel - 1) as nat, p);
    }
}

proof fn lemma_projection_of_ordered(
    s: Seq<TreeNode>,
    ix: Map<usize, usize>,
    next: usize,
    g: Seq<usize>,
    fuel: nat,
    p: usize,
)
    requires
        index_exact(s, ix),
        links_ok(s, ix, next),
        s.len() < usize::MAX,
        in_display_order(s, g),
        forall|k: int| 0 <= k < g.len() ==> #[trigger] g[k] < s.len() && s[g[k] as int].visible && s[g[k] as int].parent == p,
    ensures
        siblings_ordered(s, projection_of(s, g, fuel)),
        forall|k: int|
            0 <= k < projection_of(s, g, fuel).len() ==> g.contains(#[trigger] projection_of(s, g, fuel)[k]) || (
            projection_of(s, g, fuel)[k] < s.len() && exists|m: int|
                0 <= m < g.len() && below(s, ix, projection_of(s, g, fuel)[k] as int, s[g[m] as int].id)
                    && s[projection_of(s, g, fuel)[k] as int].depth > s[g[m] as int].depth),
    decreases fuel, g.len() + 1,
{
    if g.len() > 0 {
        let i = g[0];
        let xi = i as int;
        let bl = if s[xi].expanded {
            projection(s, s[xi].id, fuel)
        } else {
            seq![]
        };
        if s[xi].expanded {
            lemma_projection_ordered(s, ix, next, s[xi].id, fuel);
            lemma_projection_closed(s, s[xi].id, fuel);
        }
        let g1 = g.drop_first();
        assert(in_display_order(s, g1)) by {
            assert forall|a: int, b: int| 0 <= a < b < g1.len() implies pos_before(s, #[trigger] g1[a], #[trigger] g1[b]) by {
                assert(g1[a] == g[a + 1] && g1[b] == g[b + 1]);
            }
        }
        assert forall|k: int| 0 <= k < g1.len() implies #[trigger] g1[k] < s.len() && s[g1[k] as int].visible
            && s[g1[k] as int].parent == p by {
            assert(g1[k] == g[k + 1]);
        }
        lemma_projection_of_ordered(s, ix, next, g1, fuel, p);
        let rest = projection_of(s, g1, fuel);
        let out = projection_of(s, g, fuel);
        assert(out == seq![i] + bl + rest);
        let nb = bl.len() as int;
        // facts on the parts
        assert forall|k: int| 0 <= k < bl.len() implies #[trigger] bl[k] < s.len() && below(s, ix, bl[k] as int, s[xi].id)
            && s[bl[k] as int].depth > s[xi].depth by {
            lemma_below_deeper_all(s, ix, next, bl, xi, k);
        }
        assert(all_below(s, ix, bl, s[xi].id, s[xi].depth as int));
        assert forall|k: int| 0 <= k < out.len() implies g.contains(#[trigger] out[k]) || (out[k] < s.len()
            && exists|m: int| 0 <= m < g.len() && below(s, ix, out[k] as int, s[g[m] as int].id)
                && s[out[k] as int].depth > s[g[m] as int].depth) by {
            if k == 0 {
                assert(g[0] == out[0]);
            } else if k < 1 + nb {
                assert(out[k] == bl[k - 1]);
                assert(below(s, ix, out[k] as int, s[g[0] as int].id));
            } else {
                assert(out[k] == rest[k - 1 - nb]);
                if g1.contains(rest[k - 1 - nb]) {
                    let m = g1.index_of(rest[k - 1 - nb]);
                    assert(g[m + 1] == out[k]);
                } else {
                    let m = choose|m: int| 0 <= m < g1.len() && below(s, ix, rest[k - 1 - nb] as int, s[g1[m] as int].id)
                        && s[rest[k - 1 - nb] as int].depth > s[g1[m] as int].depth;
                    assert(g1[m] == g[m + 1]);
                }
            }
        }
        assert forall|a: int, b: int|
            0 <= a < b < out.len() && s[out[a] as int].parent == s[out[b] as int].parent implies pos_before(
                s,
                #[trigger] out[a],
                #[trigger] out[b],
            ) by {
            lemma_ordered_pair(s, ix, next, g, fuel, p, bl, a, b);
        }
    }
}

proof fn lemma_ordered_pair(
    s: Seq<TreeNode>,
    ix: Map<usize, usize>,
    next: usize,
    g: Seq<usize>,
    fuel: nat,
    p: usize,
    bl: Seq<usize>,
    a: int,
    b: int,
)
    requires
        index_exact(s, ix),
        links_ok(s, ix, next),
        s.len() < usize::MAX,
        in_display_order(s, g),
        g.len() > 0,
        forall|k: int| 0 <= k < g.len() ==> #[trigger] g[k] < s.len() && s[g[k] as int].visible && s[g[k] as int].parent == p,
        bl == (if s[g[0] as int].expanded {
            projection(s, s[g[0] as int].id, fuel)
        } else {
            seq![]
        }),
        siblings_ordered(s, bl),
        all_below(s, ix, bl, s[g[0] as int].id, s[g[0] as int].depth as int),
        siblings_ordered(s, projection_of(s, g.drop_first(), fuel)),
        forall|k: int|
            0 <= k < projection_of(s, g.drop_first(), fuel).len() ==> g.drop_first().contains(#[trigger] projection_of(s, g.drop_first(), fuel)[k]) || (
            projection_of(s, g.drop_first(), fuel)[k] < s.len() && exists|m: int|
                0 <= m < g.drop_first().len() && below(s, ix, projection_of(s, g.drop_first(), fuel)[k] as int, s[g.drop_first()[m] as int].id)
                    && s[projection_of(s, g.drop_first(), fuel)[k] as int].depth > s[g.drop_first()[m] as int].depth),
        0 <= a < b < projection_of(s, g, fuel).len(),
        s[projection_of(s, g, fuel)[a] as int].parent == s[projection_of(s, g, fuel)[b] as int].parent,
    ensures
        pos_before(s, projection_of(s, g, fuel)[a], projection_of(s, g, fuel)[b]),
{
    let i = g[0];
    let xi = i as int;
    let g1 = g.drop_first();
    let rest = projection_of(s, g1, fuel);
    let out = projection_of(s, g, fuel);
    assert(out == seq![i] + bl + rest);
    let nb = bl.len() as int;
    let (ea, eb) = (out[a], out[b]);
    assert(ea < s.len() && eb < s.len()) by {
        if a == 0 {} else if a < 1 + nb { assert(ea == bl[a - 1]); } else { assert(ea == rest[a - 1 - nb]); }
        if b < 1 + nb { assert(eb == bl[b - 1]); } else { assert(eb == rest[b - 1 - nb]); }
    }
    lemma_same_parent_same_depth(s, ix, next, ea as int, eb as int);
    let d = s[xi].depth;
    // every member of g lies at depth d
    assert forall|m: int| 0 <= m < g.len() implies s[#[trigger] g[m] as int].depth == d by {
        lemma_same_parent_same_depth(s, ix, next, g[m] as int, xi);
    }
    if a == 0 {
        if b < 1 + nb {
            assert(eb == bl[b - 1]);
        } else {
            assert(eb == rest[b - 1 - nb]);
            if g1.contains(eb) {
                let m = g1.index_of(eb);
                assert(g[m + 1] == eb);
                assert(pos_before(s, g[0], g[m + 1]));
            } else {
                let m = choose|m: int| 0 <= m < g1.len() && below(s, ix, rest[b - 1 - nb] as int, s[g1[m] as int].id)
                    && s[rest[b - 1 - nb] as int].depth > s[g1[m] as int].depth;
                assert(g1[m] == g[m + 1]);
            }
        }
    } else if a < 1 + nb {
        assert(ea == bl[a - 1]);
        if b < 1 + nb {
            assert(eb == bl[b - 1]);
            assert(s[bl[a - 1] as int].parent == s[bl[b - 1] as int].parent);
        } else {
            assert(eb == rest[b - 1 - nb]);
            if g1.contains(eb) {
                let m = g1.index_of(eb);
                assert(g[m + 1] == eb);
            } else {
                let m = choose|m: int| 0 <= m < g1.len() && below(s, ix, rest[b - 1 - nb] as int, s[g1[m] as int].id)
                    && s[rest[b - 1 - nb] as int].depth > s[g1[m] as int].depth;
                assert(g1[m] == g[m + 1]);
                // both lie below their shared parent's ancestors at depth d
                let q = s[ea as int].parent;
                assert(q != ROOT_PARENT);
                assert(ix.contains_key(q));
                let qi = ix[q] as int;
                assert(ix.contains_key(s[xi].id));
                assert(ix.contains_key(s[g[m + 1] as int].id));
                if q == s[xi].id {
                    let gm = g[m + 1];
                    assert(g[0] != gm) by {
                        assert(pos_before(s, g[0], gm));
                        lemma_pos_order(s, g[0], gm, gm);
                    }
                    assert(s[xi].id != s[gm as int].id) by {
                        assert(ix.contains_key(s[xi].id));
                        assert(ix.contains_key(s[gm as int].id));
                    }
                    assert(below(s, ix, eb as int, s[gm as int].id));
                    assert(ix[q] == xi);
                    assert(below(s, ix, xi, s[gm as int].id));
                    crate::removal::lemma_below_deeper(s, ix, next, xi, s[gm as int].id);
                    assert(ix[s[gm as int].id] == gm);
                } else {
                    assert(below(s, ix, ea as int, s[xi].id));
                    assert(below(s, ix, qi, s[xi].id));
                    if q == s[g[m + 1] as int].id {
                        crate::removal::lemma_below_deeper(s, ix, next, qi, s[xi].id);
                        assert(s[ix[s[g[m + 1] as int].id] as int].id == s[g[m + 1] as int].id);
                    } else {
                        assert(below(s, ix, qi, s[g[m + 1] as int].id));
                        lemma_one_ancestor_per_depth(s, ix, next, qi, s[xi].id, s[g[m + 1] as int].id);
                        assert(g[0] != g[m + 1]) by {
                            assert(pos_before(s, g[0], g[m + 1]));
                            lemma_pos_order(s, g[0], g[m + 1], g[m + 1]);
                        }
                        assert(ix.contains_key(s[g[0] as int].id));
                    }
                }
            }
        }
    } else {
        assert(ea == rest[a - 1 - nb]);
        assert(eb == rest[b - 1 - nb]);
        assert(s[rest[a - 1 - nb] as int].parent == s[rest[b - 1 - nb] as int].parent);
    }
}

/// Among the nodes on display, any two with the same parent are in display
/// order: a directory before a file, and by name within each kind.
pub proof fn lemma_displayed_siblings_ordered(t: &FlatTree)
    requires
        t.wf(),
    ensures
        forall|a: int, b: int|
            0 <= a < b < visible_order(t.nodes()).len() && t.nodes()[visible_order(t.nodes())[a] as int].parent
                == t.nodes()[visible_order(t.nodes())[b] as int].parent ==> {
                let x = t.nodes()[#[trigger] visible_order(t.nodes())[a] as int];
                let y = t.nodes()[#[trigger] visible_order(t.nodes())[b] as int];
                &&& x.file_entry.is_dir || !y.file_entry.is_dir
                &&& x.file_entry.is_dir == y.file_entry.is_dir ==> !text_lt(
                    y.file_entry.name@,
                    x.file_entry.name@,
                )
            },
{
    let s = t.nodes();
    let vo = visible_order(s);
    lemma_projection_ordered(s, t.index(), t.next_id(), ROOT_PARENT, s.len() as nat);
    lemma_projection_closed(s, ROOT_PARENT, s.len() as nat);
    assert forall|a: int, b: int|
        0 <= a < b < vo.len() && s[vo[a] as int].parent == s[vo[b] as int].parent implies {
            let x = s[#[trigger] vo[a] as int];
            let y = s[#[trigger] vo[b] as int];
            &&& x.file_entry.is_dir || !y.file_entry.is_dir
            &&& x.file_entry.is_dir == y.file_entry.is_dir ==> !text_lt(y.file_entry.name@, x.file_entry.name@)
        } by {
        assert(pos_before(s, vo[a], vo[b]));
        assert(vo[a] < s.len() && vo[b] < s.len());
        lemma_pos_order(s, vo[a], vo[b], vo[b]);
        lemma_text_lt_irreflexive(s[vo[a] as int].file_entry.name@, 0);
        if text_lt(s[vo[b] as int].file_entry.name@, s[vo[a] as int].file_entry.name@) {
            lemma_text_lt_asymmetric(s[vo[b] as int].file_entry.name@, s[vo[a] as int].file_entry.name@, 0);
        }
    }
}

/// The position of the `j`-th ancestor of the node at position `i`.
pub open spec fn ancestor_at(s: Seq<TreeNode>, ix: Map<usize, usize>, i: int, j: nat) -> int
    decreases j,
{
    if j == 0 {
        i
    } else {
        ancestor_at(s, ix, ix[s[i].parent] as int, (j - 1) as nat)
    }
}

proof fn lemma_ancestor_at(s: Seq<TreeNode>, ix: Map<usize, usize>, next: usize, i: int, j: nat)
    requires
        index_exact(s, ix),
        links_ok(s, ix, next),
        0 <= i < s.len(),
        j <= s[i].depth,
    ensures
        0 <= ancestor_at(s, ix, i, j) < s.len(),
        s[ancestor_at(s, ix, i, j)].depth == s[i].depth - j,
    decreases j,
{
    if j > 0 {
        assert(s[i].parent != ROOT_PARENT);
        assert(ix.contains_key(s[i].parent));
        lemma_ancestor_at(s, ix, next, ix[s[i].parent] as int, (j - 1) as nat);
    }
}

/// A node's depth is below the number of nodes: its ancestors are distinct.
proof fn lemma_depth_below_len(s: Seq<TreeNode>, ix: Map<usize, usize>, next: usize, i: int)
    requires
        index_exact(s, ix),
        links_ok(s, ix, next),
        0 <= i < s.len(),
    ensures
        s[i].depth < s.len(),
{
    let n = s[i].depth + 1;
    let f = |j: int| ancestor_at(s, ix, i, j as nat);
    assert forall|j: int| 0 <= j < n implies 0 <= #[trigger] f(j) < s.len() by {
        lemma_ancestor_at(s, ix, next, i, j as nat);
    }
    assert forall|a: int, b: int| 0 <= a < n && 0 <= b < n && a != b implies #[trigger] f(a) != #[trigger] f(b) by {
        lemma_ancestor_at(s, ix, next, i, a as nat);
        lemma_ancestor_at(s, ix, next, i, b as nat);
    }
    crate::flat_tree::lemma_injection_bound(n, s.len() as int, f);
}

proof fn lemma_sort_group_keeps(s: Seq<TreeNode>, g: Seq<usize>, e: usize)
    requires
        g.contains(e),
    ensures
        sort_group(s, g).contains(e),
    decreases g.len(),
{
    let u = g.drop_last();
    let r = sort_group(s, u);
    let q = insert_point(s, r, g.last(), 0);
    lemma_insert_point_range(s, r, g.last(), 0);
    if e == g.last() {
        assert(r.insert(q, g.last())[q] == e);
    } else {
        let m = g.index_of(e);
        assert(u[m] == e);
        lemma_sort_group_keeps(s, u, e);
        let k = r.index_of(e);
        if k < q {
            assert(r.insert(q, g.last())[k] == e);
        } else {
            assert(r.insert(q, g.last())[k + 1] == e);
        }
    }
}

proof fn lemma_group_members_shown(s: Seq<TreeNode>, g: Seq<usize>, fuel: nat, e: usize)
    requires
        g.contains(e),
    ensures
        projection_of(s, g, fuel).contains(e),
    decreases g.len(),
{
    let out = projection_of(s, g, fuel);
    if g[0] == e {
        assert(out[0] == e);
    } else {
        let m = g.index_of(e);
        assert(g.drop_first()[m - 1] == e);
        lemma_group_members_shown(s, g.drop_first(), fuel, e);
        let rest = projection_of(s, g.drop_first(), fuel);
        let bl = out.len() - rest.len() - 1;
        let k = rest.index_of(e);
        assert(out[1 + bl + k] == e);
    }
}

proof fn lemma_children_shown(
    s: Seq<TreeNode>,
    ix: Map<usize, usize>,
    next: usize,
    p: usize,
    fuel: nat,
    d: int,
    k: int,
    c: int,
)
    requires
        index_exact(s, ix),
        links_ok(s, ix, next),
        s.len() < usize::MAX,
        forall|i: int| 0 <= i < s.len() && #[trigger] s[i].parent == p ==> s[i].depth == d,
        0 <= k < projection(s, p, fuel).len(),
        s[projection(s, p, fuel)[k] as int].expanded,
        fuel >= s[projection(s, p, fuel)[k] as int].depth - d + 2,
        0 <= c < s.len(),
        s[c].visible,
        s[c].parent == s[projection(s, p, fuel)[k] as int].id,
    ensures
        projection(s, p, fuel).contains(c as usize),
    decreases fuel, 0nat,
{
    lemma_sorted_group_members(s, p);
    lemma_children_shown_of(s, ix, next, sorted_group(s, p), (fuel - 1) as nat, p, d, k, c);
}

proof fn lemma_children_shown_of(
    s: Seq<TreeNode>,
    ix: Map<usize, usize>,
    next: usize,
    g: Seq<usize>,
    fuel: nat,
    p: usize,
    d: int,
    k: int,
    c: int,
)
    requires
        index_exact(s, ix),
        links_ok(s, ix, next),
        s.len() < usize::MAX,
        forall|i: int| 0 <= i < s.len() && #[trigger] s[i].parent == p ==> s[i].depth == d,
        forall|m: int| 0 <= m < g.len() ==> #[trigger] g[m] < s.len() && s[g[m] as int].parent == p,
        0 <= k < projection_of(s, g, fuel).len(),
        s[projection_of(s, g, fuel)[k] as int].expanded,
        fuel + 1 >= s[projection_of(s, g, fuel)[k] as int].depth - d + 2,
        0 <= c < s.len(),
        s[c].visible,
        s[c].parent == s[projection_of(s, g, fuel)[k] as int].id,
    ensures
        projection_of(s, g, fuel).contains(c as usize),
    decreases fuel, g.len() + 1,
{
    let i = g[0];
    let xi = i as int;
    let bl = if s[xi].expanded { projection(s, s[xi].id, fuel) } else { seq![] };
    let g1 = g.drop_first();
    let rest = projection_of(s, g1, fuel);
    let out = projection_of(s, g, fuel);
    assert(out == seq![i] + bl + rest);
    let nb = bl.len() as int;
    assert(s[xi].depth == d);
    assert forall|m: int| 0 <= m < g1.len() implies #[trigger] g1[m] < s.len() && s[g1[m] as int].parent == p by {
        assert(g1[m] == g[m + 1]);
    }
    if k == 0 {
        // the child sits in the group below the first node
        assert(fuel >= 1);
        let vg = visible_group(s, s[xi].id, s.len() as int);
        lemma_visible_group_has(s, s[xi].id, s.len() as int, c);
        lemma_sort_group_keeps(s, vg, c as usize);
        lemma_sorted_group_members(s, s[xi].id);
        lemma_group_members_shown(s, sorted_group(s, s[xi].id), (fuel - 1) as nat, c as usize);
        assert(bl == projection(s, s[xi].id, fuel));
        let j = bl.index_of(c as usize);
        assert(out[1 + j] == c as usize);
    } else if k < 1 + nb {
        assert(out[k] == bl[k - 1]);
        assert(s[xi].expanded);
        assert forall|q: int| 0 <= q < s.len() && #[trigger] s[q].parent == s[xi].id implies s[q].depth == d + 1 by {
            assert(ix.contains_key(s[xi].id));
        }
        lemma_children_shown(s, ix, next, s[xi].id, fuel, d + 1, k - 1, c);
        let j = bl.index_of(c as usize);
        assert(out[1 + j] == c as usize);
    } else {
        assert(out[k] == rest[k - 1 - nb]);
        lemma_children_shown_of(s, ix, next, g1, fuel, p, d, k - 1 - nb, c);
        let j = rest.index_of(c as usize);
        assert(out[1 + nb + j] == c as usize);
    }
}

proof fn lemma_visible_group_has(s: Seq<TreeNode>, p: usize, n: int, c: int)
    requires
        0 <= c < n <= s.len() < usize::MAX,
        s[c].visible,
        s[c].parent == p,
    ensures
        visible_group(s, p, n).contains(c as usize),
    decreases n,
{
    let g = visible_group(s, p, n - 1);
    if c == n - 1 {
        assert(g.push(c as usize)[g.len() as int] == c as usize);
    } else {
        lemma_visible_group_has(s, p, n - 1, c);
        let j = g.index_of(c as usize);
        if s[n - 1].visible && s[n - 1].parent == p {
            assert(g.push((n - 1) as usize)[j] == c as usize);
        }
    }
}

impl FlatTree {
    /// A node on display that is expanded has every visible child on display:
    /// expanding a node brings its direct children back.
    pub proof fn lemma_expanded_shows_children(&self, k: int, c: int)
        requires
            self.wf(),
            0 <= k < visible_order(self.nodes()).len(),
            self.nodes()[visible_order(self.nodes())[k] as int].expanded,
            0 <= c < self.nodes().len(),
            self.nodes()[c].visible,
            self.nodes()[c].parent == self.nodes()[visible_order(self.nodes())[k] as int].id,
        ensures
            visible_order(self.nodes()).contains(c as usize),
    {
        let s = self.nodes();
        let ix = self.index();
        lemma_projection_closed(s, ROOT_PARENT, s.len() as nat);
        let x = visible_order(s)[k] as int;
        assert(0 <= x < s.len());
        assert(ix.contains_key(s[x].id));
        assert(s[c].depth == s[x].depth + 1) by {
            assert(s[c].parent != ROOT_PARENT);
        }
        lemma_depth_below_len(s, ix, self.next_id(), c);
        assert forall|i: int| 0 <= i < s.len() && #[trigger] s[i].parent == ROOT_PARENT implies s[i].depth == 0 by {}
        lemma_children_shown(s, ix, self.next_id(), ROOT_PARENT, s.len() as nat, 0, k, c);
    }
}

/// Whether the node at position `i` is displayed before the one at `j`.
fn pos_before_exec(elements: &Vec<TreeNode>, i: usize, j: usize) -> (r: bool)
    requires
        i < elements@.len(),
        j < elements@.len(),
    ensures
        r == pos_before(elements@, i, j),
{
    if elements[i].is_before(&elements[j]) {
        true
    } else {
        !elements[j].is_before(&elements[i]) && i < j
    }
}

} // verus!
