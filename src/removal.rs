//! What removing a node takes with it, and the proof that the tree left
//! behind is well formed.
use vstd::prelude::*;
use crate::flat_tree::{TreeNode, below, index_exact, links_ok, same_but_children, ROOT_PARENT};

verus! {

/// The node at position `i` goes when the node with id `a` is removed: it is
/// that node or lies below it.
pub open spec fn goes_with(s: Seq<TreeNode>, ix: Map<usize, usize>, i: int, a: usize) -> bool {
    s[i].id == a || below(s, ix, i, a)
}

/// The positions, in order, among the first `n`, of the nodes that stay when
/// the node with id `a` is removed.
pub open spec fn kept_positions(s: Seq<TreeNode>, ix: Map<usize, usize>, a: usize, n: int) -> Seq<int>
    decreases n,
{
    if n <= 0 {
        seq![]
    } else {
        let r = kept_positions(s, ix, a, n - 1);
        if goes_with(s, ix, n - 1, a) {
            r
        } else {
            r.push(n - 1)
        }
    }
}

/// `v` without the occurrences of `x`.
pub open spec fn without(v: Seq<usize>, x: usize) -> Seq<usize>
    decreases v.len(),
{
    if v.len() == 0 {
        v
    } else {
        let r = without(v.drop_last(), x);
        if v.last() == x {
            r
        } else {
            r.push(v.last())
        }
    }
}

pub proof fn lemma_without(v: Seq<usize>, x: usize)
    ensures
        forall|y: usize| #[trigger] without(v, x).contains(y) <==> (v.contains(y) && y != x),
        v.no_duplicates() ==> without(v, x).no_duplicates(),
        !v.contains(x) ==> without(v, x) == v,
    decreases v.len(),
{
    if v.len() > 0 {
        let u = v.drop_last();
        lemma_without(u, x);
        let r = without(u, x);
        assert(v =~= u.push(v.last()));
        lemma_push_contains(u, v.last());
        lemma_push_contains(r, v.last());
        if v.no_duplicates() {
            assert(u.no_duplicates()) by {
                assert forall|a: int, b: int| 0 <= a < b < u.len() implies u[a] != u[b] by {
                    assert(v[a] == u[a] && v[b] == u[b]);
                }
            }
            if v.last() != x {
                assert(!u.contains(v.last())) by {
                    if u.contains(v.last()) {
                        let m = u.index_of(v.last());
                        assert(v[m] == v[v.len() - 1]);
                    }
                }
                assert(!r.contains(v.last()));
                assert forall|a: int, b: int| 0 <= a < b < r.len() + 1 implies r.push(v.last())[a] != r.push(v.last())[b] by {
                    if b == r.len() {
                        assert(r.push(v.last())[a] == r[a]);
                        assert(r.contains(r[a]));
                    } else {
                        assert(r.push(v.last())[a] == r[a]);
                        assert(r.push(v.last())[b] == r[b]);
                    }
                }
            }
        }
        if !v.contains(x) {
            assert(!u.contains(x)) by {
                if u.contains(x) {
                    let m = u.index_of(x);
                    assert(v[m] == x);
                }
            }
            assert(v.last() != x) by {
                assert(v[v.len() - 1] == v.last());
            }
            assert(v =~= u.push(v.last()));
        }
    }
}

proof fn lemma_push_contains(u: Seq<usize>, z: usize)
    ensures
        forall|y: usize| #[trigger] u.push(z).contains(y) <==> (u.contains(y) || y == z),
{
    assert forall|y: usize| #[trigger] u.push(z).contains(y) <==> (u.contains(y) || y == z) by {
        if u.contains(y) {
            let m = u.index_of(y);
            assert(u.push(z)[m] == y);
        }
        if y == z {
            assert(u.push(z)[u.len() as int] == y);
        }
        if u.push(z).contains(y) {
            let m = u.push(z).index_of(y);
            if m < u.len() {
                assert(u[m] == y);
            }
        }
    }
}

pub proof fn lemma_kept_positions(s: Seq<TreeNode>, ix: Map<usize, usize>, a: usize, n: int)
    requires
        0 <= n <= s.len(),
    ensures
        forall|j: int, k: int|
            0 <= j < k < kept_positions(s, ix, a, n).len() ==> kept_positions(s, ix, a, n)[j]
                < kept_positions(s, ix, a, n)[k],
        forall|j: int|
            0 <= j < kept_positions(s, ix, a, n).len() ==> 0 <= #[trigger] kept_positions(s, ix, a, n)[j] < n
                && !goes_with(s, ix, kept_positions(s, ix, a, n)[j], a),
        forall|i: int|
            0 <= i < n && !goes_with(s, ix, i, a) ==> #[trigger] kept_positions(s, ix, a, n).contains(i),
    decreases n,
{
    if n > 0 {
        lemma_kept_positions(s, ix, a, n - 1);
        let r = kept_positions(s, ix, a, n - 1);
        if !goes_with(s, ix, n - 1, a) {
            assert forall|i: int| 0 <= i < n && !goes_with(s, ix, i, a) implies #[trigger] kept_positions(s, ix, a, n).contains(i) by {
                if i < n - 1 {
                    assert(r.contains(i));
                    let m = r.index_of(i);
                    assert(r.push(n - 1)[m] == i);
                } else {
                    assert(r.push(n - 1)[r.len() as int] == i);
                }
            }
        }
    }
}

/// Below a node means deeper than it.
pub proof fn lemma_below_deeper(s: Seq<TreeNode>, ix: Map<usize, usize>, next: usize, i: int, a: usize)
    requires
        index_exact(s, ix),
        links_ok(s, ix, next),
        below(s, ix, i, a),
    ensures
        ix.contains_key(a),
        s[ix[a] as int].depth < s[i].depth,
    decreases s[i].depth,
{
    let p = s[i].parent;
    assert(ix.contains_key(p));
    let j = ix[p] as int;
    if p != a {
        lemma_below_deeper(s, ix, next, j, a);
    }
}

/// The state that `remove` reaches: `t1` holds the kept nodes of `s` in order,
/// `ix2` indexes them, and `t` is `t1` with the removed id dropped from the
/// children of the removed node's parent, which sits at `jj`.
pub open spec fn removal_state(
    s: Seq<TreeNode>,
    ix: Map<usize, usize>,
    t1: Seq<TreeNode>,
    ix2: Map<usize, usize>,
    t: Seq<TreeNode>,
    kp: Seq<int>,
    x: int,
    jj: int,
    id: usize,
    next: usize,
) -> bool {
    &&& index_exact(s, ix)
    &&& links_ok(s, ix, next)
    &&& s.len() < next
    &&& 0 <= x < s.len()
    &&& s[x].id == id
    &&& kp == kept_positions(s, ix, id, s.len() as int)
    &&& t1.len() == kp.len()
    &&& forall|j: int| 0 <= j < kp.len() ==> #[trigger] t1[j] == s[kp[j]]
    &&& index_exact(t1, ix2)
    &&& t.len() == t1.len()
    &&& s[x].parent == ROOT_PARENT ==> jj == -1 && t == t1
    &&& s[x].parent != ROOT_PARENT ==> {
        &&& 0 <= jj < t1.len()
        &&& t1[jj].id == s[x].parent
        &&& t == t1.update(jj, TreeNode { children: t[jj].children, ..t1[jj] })
        &&& t[jj].children@ == without(t1[jj].children@, id)
    }
}

proof fn lemma_kept_located(
    s: Seq<TreeNode>,
    ix: Map<usize, usize>,
    t1: Seq<TreeNode>,
    ix2: Map<usize, usize>,
    t: Seq<TreeNode>,
    kp: Seq<int>,
    x: int,
    jj: int,
    id: usize,
    next: usize,
)
    requires
        removal_state(s, ix, t1, ix2, t, kp, x, jj, id, next),
    ensures
        forall|q: int|
            0 <= q < s.len() && !goes_with(s, ix, q, id) ==> ix2.contains_key(#[trigger] s[q].id)
                && 0 <= ix2[s[q].id] < kp.len() && kp[ix2[s[q].id] as int] == q,
        forall|i: int|
            0 <= i < s.len() && goes_with(s, ix, i, id) ==> !ix2.contains_key(#[trigger] s[i].id),
        forall|j: int| 0 <= j < t.len() ==> #[trigger] t[j].id == t1[j].id && t[j].depth == t1[j].depth
            && t[j].parent == t1[j].parent,
{
    lemma_kept_positions(s, ix, id, s.len() as int);
    assert forall|q: int| 0 <= q < s.len() && !goes_with(s, ix, q, id) implies ix2.contains_key(
        #[trigger] s[q].id) && 0 <= ix2[s[q].id] < kp.len() && kp[ix2[s[q].id] as int] == q by {
        assert(kp.contains(q));
        let m = kp.index_of(q);
        assert(t1[m] == s[q]);
        assert(ix2.contains_key(t1[m].id));
    }
    assert forall|i: int| 0 <= i < s.len() && goes_with(s, ix, i, id) implies !ix2.contains_key(
        #[trigger] s[i].id) by {
        if ix2.contains_key(s[i].id) {
            let m = ix2[s[i].id] as int;
            assert(t1[m] == s[kp[m]]);
            assert(ix.contains_key(s[kp[m]].id));
        }
    }
    assert forall|j: int| 0 <= j < t.len() implies #[trigger] t[j].id == t1[j].id && t[j].depth == t1[j].depth
        && t[j].parent == t1[j].parent by {
        if s[x].parent != ROOT_PARENT && j == jj {
        }
    }
}

proof fn lemma_kept_children(
    s: Seq<TreeNode>,
    ix: Map<usize, usize>,
    t1: Seq<TreeNode>,
    ix2: Map<usize, usize>,
    t: Seq<TreeNode>,
    kp: Seq<int>,
    x: int,
    jj: int,
    id: usize,
    next: usize,
)
    requires
        removal_state(s, ix, t1, ix2, t, kp, x, jj, id, next),
    ensures
        forall|j: int|
            0 <= j < kp.len() ==> {
                &&& same_but_children(#[trigger] t[j], s[kp[j]])
                &&& t[j].children@ == without(s[kp[j]].children@, id)
            },
{
    lemma_kept_positions(s, ix, id, s.len() as int);
    assert forall|j: int| 0 <= j < kp.len() implies {
        &&& same_but_children(#[trigger] t[j], s[kp[j]])
        &&& t[j].children@ == without(s[kp[j]].children@, id)
    } by {
        let q = kp[j];
        assert(t1[j] == s[q]);
        lemma_without(s[q].children@, id);
        if s[x].parent == ROOT_PARENT || j != jj {
            assert(t[j] == t1[j]);
            if s[q].children@.contains(id) {
                let k = s[q].children@.index_of(id);
                assert(ix.contains_key(s[q].children@[k]));
                assert(ix[id] == x);
                assert(s[x].parent == s[q].id);
                assert(t1[jj].id == s[q].id);
                assert(ix2.contains_key(t1[jj].id));
                assert(ix2.contains_key(t1[j].id));
            }
        }
    }
}

proof fn lemma_kept_links(
    s: Seq<TreeNode>,
    ix: Map<usize, usize>,
    t1: Seq<TreeNode>,
    ix2: Map<usize, usize>,
    t: Seq<TreeNode>,
    kp: Seq<int>,
    x: int,
    jj: int,
    id: usize,
    next: usize,
)
    requires
        removal_state(s, ix, t1, ix2, t, kp, x, jj, id, next),
        index_exact(t, ix2),
        forall|q: int|
            0 <= q < s.len() && !goes_with(s, ix, q, id) ==> ix2.contains_key(#[trigger] s[q].id)
                && 0 <= ix2[s[q].id] < kp.len() && kp[ix2[s[q].id] as int] == q,
        forall|j: int|
            0 <= j < kp.len() ==> {
                &&& same_but_children(#[trigger] t[j], s[kp[j]])
                &&& t[j].children@ == without(s[kp[j]].children@, id)
            },
    ensures
        links_ok(t, ix2, next),
{
    lemma_kept_positions(s, ix, id, s.len() as int);
    assert forall|j: int| 0 <= j < t.len() && #[trigger] t[j].parent != ROOT_PARENT implies {
        &&& ix2.contains_key(t[j].parent)
        &&& t[j].parent < t[j].id
        &&& t[ix2[t[j].parent] as int].depth + 1 == t[j].depth
        &&& t[ix2[t[j].parent] as int].children@.contains(t[j].id)
    } by {
        let q = kp[j];
        assert(same_but_children(t[j], s[q]));
        assert(ix.contains_key(s[q].parent));
        let pq = ix[s[q].parent] as int;
        assert(!goes_with(s, ix, pq, id)) by {
            if s[pq].id == id {
                assert(below(s, ix, q, id));
            }
            if below(s, ix, pq, id) {
                assert(below(s, ix, q, id));
            }
        }
        assert(ix2.contains_key(s[pq].id));
        let jp = ix2[s[pq].id] as int;
        assert(same_but_children(t[jp], s[pq]));
        lemma_without(s[pq].children@, id);
    }
    assert forall|j: int, k: int|
        0 <= j < t.len() && 0 <= k < t[j].children@.len() implies {
            &&& ix2.contains_key(#[trigger] t[j].children@[k])
            &&& t[ix2[t[j].children@[k]] as int].parent == t[j].id
        } by {
        let q = kp[j];
        let c = t[j].children@[k];
        lemma_without(s[q].children@, id);
        assert(t[j].children@.contains(c));
        assert(s[q].children@.contains(c) && c != id);
        let kk = s[q].children@.index_of(c);
        assert(ix.contains_key(s[q].children@[kk]));
        let cq = ix[c] as int;
        assert(s[cq].parent == s[q].id);
        assert(!goes_with(s, ix, cq, id)) by {
            assert(s[cq].parent != ROOT_PARENT);
            assert(ix[s[cq].parent] == q);
        }
        assert(ix2.contains_key(s[cq].id));
        let jc = ix2[s[cq].id] as int;
        assert(same_but_children(t[jc], s[cq]));
    }
    assert forall|j: int| 0 <= j < t.len() implies (#[trigger] t[j].children@).no_duplicates() by {
        lemma_without(s[kp[j]].children@, id);
    }
    assert forall|j: int| 0 <= j < t.len() implies 0 < #[trigger] t[j].id < next by {
        assert(same_but_children(t[j], s[kp[j]]));
    }
    assert forall|j: int| 0 <= j < t.len() implies (#[trigger] t[j].parent == ROOT_PARENT) == (t[j].depth
        == 0) by {
        assert(same_but_children(t[j], s[kp[j]]));
    }
    assert forall|j: int| 0 <= j < t.len() implies #[trigger] t[j].depth < t[j].id by {
        assert(same_but_children(t[j], s[kp[j]]));
    }
}

/// What `remove` leaves behind is well formed: the surviving nodes keep their
/// places with the removed id dropped from their children, and no id of a
/// removed node is indexed any more.
pub proof fn lemma_after_remove(
    s: Seq<TreeNode>,
    ix: Map<usize, usize>,
    t1: Seq<TreeNode>,
    ix2: Map<usize, usize>,
    t: Seq<TreeNode>,
    kp: Seq<int>,
    x: int,
    jj: int,
    id: usize,
    next: usize,
)
    requires
        removal_state(s, ix, t1, ix2, t, kp, x, jj, id, next),
    ensures
        index_exact(t, ix2),
        links_ok(t, ix2, next),
        forall|j: int|
            0 <= j < kp.len() ==> {
                &&& same_but_children(#[trigger] t[j], s[kp[j]])
                &&& t[j].children@ == without(s[kp[j]].children@, id)
            },
        forall|i: int|
            0 <= i < s.len() && goes_with(s, ix, i, id) ==> !ix2.contains_key(#[trigger] s[i].id),
{
    lemma_kept_located(s, ix, t1, ix2, t, kp, x, jj, id, next);
    lemma_kept_children(s, ix, t1, ix2, t, kp, x, jj, id, next);
    assert(index_exact(t, ix2)) by {
        assert forall|j: int| 0 <= j < t.len() implies #[trigger] ix2.contains_key(t[j].id) && ix2[t[j].id] == j by {
            assert(ix2.contains_key(t1[j].id));
        }
        assert forall|k: usize| #[trigger] ix2.contains_key(k) implies ix2[k] < t.len() && t[ix2[k] as int].id == k by {}
    }
    lemma_kept_links(s, ix, t1, ix2, t, kp, x, jj, id, next);
}

} // verus!
