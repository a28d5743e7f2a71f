use vstd::prelude::*;
use crate::builder::well_formed;
use crate::tree::{Arena, NodeId, NodeView};

verus! {

/// The size of the subtree at `i`: the node's own size plus the subtree
/// sizes of its children.
pub open spec fn subtree_size(nodes: Seq<NodeView>, i: int) -> nat
    decreases nodes.len() - i, nodes[i].children.len() + 1,
{
    if 0 <= i < nodes.len() {
        nodes[i].size as nat + children_total(nodes, i, nodes[i].children.len() as int)
    } else {
        0
    }
}

/// The sum of the subtree sizes of the first `k` children of `i`.
pub open spec fn children_total(nodes: Seq<NodeView>, i: int, k: int) -> nat
    decreases nodes.len() - i, k,
{
    if k <= 0 || !(0 <= i < nodes.len()) || k > nodes[i].children.len() {
        0
    } else {
        let c = nodes[i].children[k - 1] as int;
        children_total(nodes, i, k - 1) + if i < c < nodes.len() {
            subtree_size(nodes, c)
        } else {
            0
        }
    }
}

/// Whether `j` lies in the subtree of `i`, going down through the children:
/// `j` is `i`, or lies under one of the children of `i`.
pub open spec fn in_subtree(nodes: Seq<NodeView>, i: int, j: int) -> bool
    decreases nodes.len() - i, nodes[i].children.len() + 1,
{
    if 0 <= i < nodes.len() {
        i == j || under_children(nodes, i, nodes[i].children.len() as int, j)
    } else {
        false
    }
}

/// Whether `j` lies in the subtree of one of the first `k` children of `i`.
pub open spec fn under_children(nodes: Seq<NodeView>, i: int, k: int, j: int) -> bool
    decreases nodes.len() - i, k,
{
    if k <= 0 || !(0 <= i < nodes.len()) || k > nodes[i].children.len() {
        false
    } else {
        let c = nodes[i].children[k - 1] as int;
        under_children(nodes, i, k - 1, j) || (i < c < nodes.len() && in_subtree(nodes, c, j))
    }
}

/// The children of `n` lie in the arena after `n`, and the subtrees of two
/// different children share no node.
pub open spec fn children_apart(nodes: Seq<NodeView>, n: int) -> bool {
    &&& forall|k: int| 0 <= k < nodes[n].children.len() ==> n < #[trigger] nodes[n].children[k] < nodes.len()
    &&& forall|k1: int, k2: int, j: int|
        #![trigger in_subtree(nodes, nodes[n].children[k1] as int, j), nodes[n].children[k2]]
        0 <= k1 < k2 < nodes[n].children.len() && in_subtree(nodes, nodes[n].children[k1] as int, j)
            ==> !in_subtree(nodes, nodes[n].children[k2] as int, j)
}

/// The nodes below `i` form a tree laid out in the arena's order: every node
/// of the subtree has its children after it, and their subtrees do not meet.
pub open spec fn tree_below(nodes: Seq<NodeView>, i: int) -> bool {
    &&& 0 <= i < nodes.len()
    &&& forall|n: int| #[trigger] in_subtree(nodes, i, n) ==> children_apart(nodes, n)
}

/// Whether `j` lies in the subtree of `a`: `a` is `j` or is reached from
/// `j` by following parents.
pub open spec fn descends(nodes: Seq<NodeView>, j: int, a: int) -> bool
    decreases j,
{
    if j == a {
        true
    } else if 0 <= j < nodes.len() {
        match nodes[j].parent {
            Some(p) => p < j && descends(nodes, p as int, a),
            None => false,
        }
    } else {
        false
    }
}

/// `a` and `b` have the same nodes, sizes aside.
pub open spec fn same_shape(a: Seq<NodeView>, b: Seq<NodeView>) -> bool {
    &&& a.len() == b.len()
    &&& forall|j: int|
        0 <= j < a.len() ==> {
            &&& (#[trigger] b[j]).name == a[j].name
            &&& b[j].path == a[j].path
            &&& b[j].is_dir == a[j].is_dir
            &&& b[j].children == a[j].children
            &&& b[j].parent == a[j].parent
        }
}

proof fn lemma_under_children_intro(nodes: Seq<NodeView>, i: int, k: int, m: int, j: int)
    requires
        0 <= i < nodes.len(),
        0 <= k < m <= nodes[i].children.len(),
        i < nodes[i].children[k] < nodes.len(),
        in_subtree(nodes, nodes[i].children[k] as int, j),
    ensures
        under_children(nodes, i, m, j),
    decreases m,
{
    if k < m - 1 {
        lemma_under_children_intro(nodes, i, k, m - 1, j);
    }
}

proof fn lemma_under_children_elim(nodes: Seq<NodeView>, i: int, m: int, j: int)
    requires
        under_children(nodes, i, m, j),
    ensures
        exists|k: int|
            0 <= k < m && i < #[trigger] nodes[i].children[k] < nodes.len() && in_subtree(
                nodes,
                nodes[i].children[k] as int,
                j,
            ),
    decreases m,
{
    let c = nodes[i].children[m - 1] as int;
    if under_children(nodes, i, m - 1, j) {
        lemma_under_children_elim(nodes, i, m - 1, j);
        let k = choose|k: int|
            0 <= k < m - 1 && i < #[trigger] nodes[i].children[k] < nodes.len() && in_subtree(
                nodes,
                nodes[i].children[k] as int,
                j,
            );
        assert(0 <= k < m);
    } else {
        assert(i < nodes[i].children[m - 1] < nodes.len());
    }
}

/// A node of the subtree of `i` comes at or after `i` in the arena.
proof fn lemma_in_subtree_ge(nodes: Seq<NodeView>, i: int, j: int)
    requires
        in_subtree(nodes, i, j),
    ensures
        0 <= i <= j < nodes.len(),
    decreases nodes.len() - i,
{
    if i != j {
        lemma_under_children_elim(nodes, i, nodes[i].children.len() as int, j);
        let k = choose|k: int|
            0 <= k < nodes[i].children.len() && i < #[trigger] nodes[i].children[k] < nodes.len()
                && in_subtree(nodes, nodes[i].children[k] as int, j);
        lemma_in_subtree_ge(nodes, nodes[i].children[k] as int, j);
    }
}

/// A child of `i` lies in the subtree of `i`.
proof fn lemma_child_in_subtree(nodes: Seq<NodeView>, i: int, k: int)
    requires
        0 <= i < nodes.len(),
        0 <= k < nodes[i].children.len(),
        i < nodes[i].children[k] < nodes.len(),
    ensures
        in_subtree(nodes, i, nodes[i].children[k] as int),
{
    let c = nodes[i].children[k] as int;
    assert(in_subtree(nodes, c, c));
    lemma_under_children_intro(nodes, i, k, nodes[i].children.len() as int, c);
}

/// The subtree of a node of the subtree of `i` lies in the subtree of `i`.
proof fn lemma_in_subtree_trans(nodes: Seq<NodeView>, i: int, c: int, j: int)
    requires
        in_subtree(nodes, i, c),
        in_subtree(nodes, c, j),
    ensures
        in_subtree(nodes, i, j),
    decreases nodes.len() - i,
{
    if i != c {
        lemma_under_children_elim(nodes, i, nodes[i].children.len() as int, c);
        let k = choose|k: int|
            0 <= k < nodes[i].children.len() && i < #[trigger] nodes[i].children[k] < nodes.len()
                && in_subtree(nodes, nodes[i].children[k] as int, c);
        lemma_in_subtree_trans(nodes, nodes[i].children[k] as int, c, j);
        lemma_under_children_intro(nodes, i, k, nodes[i].children.len() as int, j);
    }
}

proof fn lemma_tree_below_inner(nodes: Seq<NodeView>, i: int, c: int)
    requires
        tree_below(nodes, i),
        in_subtree(nodes, i, c),
    ensures
        tree_below(nodes, c),
{
    lemma_in_subtree_ge(nodes, i, c);
    assert forall|n: int| #[trigger] in_subtree(nodes, c, n) implies children_apart(nodes, n) by {
        lemma_in_subtree_trans(nodes, i, c, n);
    }
}

proof fn lemma_in_subtree_shape(a: Seq<NodeView>, b: Seq<NodeView>, i: int, j: int)
    requires
        same_shape(a, b),
    ensures
        in_subtree(a, i, j) == in_subtree(b, i, j),
    decreases a.len() - i, a[i].children.len() + 1,
{
    if 0 <= i < a.len() {
        assert(b[i].children == a[i].children);
        lemma_under_children_shape(a, b, i, a[i].children.len() as int, j);
    }
}

proof fn lemma_under_children_shape(a: Seq<NodeView>, b: Seq<NodeView>, i: int, k: int, j: int)
    requires
        same_shape(a, b),
    ensures
        under_children(a, i, k, j) == under_children(b, i, k, j),
    decreases a.len() - i, k,
{
    if k <= 0 || !(0 <= i < a.len()) || k > a[i].children.len() {
        if 0 <= i < a.len() {
            assert(b[i].children == a[i].children);
        }
    } else {
        assert(b[i].children == a[i].children);
        lemma_under_children_shape(a, b, i, k - 1, j);
        let c = a[i].children[k - 1] as int;
        if i < c < a.len() {
            lemma_in_subtree_shape(a, b, c, j);
        }
    }
}

proof fn lemma_tree_below_shape(a: Seq<NodeView>, b: Seq<NodeView>, i: int)
    requires
        same_shape(a, b),
        tree_below(a, i),
    ensures
        tree_below(b, i),
{
    assert forall|n: int| #[trigger] in_subtree(b, i, n) implies children_apart(b, n) by {
        lemma_in_subtree_shape(a, b, i, n);
        lemma_in_subtree_ge(a, i, n);
        assert(children_apart(a, n));
        assert(b[n].children == a[n].children);
        assert forall|k1: int, k2: int, j: int|
            #![trigger in_subtree(b, b[n].children[k1] as int, j), b[n].children[k2]]
            0 <= k1 < k2 < b[n].children.len() && in_subtree(b, b[n].children[k1] as int, j)
                implies !in_subtree(b, b[n].children[k2] as int, j) by {
            lemma_in_subtree_shape(a, b, a[n].children[k1] as int, j);
            lemma_in_subtree_shape(a, b, a[n].children[k2] as int, j);
            assert(in_subtree(a, a[n].children[k1] as int, j));
        }
    }
}

/// Subtree sizes read only the sizes inside the subtree.
proof fn lemma_subtree_frame(a: Seq<NodeView>, b: Seq<NodeView>, i: int)
    requires
        same_shape(a, b),
        forall|j: int| #[trigger] in_subtree(a, i, j) ==> a[j].size == b[j].size,
    ensures
        subtree_size(a, i) == subtree_size(b, i),
    decreases a.len() - i, a[i].children.len() + 1,
{
    if 0 <= i < a.len() {
        assert(in_subtree(a, i, i));
        assert(b[i].children == a[i].children);
        assert forall|j: int| #[trigger] under_children(a, i, a[i].children.len() as int, j) implies a[j].size
            == b[j].size by {
            assert(in_subtree(a, i, j));
        }
        lemma_children_frame(a, b, i, a[i].children.len() as int);
    }
}

proof fn lemma_children_frame(a: Seq<NodeView>, b: Seq<NodeView>, i: int, k: int)
    requires
        same_shape(a, b),
        forall|j: int| #[trigger] under_children(a, i, k, j) ==> a[j].size == b[j].size,
    ensures
        children_total(a, i, k) == children_total(b, i, k),
    decreases a.len() - i, k,
{
    if k <= 0 || !(0 <= i < a.len()) || k > a[i].children.len() {
        if 0 <= i < a.len() {
            assert(b[i].children == a[i].children);
        }
    } else {
        assert(b[i].children == a[i].children);
        assert forall|j: int| #[trigger] under_children(a, i, k - 1, j) implies a[j].size == b[j].size by {
            assert(under_children(a, i, k, j));
        }
        lemma_children_frame(a, b, i, k - 1);
        let c = a[i].children[k - 1] as int;
        if i < c < a.len() {
            assert forall|j: int| #[trigger] in_subtree(a, c, j) implies a[j].size == b[j].size by {
                assert(under_children(a, i, k, j));
            }
            lemma_subtree_frame(a, b, c);
        }
    }
}

proof fn lemma_descends_ge(nodes: Seq<NodeView>, j: int, a: int)
    requires
        descends(nodes, j, a),
    ensures
        j >= a,
    decreases j,
{
    if j != a {
        let p = nodes[j].parent->0;
        lemma_descends_ge(nodes, p as int, a);
    }
}

proof fn lemma_descends_trans(nodes: Seq<NodeView>, j: int, b: int, a: int)
    requires
        descends(nodes, j, b),
        descends(nodes, b, a),
    ensures
        descends(nodes, j, a),
    decreases j,
{
    if j != b {
        let p = nodes[j].parent->0;
        lemma_descends_trans(nodes, p as int, b, a);
    }
}

/// The ancestors of a node lie on one chain.
proof fn lemma_descends_chain(nodes: Seq<NodeView>, j: int, a: int, b: int)
    requires
        descends(nodes, j, a),
        descends(nodes, j, b),
    ensures
        descends(nodes, a, b) || descends(nodes, b, a),
    decreases j,
{
    if j != a && j != b {
        let p = nodes[j].parent->0;
        lemma_descends_chain(nodes, p as int, a, b);
    }
}

/// The subtrees of two different children of a node do not meet.
proof fn lemma_children_disjoint(nodes: Seq<NodeView>, i: int, k1: int, k2: int, j: int)
    requires
        well_formed(nodes),
        0 <= i < nodes.len(),
        0 <= k1 < nodes[i].children.len(),
        0 <= k2 < nodes[i].children.len(),
        k1 != k2,
        descends(nodes, j, nodes[i].children[k1] as int),
    ensures
        !descends(nodes, j, nodes[i].children[k2] as int),
{
    let c1 = nodes[i].children[k1] as int;
    let c2 = nodes[i].children[k2] as int;
    if descends(nodes, j, c2) {
        lemma_descends_chain(nodes, j, c1, c2);
        if k1 < k2 {
            assert(c1 != c2);
        } else {
            assert(nodes[i].children[k2] != nodes[i].children[k1]);
        }
        if descends(nodes, c1, c2) {
            assert(nodes[c1].parent == Some(i as NodeId));
            lemma_descends_ge(nodes, i, c2);
        } else {
            assert(nodes[c2].parent == Some(i as NodeId));
            lemma_descends_ge(nodes, i, c1);
        }
    }
}


pub proof fn lemma_same_shape_well_formed(a: Seq<NodeView>, b: Seq<NodeView>)
    requires
        well_formed(a),
        same_shape(a, b),
    ensures
        well_formed(b),
{
    assert forall|i: int, k: int|
        0 <= i < b.len() && 0 <= k < b[i].children.len() implies {
            let c = #[trigger] b[i].children[k];
            &&& i < c < b.len()
            &&& b[c as int].parent == Some(i as NodeId)
        } by {
        assert(b[i].children == a[i].children);
        assert(a[i].children[k] == b[i].children[k]);
    }
    assert forall|i: int, k1: int, k2: int|
        0 <= i < b.len() && 0 <= k1 < k2 < b[i].children.len()
            implies #[trigger] b[i].children[k1] != #[trigger] b[i].children[k2] by {
        assert(b[i].children == a[i].children);
        assert(a[i].children[k1] != a[i].children[k2]);
    }
    assert forall|i: int|
        0 < i < b.len() implies match #[trigger] b[i].parent {
            Some(p) => p < i && b[p as int].children.contains(i as NodeId),
            None => false,
        } by {
        assert(a[i].parent == b[i].parent);
        match a[i].parent {
            Some(p) => {
                assert(b[p as int].children == a[p as int].children);
            },
            None => {},
        }
    }
    assert(b[0].parent == a[0].parent);
}

proof fn lemma_children_total_mono(nodes: Seq<NodeView>, i: int, k: int)
    requires
        0 <= k,
    ensures
        children_total(nodes, i, k) <= subtree_size(nodes, i) - nodes[i].size || !(0 <= i < nodes.len())
            || k > nodes[i].children.len(),
    decreases nodes[i].children.len() - k,
{
    if 0 <= i < nodes.len() && k < nodes[i].children.len() {
        lemma_children_total_mono(nodes, i, k + 1);
    }
}


/// In a well-formed arena a node reached through children from `c` reaches
/// `c` through parents.
proof fn lemma_in_subtree_descends(nodes: Seq<NodeView>, c: int, j: int)
    requires
        well_formed(nodes),
        in_subtree(nodes, c, j),
    ensures
        descends(nodes, j, c),
    decreases nodes.len() - c,
{
    if c != j {
        lemma_under_children_elim(nodes, c, nodes[c].children.len() as int, j);
        let k = choose|k: int|
            0 <= k < nodes[c].children.len() && c < #[trigger] nodes[c].children[k] < nodes.len()
                && in_subtree(nodes, nodes[c].children[k] as int, j);
        let d = nodes[c].children[k] as int;
        lemma_in_subtree_descends(nodes, d, j);
        assert(nodes[d].parent == Some(c as NodeId));
        assert(descends(nodes, c, c));
        assert(descends(nodes, d, c));
        lemma_descends_trans(nodes, j, d, c);
    }
}

proof fn lemma_root_reaches(nodes: Seq<NodeView>, j: int)
    requires
        well_formed(nodes),
        0 <= j < nodes.len(),
    ensures
        in_subtree(nodes, 0, j),
    decreases j,
{
    if j == 0 {
        assert(in_subtree(nodes, 0, 0));
    } else {
        let p = nodes[j].parent->0 as int;
        assert(nodes[p].children.contains(j as NodeId));
        let k = choose|k: int| 0 <= k < nodes[p].children.len() && nodes[p].children[k] == j as NodeId;
        assert(p < nodes[p].children[k] < nodes.len());
        lemma_root_reaches(nodes, p);
        lemma_child_in_subtree(nodes, p, k);
        lemma_in_subtree_trans(nodes, 0, p, j);
    }
}

/// A well-formed arena is a tree below node 0 that holds every node.
pub proof fn lemma_well_formed_tree(nodes: Seq<NodeView>)
    requires
        well_formed(nodes),
    ensures
        tree_below(nodes, 0),
        forall|j: int| 0 <= j < nodes.len() ==> #[trigger] in_subtree(nodes, 0, j),
{
    assert forall|j: int| 0 <= j < nodes.len() implies #[trigger] in_subtree(nodes, 0, j) by {
        lemma_root_reaches(nodes, j);
    }
    assert forall|n: int| #[trigger] in_subtree(nodes, 0, n) implies children_apart(nodes, n) by {
        lemma_in_subtree_ge(nodes, 0, n);
        assert forall|k1: int, k2: int, j: int|
            #![trigger in_subtree(nodes, nodes[n].children[k1] as int, j), nodes[n].children[k2]]
            0 <= k1 < k2 < nodes[n].children.len() && in_subtree(nodes, nodes[n].children[k1] as int, j)
                implies !in_subtree(nodes, nodes[n].children[k2] as int, j) by {
            lemma_in_subtree_descends(nodes, nodes[n].children[k1] as int, j);
            if in_subtree(nodes, nodes[n].children[k2] as int, j) {
                lemma_in_subtree_descends(nodes, nodes[n].children[k2] as int, j);
                lemma_children_disjoint(nodes, n, k1, k2, j);
            }
        }
    }
}

/// Sizes while `compute_sizes` works on `n`: the subtrees of its first `k`
/// children are done, `n` holds its own size plus theirs, all else is as in
/// `start`.
pub open spec fn sizes_after_children(start: Seq<NodeView>, cur: Seq<NodeView>, n: int, k: int) -> bool {
    forall|j: int|
        0 <= j < start.len() ==> (#[trigger] cur[j]).size == if under_children(start, n, k, j) {
            subtree_size(start, j)
        } else if j == n {
            start[n].size as nat + children_total(start, n, k)
        } else {
            start[j].size as nat
        }
}

/// No child of `n` has `n` in its subtree.
proof fn lemma_not_under_own_children(nodes: Seq<NodeView>, n: int, k: int)
    ensures
        !under_children(nodes, n, k, n),
{
    if under_children(nodes, n, k, n) {
        lemma_under_children_elim(nodes, n, k, n);
        let m = choose|m: int|
            0 <= m < k && n < #[trigger] nodes[n].children[m] < nodes.len() && in_subtree(
                nodes,
                nodes[n].children[m] as int,
                n,
            );
        lemma_in_subtree_ge(nodes, nodes[n].children[m] as int, n);
    }
}

proof fn lemma_untouched(start: Seq<NodeView>, cur: Seq<NodeView>, n: int, k: int, j: int)
    requires
        tree_below(start, n),
        0 <= k < start[n].children.len(),
        sizes_after_children(start, cur, n, k),
        in_subtree(start, start[n].children[k] as int, j),
    ensures
        start[j].size == cur[j].size,
{
    assert(in_subtree(start, n, n));
    assert(children_apart(start, n));
    let c = start[n].children[k] as int;
    if under_children(start, n, k, j) {
        lemma_under_children_elim(start, n, k, j);
        let m = choose|m: int|
            0 <= m < k && n < #[trigger] start[n].children[m] < start.len() && in_subtree(
                start,
                start[n].children[m] as int,
                j,
            );
        assert(!in_subtree(start, start[n].children[k] as int, j));
    }
    assert(n < c);
    lemma_in_subtree_ge(start, c, j);
}

#[verifier::rlimit(30)]
proof fn lemma_step_before(start: Seq<NodeView>, cur: Seq<NodeView>, n: int, k: int)
    requires
        tree_below(start, n),
        same_shape(start, cur),
        0 <= k < start[n].children.len(),
        sizes_after_children(start, cur, n, k),
    ensures
        ({
            let c = start[n].children[k] as int;
            &&& n < c < start.len()
            &&& tree_below(cur, c)
            &&& subtree_size(cur, c) == subtree_size(start, c)
            &&& children_total(start, n, k + 1) == children_total(start, n, k) + subtree_size(start, c)
            &&& start[n].size + children_total(start, n, k + 1) <= subtree_size(start, n)
            &&& cur[n].size == start[n].size + children_total(start, n, k)
        }),
{
    assert(in_subtree(start, n, n));
    assert(children_apart(start, n));
    let c = start[n].children[k] as int;
    assert(n < c < start.len());
    assert forall|j: int| #[trigger] in_subtree(start, c, j) implies start[j].size == cur[j].size by {
        lemma_untouched(start, cur, n, k, j);
    }
    lemma_subtree_frame(start, cur, c);
    lemma_children_total_mono(start, n, k + 1);
    lemma_not_under_own_children(start, n, k);
    lemma_child_in_subtree(start, n, k);
    lemma_tree_below_inner(start, n, c);
    lemma_tree_below_shape(start, cur, c);
}

#[verifier::rlimit(30)]
proof fn lemma_step_after(
    start: Seq<NodeView>,
    cur: Seq<NodeView>,
    after: Seq<NodeView>,
    fin: Seq<NodeView>,
    n: int,
    k: int,
)
    requires
        tree_below(start, n),
        same_shape(start, cur),
        same_shape(cur, after),
        0 <= k < start[n].children.len(),
        sizes_after_children(start, cur, n, k),
        children_total(start, n, k + 1) == children_total(start, n, k) + subtree_size(
            start,
            start[n].children[k] as int,
        ),
        forall|j: int|
            0 <= j < after.len() ==> (#[trigger] after[j]).size == if in_subtree(
                cur,
                start[n].children[k] as int,
                j,
            ) {
                subtree_size(cur, j)
            } else {
                cur[j].size as nat
            },
        fin == after.update(n, NodeView { size: (after[n].size + after[start[n].children[k] as int].size) as u64, ..after[n] }),
        after[n].size + after[start[n].children[k] as int].size <= u64::MAX,
        subtree_size(cur, start[n].children[k] as int) == subtree_size(start, start[n].children[k] as int),
        cur[n].size == start[n].size + children_total(start, n, k),
    ensures
        sizes_after_children(start, fin, n, k + 1),
{
    assert(in_subtree(start, n, n));
    assert(children_apart(start, n));
    let c = start[n].children[k] as int;
    assert(n < c < start.len());
    lemma_not_under_own_children(start, n, k + 1);
    assert forall|j: int| 0 <= j < start.len() implies (#[trigger] fin[j]).size == if under_children(start, n, k + 1, j) {
            subtree_size(start, j)
        } else if j == n {
            start[n].size as nat + children_total(start, n, k + 1)
        } else {
            start[j].size as nat
        } by {
        lemma_step_after_at(start, cur, after, fin, n, k, j);
    }
}

#[verifier::rlimit(30)]
proof fn lemma_step_after_at(
    start: Seq<NodeView>,
    cur: Seq<NodeView>,
    after: Seq<NodeView>,
    fin: Seq<NodeView>,
    n: int,
    k: int,
    j: int,
)
    requires
        tree_below(start, n),
        same_shape(start, cur),
        same_shape(cur, after),
        0 <= k < start[n].children.len(),
        n < start[n].children[k] < start.len(),
        !under_children(start, n, k + 1, n),
        sizes_after_children(start, cur, n, k),
        children_total(start, n, k + 1) == children_total(start, n, k) + subtree_size(
            start,
            start[n].children[k] as int,
        ),
        forall|j: int|
            0 <= j < after.len() ==> (#[trigger] after[j]).size == if in_subtree(
                cur,
                start[n].children[k] as int,
                j,
            ) {
                subtree_size(cur, j)
            } else {
                cur[j].size as nat
            },
        fin == after.update(n, NodeView { size: (after[n].size + after[start[n].children[k] as int].size) as u64, ..after[n] }),
        after[n].size + after[start[n].children[k] as int].size <= u64::MAX,
        subtree_size(cur, start[n].children[k] as int) == subtree_size(start, start[n].children[k] as int),
        cur[n].size == start[n].size + children_total(start, n, k),
        0 <= j < start.len(),
    ensures
        fin[j].size == if under_children(start, n, k + 1, j) {
            subtree_size(start, j)
        } else if j == n {
            start[n].size as nat + children_total(start, n, k + 1)
        } else {
            start[j].size as nat
        },
{
    let c = start[n].children[k] as int;
    lemma_in_subtree_shape(start, cur, c, j);
    lemma_in_subtree_shape(start, cur, c, n);
    if in_subtree(start, c, j) {
        lemma_in_subtree_ge(start, c, j);
        assert forall|i: int| #[trigger] in_subtree(start, j, i) implies start[i].size == cur[i].size by {
            lemma_in_subtree_trans(start, c, j, i);
            lemma_untouched(start, cur, n, k, i);
        }
        lemma_subtree_frame(start, cur, j);
        assert(under_children(start, n, k + 1, j));
    } else {
        assert(after[j].size == cur[j].size);
        assert(under_children(start, n, k + 1, j) == under_children(start, n, k, j));
        if j == n {
            if in_subtree(start, c, n) {
                lemma_in_subtree_ge(start, c, n);
            }
            assert(in_subtree(cur, c, c));
            assert(after[c].size == subtree_size(cur, c));
        }
    }
}

/// Sets the size of every node in the subtree of `node_id` to the size of
/// its subtree: its own size plus the sizes of its children's subtrees.
#[verifier::rlimit(30)]
pub fn compute_sizes(arena: &mut Arena, node_id: NodeId)
    requires
        tree_below(old(arena)@, node_id as int),
        subtree_size(old(arena)@, node_id as int) <= u64::MAX,
    ensures
        same_shape(old(arena)@, final(arena)@),
        forall|j: int|
            0 <= j < final(arena)@.len() ==> (#[trigger] final(arena)@[j]).size == if in_subtree(
                old(arena)@,
                node_id as int,
                j,
            ) {
                subtree_size(old(arena)@, j)
            } else {
                old(arena)@[j].size as nat
            },
    decreases old(arena)@.len() - node_id,
{
    let ghost start = arena@;
    let ghost n = node_id as int;
    let children: Vec<NodeId> = arena.get(node_id).children.clone();
    assert(children@ =~= start[n].children);
    let mut k: usize = 0;
    proof {
        assert forall|j: int| 0 <= j < start.len() implies #[trigger] arena@[j].size == start[j].size by {}
        assert(same_shape(start, arena@));
    }
    while k < children.len()
        invariant
            tree_below(start, n),
            start == old(arena)@,
            n == node_id,
            children@ == start[n].children,
            subtree_size(start, n) <= u64::MAX,
            0 <= k <= children.len(),
            same_shape(start, arena@),
            sizes_after_children(start, arena@, n, k as int),
        decreases children.len() - k,
    {
        let child_id = children[k];
        let ghost cur = arena@;
        proof {
            lemma_step_before(start, cur, n, k as int);
            assert(cur.len() == start.len());
            assert(arena@.len() - child_id < start.len() - node_id);
        }
        compute_sizes(arena, child_id);
        let child_size = arena.get(child_id).size;
        let ghost after = arena@;
        proof {
            assert(after[n].size == cur[n].size) by {
                if in_subtree(cur, child_id as int, n) {
                    lemma_in_subtree_ge(cur, child_id as int, n);
                }
            }
            assert(in_subtree(cur, child_id as int, child_id as int));
        }
        arena.get_mut(node_id).size += child_size;
        proof {
            lemma_step_after(start, cur, after, arena@, n, k as int);
            assert(same_shape(start, arena@));
        }
        k = k + 1;
    }
    proof {
        let fin = arena@;
        lemma_not_under_own_children(start, n, k as int);
        assert forall|j: int| 0 <= j < fin.len() implies (#[trigger] fin[j]).size == if in_subtree(start, n, j) {
                subtree_size(start, j)
            } else {
                start[j].size as nat
            } by {
            assert(in_subtree(start, n, j) == (n == j || under_children(start, n, k as int, j)));
        }
    }
}

/// The sum of the own sizes of the first `m` nodes.
pub open spec fn own_sizes(nodes: Seq<NodeView>, m: int) -> nat
    decreases m,
{
    if m <= 0 || m > nodes.len() {
        0
    } else {
        own_sizes(nodes, m - 1) + nodes[m - 1].size as nat
    }
}

/// The sum of the own sizes of all nodes.
pub open spec fn own_total(nodes: Seq<NodeView>) -> nat {
    own_sizes(nodes, nodes.len() as int)
}

/// The sum, over the first `m` children of `j` whose index is at least `k`,
/// of their subtree sizes.
pub open spec fn children_from(nodes: Seq<NodeView>, j: int, k: int, m: int) -> nat
    decreases m,
{
    if m <= 0 || m > nodes[j].children.len() {
        0
    } else {
        let c = nodes[j].children[m - 1] as int;
        children_from(nodes, j, k, m - 1) + if c >= k {
            subtree_size(nodes, c)
        } else {
            0
        }
    }
}

/// The own size of `j` plus the subtree sizes of its children from index `k` on.
pub open spec fn partial_size(nodes: Seq<NodeView>, j: int, k: int) -> nat {
    nodes[j].size as nat + children_from(nodes, j, k, nodes[j].children.len() as int)
}

/// The sum of `partial_size(_, _, k)` over the first `m` nodes.
pub open spec fn partial_sum(nodes: Seq<NodeView>, k: int, m: int) -> nat
    decreases m,
{
    if m <= 0 {
        0
    } else {
        partial_sum(nodes, k, m - 1) + partial_size(nodes, m - 1, k)
    }
}

proof fn lemma_children_from_step(nodes: Seq<NodeView>, j: int, k: int, m: int)
    requires
        well_formed(nodes),
        0 <= j < nodes.len(),
        0 <= m <= nodes[j].children.len(),
    ensures
        children_from(nodes, j, k, m) == children_from(nodes, j, k + 1, m) + if exists|i: int|
            0 <= i < m && #[trigger] nodes[j].children[i] as int == k {
            subtree_size(nodes, k)
        } else {
            0
        },
    decreases m,
{
    if m > 0 {
        lemma_children_from_step(nodes, j, k, m - 1);
        let c = nodes[j].children[m - 1] as int;
        if c == k {
            assert forall|i: int| 0 <= i < m - 1 implies #[trigger] nodes[j].children[i] as int != k by {
                assert(nodes[j].children[i] != nodes[j].children[m - 1]);
            }
        }
        if exists|i: int| 0 <= i < m - 1 && #[trigger] nodes[j].children[i] as int == k {
            let i = choose|i: int| 0 <= i < m - 1 && #[trigger] nodes[j].children[i] as int == k;
            assert(0 <= i < m && nodes[j].children[i] as int == k);
        }
        if c != k && exists|i: int| 0 <= i < m && #[trigger] nodes[j].children[i] as int == k {
            let i = choose|i: int| 0 <= i < m && #[trigger] nodes[j].children[i] as int == k;
            assert(i != m - 1);
        }
    }
}

proof fn lemma_children_from_all(nodes: Seq<NodeView>, j: int, m: int)
    requires
        well_formed(nodes),
        0 <= j < nodes.len(),
        0 <= m <= nodes[j].children.len(),
    ensures
        children_from(nodes, j, j + 1, m) == children_total(nodes, j, m),
        children_from(nodes, j, nodes.len() as int, m) == 0,
    decreases m,
{
    if m > 0 {
        lemma_children_from_all(nodes, j, m - 1);
        let c = nodes[j].children[m - 1];
        assert(j < c < nodes.len());
    }
}

proof fn lemma_partial_sum_step(nodes: Seq<NodeView>, k: int, m: int)
    requires
        well_formed(nodes),
        0 < k < nodes.len(),
        0 <= m <= nodes.len(),
    ensures
        partial_sum(nodes, k, m) == partial_sum(nodes, k + 1, m) + if (nodes[k].parent->0) < m {
            subtree_size(nodes, k)
        } else {
            0
        },
    decreases m,
{
    if m > 0 {
        lemma_partial_sum_step(nodes, k, m - 1);
        let j = m - 1;
        lemma_children_from_step(nodes, j, k, nodes[j].children.len() as int);
        let p = nodes[k].parent->0;
        if exists|i: int| 0 <= i < nodes[j].children.len() && #[trigger] nodes[j].children[i] as int == k {
            let i = choose|i: int| 0 <= i < nodes[j].children.len() && #[trigger] nodes[j].children[i] as int == k;
            assert(nodes[k].parent == Some(j as NodeId));
        }
        if j == p as int {
            assert(nodes[p as int].children.contains(k as NodeId));
            let i = choose|i: int| 0 <= i < nodes[j].children.len() && nodes[j].children[i] == k as NodeId;
            assert(nodes[j].children[i] as int == k);
        }
    }
}

proof fn lemma_partial_sum_base(nodes: Seq<NodeView>, m: int)
    requires
        well_formed(nodes),
        0 <= m <= nodes.len(),
    ensures
        partial_sum(nodes, nodes.len() as int, m) == own_sizes(nodes, m),
    decreases m,
{
    if m > 0 {
        lemma_partial_sum_base(nodes, m - 1);
        lemma_children_from_all(nodes, m - 1, nodes[m - 1].children.len() as int);
    }
}

proof fn lemma_partial_sum_down(nodes: Seq<NodeView>, k: int)
    requires
        well_formed(nodes),
        1 <= k <= nodes.len(),
    ensures
        partial_sum(nodes, k, k) == own_total(nodes),
    decreases nodes.len() - k,
{
    if k == nodes.len() {
        lemma_partial_sum_base(nodes, k);
    } else {
        lemma_partial_sum_down(nodes, k + 1);
        lemma_partial_sum_step(nodes, k, k);
        lemma_children_from_all(nodes, k, nodes[k].children.len() as int);
        assert(nodes[k].parent->0 < k);
    }
}

/// In a well-formed arena the subtree size of the root is the sum of the
/// own sizes of all nodes: every node is counted once.
pub proof fn lemma_root_size_is_own_total(nodes: Seq<NodeView>)
    requires
        well_formed(nodes),
    ensures
        subtree_size(nodes, 0) == own_total(nodes),
{
    lemma_partial_sum_down(nodes, 1);
    lemma_children_from_all(nodes, 0, nodes[0].children.len() as int);
    assert(partial_sum(nodes, 1, 0) == 0);
    assert(partial_sum(nodes, 1, 1) == partial_size(nodes, 0, 1));
}

} // verus!
