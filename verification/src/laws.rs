use vstd::prelude::*;
use crate::builder::{well_formed, with_subtree_sizes};
use crate::listing::{RowView, SortKey, children_rows, sorted_from};
use crate::navigate::{after_header_click, opens};
use crate::sizes::{children_total, own_total, subtree_size, lemma_root_size_is_own_total};
use crate::tree::{NodeId, NodeView};

verus! {

/// The sum of the sizes of the first `m` children of `j`.
pub open spec fn child_sizes(nodes: Seq<NodeView>, j: int, m: int) -> nat
    decreases m,
{
    if m <= 0 || m > nodes[j].children.len() {
        0
    } else {
        child_sizes(nodes, j, m - 1) + nodes[nodes[j].children[m - 1] as int].size as nat
    }
}

/// Adding a node keeps the nodes before it, and the new node is read back
/// at the index that `add` returns.
pub proof fn law_add_then_get(before: Seq<NodeView>, node: NodeView)
    ensures
        before.push(node)[before.len() as int] == node,
        forall|i: int| 0 <= i < before.len() ==> #[trigger] before.push(node)[i] == before[i],
{
}

proof fn lemma_child_le_parent(nodes: Seq<NodeView>, j: int, k: int)
    requires
        well_formed(nodes),
        0 <= j < nodes.len(),
        0 <= k < nodes[j].children.len(),
    ensures
        subtree_size(nodes, nodes[j].children[k] as int) <= subtree_size(nodes, j),
{
    lemma_children_total_at_least(nodes, j, nodes[j].children.len() as int, k);
}

proof fn lemma_children_total_at_least(nodes: Seq<NodeView>, j: int, m: int, k: int)
    requires
        well_formed(nodes),
        0 <= j < nodes.len(),
        0 <= k < m <= nodes[j].children.len(),
    ensures
        subtree_size(nodes, nodes[j].children[k] as int) <= children_total(nodes, j, m),
    decreases m,
{
    if m == k + 1 {
        let c = nodes[j].children[k];
        assert(j < c < nodes.len());
    } else {
        lemma_children_total_at_least(nodes, j, m - 1, k);
        let c = nodes[j].children[m - 1];
        assert(j < c < nodes.len());
    }
}

pub(crate) proof fn lemma_subtree_le_root(nodes: Seq<NodeView>, j: int)
    requires
        well_formed(nodes),
        0 <= j < nodes.len(),
    ensures
        subtree_size(nodes, j) <= subtree_size(nodes, 0),
    decreases j,
{
    if j > 0 {
        let p = nodes[j].parent->0 as int;
        assert(nodes[p].children.contains(j as NodeId));
        let k = choose|k: int| 0 <= k < nodes[p].children.len() && nodes[p].children[k] == j as NodeId;
        lemma_child_le_parent(nodes, p, k);
        lemma_subtree_le_root(nodes, p);
    }
}

proof fn lemma_child_sizes(nodes: Seq<NodeView>, j: int, m: int)
    requires
        well_formed(nodes),
        own_total(nodes) <= u64::MAX,
        0 <= j < nodes.len(),
        0 <= m <= nodes[j].children.len(),
    ensures
        child_sizes(with_subtree_sizes(nodes), j, m) == children_total(nodes, j, m),
    decreases m,
{
    if m > 0 {
        lemma_child_sizes(nodes, j, m - 1);
        let c = nodes[j].children[m - 1] as int;
        assert(j < c < nodes.len());
        lemma_root_size_is_own_total(nodes);
        lemma_subtree_le_root(nodes, c);
    }
}

/// Once every node is given the size of its subtree, the size of each node
/// is its own size plus the sizes of its children, and the size of the root
/// is the sum of the own sizes of all nodes.
pub proof fn law_sizes_add_up(nodes: Seq<NodeView>)
    requires
        well_formed(nodes),
        own_total(nodes) <= u64::MAX,
    ensures
        forall|j: int|
            0 <= j < nodes.len() ==> #[trigger] with_subtree_sizes(nodes)[j].size == nodes[j].size
                + child_sizes(with_subtree_sizes(nodes), j, nodes[j].children.len() as int),
        with_subtree_sizes(nodes)[0].size == own_total(nodes),
{
    let t = with_subtree_sizes(nodes);
    lemma_root_size_is_own_total(nodes);
    assert forall|j: int| 0 <= j < nodes.len() implies #[trigger] t[j].size == nodes[j].size + child_sizes(
        t,
        j,
        nodes[j].children.len() as int,
    ) by {
        lemma_subtree_le_root(nodes, j);
        lemma_child_sizes(nodes, j, nodes[j].children.len() as int);
        assert(t[j].children == nodes[j].children);
    }
}

/// In a well-formed arena, going up from any child of `p` lands on `p`.
pub proof fn law_up_from_child(nodes: Seq<NodeView>, p: int, k: int)
    requires
        well_formed(nodes),
        0 <= p < nodes.len(),
        0 <= k < nodes[p].children.len(),
    ensures
        nodes[nodes[p].children[k] as int].parent == Some(p as NodeId),
{
}

/// Clicking the header of the sort column twice leaves the order as it was;
/// clicking another column sorts by it, descending.
pub proof fn law_header_click(sort_col: usize, sort_desc: bool, clicked: usize)
    ensures
        after_header_click(sort_col, sort_desc, sort_col) == (sort_col, !sort_desc),
        after_header_click(
            after_header_click(sort_col, sort_desc, sort_col).0,
            after_header_click(sort_col, sort_desc, sort_col).1,
            sort_col,
        ) == (sort_col, sort_desc),
        clicked != sort_col ==> after_header_click(sort_col, sort_desc, clicked) == (clicked, true),
{
}


/// The `k`-th row of the listing of node `id` is the `k`-th child of `id`:
/// it carries that child's own index, name, size, kind and entries.
pub proof fn law_children_rows(nodes: Seq<NodeView>, id: NodeId)
    ensures
        children_rows(nodes, id).len() == nodes[id as int].children.len(),
        forall|k: int|
            0 <= k < nodes[id as int].children.len() ==> {
                let c = nodes[id as int].children[k];
                let r = #[trigger] children_rows(nodes, id)[k];
                &&& r.id == c
                &&& r.name == nodes[c as int].name
                &&& r.size == nodes[c as int].size
                &&& r.is_dir == nodes[c as int].is_dir
                &&& r.children == nodes[c as int].children
            },
{
}

/// A listing of the children of `id` in any order holds each child once: its
/// rows are as many as the children, and every row carries the index of a
/// child of `id` with that child's own name, size, kind and entries.
pub proof fn law_listed_rows(s: Seq<RowView>, nodes: Seq<NodeView>, id: NodeId, key: SortKey, desc: bool)
    requires
        sorted_from(s, children_rows(nodes, id), key, desc),
    ensures
        s.len() == nodes[id as int].children.len(),
        forall|i: int|
            0 <= i < s.len() ==> {
                let r = #[trigger] s[i];
                &&& nodes[id as int].children.contains(r.id)
                &&& r.name == nodes[r.id as int].name
                &&& r.size == nodes[r.id as int].size
                &&& r.is_dir == nodes[r.id as int].is_dir
                &&& r.children == nodes[r.id as int].children
            },
{
    broadcast use vstd::seq_lib::to_multiset_len, vstd::seq_lib::to_multiset_contains;

    let rows = children_rows(nodes, id);
    law_children_rows(nodes, id);
    assert(s.len() == s.to_multiset().len());
    assert forall|i: int| 0 <= i < s.len() implies {
        let r = #[trigger] s[i];
        &&& nodes[id as int].children.contains(r.id)
        &&& r.name == nodes[r.id as int].name
        &&& r.size == nodes[r.id as int].size
        &&& r.is_dir == nodes[r.id as int].is_dir
        &&& r.children == nodes[r.id as int].children
    } by {
        let r = s[i];
        assert(s.contains(r));
        assert(s.to_multiset().count(r) > 0);
        assert(rows.contains(r));
        let k = choose|k: int| 0 <= k < rows.len() && rows[k] == r;
        assert(rows[k] == children_rows(nodes, id)[k]);
        assert(nodes[id as int].children[k] == r.id);
    }
}

/// A node opens exactly when it is a directory with at least one entry,
/// whatever its size: giving it another size changes nothing.
pub proof fn law_opens(nodes: Seq<NodeView>, id: NodeId, size: u64)
    requires
        id < nodes.len(),
    ensures
        opens(nodes, id) == (nodes[id as int].is_dir && nodes[id as int].children.len() > 0),
        opens(nodes.update(id as int, NodeView { size: size, ..nodes[id as int] }), id) == opens(nodes, id),
{
}

} // verus!
