use vstd::prelude::*;
use vstd::hash_map::StringHashMap;
use vstd::utf8::encode_utf8;
use crate::paths::{path_parent, path_file_name, parent_of, file_name_of, same_text, text_len};
use crate::crawler::{FileInfo, FileInfoView, sizes_sum};
use crate::sizes::{children_total, compute_sizes, in_subtree, subtree_size, own_total, own_sizes, same_shape, lemma_well_formed_tree, lemma_root_size_is_own_total, lemma_same_shape_well_formed};
use crate::laws::lemma_subtree_le_root;
use crate::tree::{Arena, Node, NodeId, NodeView};

verus! {

/// Length of the UTF-8 encoding of `s`: what `str::len` returns.
pub open spec fn byte_len(s: Seq<char>) -> nat {
    encode_utf8(s).len()
}

/// The text of a string that may be absent.
pub open spec fn text_opt(s: Option<String>) -> Option<Seq<char>> {
    match s {
        Some(t) => Some(t@),
        None => None,
    }
}

/// The directory that `path` hangs under, given `parent`, the parent that
/// the path library reports for it: that parent, or `root` where there is
/// none. A parent is the path without its final component, so it is
/// shorter than the path (what `parent_of` states of every parent it
/// returns); the length test here only tells Verus that a walk up ends.
pub open spec fn parent_or_root_from(parent: Option<Seq<char>>, path: Seq<char>, root: Seq<char>) -> Seq<char> {
    match parent {
        Some(p) => if byte_len(p) < byte_len(path) {
            p
        } else {
            root
        },
        None => root,
    }
}

/// The parent of `path`, or `root` where the path has none.
pub open spec fn parent_or_root(path: Seq<char>, root: Seq<char>) -> Seq<char> {
    parent_or_root_from(path_parent(path), path, root)
}

/// The name given by `name`, the final component that the path library
/// reports for `path`, or the whole path where there is none.
pub open spec fn name_from(name: Option<Seq<char>>, path: Seq<char>) -> Seq<char> {
    match name {
        Some(n) => n,
        None => path,
    }
}

/// The final component of `path`, or the whole path where it has none.
pub open spec fn name_or_path(path: Seq<char>) -> Seq<char> {
    name_from(path_file_name(path), path)
}

/// Where the upward walk reaching `parent` stops and hangs the directory
/// under the root node: the parent is the root, or is shorter than the root.
pub open spec fn stops_at_root(parent: Seq<char>, root: Seq<char>) -> bool {
    parent == root || byte_len(parent) < byte_len(root)
}

/// The index of the node whose path is `path`, if there is one.
pub open spec fn index_of_path(nodes: Seq<NodeView>, path: Seq<char>) -> Option<NodeId> {
    if exists|i: int| 0 <= i < nodes.len() && #[trigger] nodes[i].path == path {
        Some((choose|i: int| 0 <= i < nodes.len() && #[trigger] nodes[i].path == path) as NodeId)
    } else {
        None
    }
}

/// `nodes` with `child` appended to the children of `parent`.
pub open spec fn with_child(nodes: Seq<NodeView>, parent: NodeId, child: NodeId) -> Seq<NodeView> {
    let p = nodes[parent as int];
    nodes.update(
        parent as int,
        NodeView {
            name: p.name,
            path: p.path,
            size: p.size,
            is_dir: p.is_dir,
            children: p.children.push(child),
            parent: p.parent,
        },
    )
}

/// `nodes` with a new last node `node`, recorded as a child of its parent `parent`.
pub open spec fn with_node(nodes: Seq<NodeView>, node: NodeView, parent: NodeId) -> Seq<NodeView> {
    with_child(nodes.push(node), parent, nodes.len() as NodeId)
}

/// A directory node made for `path` under `parent`, named by `name` as
/// `name_from` says.
pub open spec fn dir_node_from(name: Option<Seq<char>>, path: Seq<char>, parent: NodeId) -> NodeView {
    NodeView {
        name: name_from(name, path),
        path: path,
        size: 0,
        is_dir: true,
        children: Seq::empty(),
        parent: Some(parent),
    }
}

/// A directory node made for `path` under `parent`.
pub open spec fn dir_node(path: Seq<char>, parent: NodeId) -> NodeView {
    NodeView {
        name: name_or_path(path),
        path: path,
        size: 0,
        is_dir: true,
        children: Seq::empty(),
        parent: Some(parent),
    }
}

/// The nodes after looking up the directory `path`, creating it and its
/// missing ancestors below the root node `root_id` where absent, and the
/// index of the directory.
pub open spec fn found_or_created(
    nodes: Seq<NodeView>,
    path: Seq<char>,
    root: Seq<char>,
    root_id: NodeId,
) -> (Seq<NodeView>, NodeId)
    decreases byte_len(path),
{
    match index_of_path(nodes, path) {
        Some(id) => (nodes, id),
        None => {
            let pp = parent_or_root(path, root);
            let (n1, pid) = if stops_at_root(pp, root) {
                (nodes, root_id)
            } else {
                found_or_created(nodes, pp, root, root_id)
            };
            (with_node(n1, dir_node(path, pid), pid), n1.len() as NodeId)
        },
    }
}

/// The shape every arena built here has: node 0 is the root and the only node
/// without a parent; every other node has a parent of smaller index that
/// lists it once among its children; every child has a larger index than its
/// parent and names that parent.
pub open spec fn well_formed(nodes: Seq<NodeView>) -> bool {
    &&& 0 < nodes.len() <= usize::MAX
    &&& nodes[0].parent is None
    &&& forall|i: int, k: int|
        0 <= i < nodes.len() && 0 <= k < nodes[i].children.len() ==> {
            let c = #[trigger] nodes[i].children[k];
            &&& i < c < nodes.len()
            &&& nodes[c as int].parent == Some(i as NodeId)
        }
    &&& forall|i: int, k1: int, k2: int|
        0 <= i < nodes.len() && 0 <= k1 < k2 < nodes[i].children.len()
            ==> #[trigger] nodes[i].children[k1] != #[trigger] nodes[i].children[k2]
    &&& forall|i: int|
        0 < i < nodes.len() ==> match #[trigger] nodes[i].parent {
            Some(p) => p < i && nodes[p as int].children.contains(i as NodeId),
            None => false,
        }
}

/// No two nodes have the same path.
pub open spec fn paths_unique(nodes: Seq<NodeView>) -> bool {
    forall|i: int, j: int|
        0 <= i < nodes.len() && 0 <= j < nodes.len() && #[trigger] nodes[i].path
            == #[trigger] nodes[j].path ==> i == j
}

/// `index` maps exactly the paths of the nodes to their indices.
pub open spec fn indexes(index: Map<Seq<char>, NodeId>, nodes: Seq<NodeView>) -> bool {
    forall|p: Seq<char>| #[trigger]
        index.contains_key(p) == (index_of_path(nodes, p) is Some) && (index.contains_key(p)
            ==> index_of_path(nodes, p) == Some(index[p]))
}

/// The node at `i` keeps its name, path, size, kind and parent in `new`, and
/// its children in `old` come first in `new`.
pub open spec fn node_kept(old: Seq<NodeView>, new: Seq<NodeView>, i: int) -> bool {
    &&& new[i].name == old[i].name
    &&& new[i].path == old[i].path
    &&& new[i].size == old[i].size
    &&& new[i].is_dir == old[i].is_dir
    &&& new[i].parent == old[i].parent
    &&& old[i].children.len() <= new[i].children.len()
    &&& forall|k: int| 0 <= k < old[i].children.len() ==> #[trigger] new[i].children[k] == old[i].children[k]
}

/// `new` holds every node of `old` as it was, children aside, which may only grow.
pub open spec fn grows(old: Seq<NodeView>, new: Seq<NodeView>) -> bool {
    &&& old.len() <= new.len()
    &&& forall|i: int| 0 <= i < old.len() ==> #[trigger] node_kept(old, new, i)
}

proof fn lemma_grows_trans(a: Seq<NodeView>, b: Seq<NodeView>, c: Seq<NodeView>)
    requires
        grows(a, b),
        grows(b, c),
    ensures
        grows(a, c),
{
    assert forall|i: int| 0 <= i < a.len() implies #[trigger] node_kept(a, c, i) by {
        assert(node_kept(a, b, i));
        assert(node_kept(b, c, i));
    }
}

/// Appending a fresh node below an existing parent keeps the arena in shape.
#[verifier::rlimit(30)]
proof fn lemma_with_node(nodes: Seq<NodeView>, node: NodeView, parent: NodeId)
    requires
        well_formed(nodes),
        paths_unique(nodes),
        parent < nodes.len(),
        nodes.len() < usize::MAX,
        node.parent == Some(parent),
        node.children.len() == 0,
        index_of_path(nodes, node.path) is None,
    ensures
        well_formed(with_node(nodes, node, parent)),
        paths_unique(with_node(nodes, node, parent)),
        grows(nodes, with_node(nodes, node, parent)),
        with_node(nodes, node, parent).len() == nodes.len() + 1,
        with_node(nodes, node, parent)[nodes.len() as int] == node,
        forall|p: Seq<char>|
            #[trigger] index_of_path(with_node(nodes, node, parent), p) == if p == node.path {
                Some(nodes.len() as NodeId)
            } else {
                index_of_path(nodes, p)
            },
{
    let new = with_node(nodes, node, parent);
    let id = nodes.len() as NodeId;
    assert(new.len() == nodes.len() + 1);
    assert forall|i: int, k: int|
        0 <= i < new.len() && 0 <= k < new[i].children.len() implies {
            let c = #[trigger] new[i].children[k];
            &&& i < c < new.len()
            &&& new[c as int].parent == Some(i as NodeId)
        } by {
        if i == parent as int {
            if k < nodes[i].children.len() {
                assert(nodes[i].children[k] == new[i].children[k]);
            }
        } else {
            assert(nodes[i].children[k] == new[i].children[k]);
        }
    }
    assert forall|i: int, k1: int, k2: int|
        0 <= i < new.len() && 0 <= k1 < k2 < new[i].children.len()
            implies #[trigger] new[i].children[k1] != #[trigger] new[i].children[k2] by {
        if i == parent as int {
            if k2 < nodes[i].children.len() {
                assert(nodes[i].children[k1] == new[i].children[k1]);
                assert(nodes[i].children[k2] == new[i].children[k2]);
            } else {
                assert(nodes[i].children[k1] == new[i].children[k1]);
                assert(nodes[i].children[k1] < nodes.len());
            }
        } else {
            assert(nodes[i].children[k1] == new[i].children[k1]);
        }
    }
    assert forall|i: int|
        0 < i < new.len() implies match #[trigger] new[i].parent {
            Some(p) => p < i && new[p as int].children.contains(i as NodeId),
            None => false,
        } by {
        if i == id as int {
            assert(new[parent as int].children[nodes[parent as int].children.len() as int] == id);
        } else {
            let p = nodes[i].parent->0;
            assert(nodes[p as int].children.contains(i as NodeId));
            let k = choose|k: int| 0 <= k < nodes[p as int].children.len() && nodes[p as int].children[k] == i as NodeId;
            assert(new[p as int].children[k] == i as NodeId);
        }
    }
    assert forall|i: int| 0 <= i < nodes.len() implies #[trigger] node_kept(nodes, new, i) by {}
    assert forall|i: int, j: int|
        0 <= i < new.len() && 0 <= j < new.len() && #[trigger] new[i].path
            == #[trigger] new[j].path implies i == j by {
        if i == id as int && j != id as int {
            assert(nodes[j].path == node.path);
        }
        if j == id as int && i != id as int {
            assert(nodes[i].path == node.path);
        }
    }
    assert forall|p: Seq<char>|
        #[trigger] index_of_path(new, p) == if p == node.path {
            Some(id)
        } else {
            index_of_path(nodes, p)
        } by {
        if p == node.path {
            lemma_index_of_path(new, p, id as int);
        } else if index_of_path(nodes, p) is Some {
            let i = choose|i: int| 0 <= i < nodes.len() && #[trigger] nodes[i].path == p;
            assert(new[i].path == p);
            lemma_index_of_path(new, p, i);
        } else {
            if exists|i: int| 0 <= i < new.len() && #[trigger] new[i].path == p {
                let i = choose|i: int| 0 <= i < new.len() && #[trigger] new[i].path == p;
                assert(nodes[i].path == p);
            }
        }
    }
}

proof fn lemma_index_of_path(nodes: Seq<NodeView>, path: Seq<char>, i: int)
    requires
        paths_unique(nodes),
        0 <= i < nodes.len(),
        nodes[i].path == path,
    ensures
        index_of_path(nodes, path) == Some(i as NodeId),
{
}

/// Every node but the root hangs under the node of its parent path; where
/// the walk up `stops_at_root`, it hangs under the root node 0.
#[verifier::opaque]
pub open spec fn placed(nodes: Seq<NodeView>, root: Seq<char>) -> bool {
    forall|i: int|
        0 < i < nodes.len() ==> (#[trigger] nodes[i].parent matches Some(p) && p < i && (nodes[p as int].path
            == parent_or_root(nodes[i].path, root) || (p == 0 && stops_at_root(parent_or_root(nodes[i].path, root), root))))
}

proof fn lemma_placed_with_node(mid: Seq<NodeView>, node: NodeView, pid: NodeId, root: Seq<char>)
    requires
        placed(mid, root),
        grows(mid, with_node(mid, node, pid)),
        with_node(mid, node, pid).len() == mid.len() + 1,
        with_node(mid, node, pid)[mid.len() as int] == node,
        pid < mid.len(),
        mid.len() > 0,
        node.parent == Some(pid),
        mid[pid as int].path == parent_or_root(node.path, root) || (pid == 0 && stops_at_root(parent_or_root(node.path, root), root)),
    ensures
        placed(with_node(mid, node, pid), root),
{
    reveal(placed);
    let s = with_node(mid, node, pid);
    assert forall|i: int| 0 < i < s.len() implies (#[trigger] s[i].parent matches Some(p) && p < i && (s[p as int].path
        == parent_or_root(s[i].path, root) || (p == 0 && stops_at_root(parent_or_root(s[i].path, root), root)))) by {
        if i < mid.len() {
            assert(node_kept(mid, s, i));
            let p = mid[i].parent->0;
            assert(mid[i].parent matches Some(q) && q == p);
            if (p as int) < mid.len() {
                assert(node_kept(mid, s, p as int));
            }
        } else {
            assert(node_kept(mid, s, pid as int));
        }
    }
}

proof fn lemma_placed_shape(a: Seq<NodeView>, b: Seq<NodeView>, root: Seq<char>)
    requires
        placed(a, root),
        same_shape(a, b),
    ensures
        placed(b, root),
{
    reveal(placed);
    assert forall|i: int| 0 < i < b.len() implies (#[trigger] b[i].parent matches Some(p) && p < i && (b[p as int].path
        == parent_or_root(b[i].path, root) || (p == 0 && stops_at_root(parent_or_root(b[i].path, root), root)))) by {
        assert(a[i].parent == b[i].parent && a[i].path == b[i].path);
        let p = a[i].parent->0;
        assert(a[i].parent matches Some(q) && q == p);
        if (p as int) < a.len() {
            assert(a[p as int].path == b[p as int].path);
        }
    }
}

#[verifier::rlimit(30)]
proof fn lemma_found_or_created(nodes: Seq<NodeView>, path: Seq<char>, root: Seq<char>, root_id: NodeId)
    requires
        well_formed(nodes),
        paths_unique(nodes),
        root_id < nodes.len(),
        nodes.len() + byte_len(path) + 1 <= usize::MAX,
    ensures
        ({
            let (n1, id) = found_or_created(nodes, path, root, root_id);
            &&& well_formed(n1)
            &&& paths_unique(n1)
            &&& grows(nodes, n1)
            &&& id < n1.len()
            &&& n1[id as int].path == path
            &&& n1.len() <= nodes.len() + byte_len(path) + 1
            &&& forall|i: int| nodes.len() <= i < n1.len() ==> byte_len(#[trigger] n1[i].path) <= byte_len(path)
            &&& root_id == 0 && placed(nodes, root) ==> placed(n1, root)
        }),
    decreases byte_len(path),
{
    assert(grows(nodes, nodes)) by {
        assert forall|i: int| 0 <= i < nodes.len() implies #[trigger] node_kept(nodes, nodes, i) by {}
    }
    match index_of_path(nodes, path) {
        Some(id) => {
            let i = choose|i: int| 0 <= i < nodes.len() && #[trigger] nodes[i].path == path;
            assert(nodes[i].path == path);
        },
        None => {
            let pp = parent_or_root(path, root);
            let (n0, pid) = if stops_at_root(pp, root) {
                (nodes, root_id)
            } else {
                found_or_created(nodes, pp, root, root_id)
            };
            if !stops_at_root(pp, root) {
                lemma_found_or_created(nodes, pp, root, root_id);
            }
            assert(index_of_path(n0, path) is None) by {
                if index_of_path(n0, path) is Some {
                    let i = choose|i: int| 0 <= i < n0.len() && #[trigger] n0[i].path == path;
                    if i < nodes.len() {
                        assert(node_kept(nodes, n0, i));
                    }
                }
            }
            let node = dir_node(path, pid);
            lemma_with_node(n0, node, pid);
            lemma_grows_trans(nodes, n0, with_node(n0, node, pid));
            let n1 = with_node(n0, node, pid);
            if root_id == 0 && placed(nodes, root) {
                lemma_placed_with_node(n0, node, pid, root);
            }
            assert forall|i: int| nodes.len() <= i < n1.len() implies byte_len(#[trigger] n1[i].path) <= byte_len(path) by {
                if i < n0.len() {
                    assert(node_kept(n0, n1, i));
                }
            }
        },
    }
}

/// Looking up a directory again finds the node that the first lookup found
/// or made, and changes nothing.
pub proof fn law_lookup_after_create(nodes: Seq<NodeView>, path: Seq<char>, root: Seq<char>, root_id: NodeId)
    requires
        well_formed(nodes),
        paths_unique(nodes),
        root_id < nodes.len(),
        nodes.len() + byte_len(path) + 1 <= usize::MAX,
    ensures
        found_or_created(found_or_created(nodes, path, root, root_id).0, path, root, root_id)
            == found_or_created(nodes, path, root, root_id),
{
    lemma_found_or_created(nodes, path, root, root_id);
    let (n1, id) = found_or_created(nodes, path, root, root_id);
    lemma_index_of_path(n1, path, id as int);
}

/// `index` points each of its paths at a node with that path.
pub open spec fn index_sound(index: Map<Seq<char>, NodeId>, nodes: Seq<NodeView>) -> bool {
    forall|p: Seq<char>| #[trigger] index.contains_key(p) ==> index[p] < nodes.len() && nodes[index[p] as int].path == p
}

/// What building keeps of the arena and its index: a well-formed arena with
/// one node per path, and an index of exactly those paths.
pub open spec fn build_invariant(index: Map<Seq<char>, NodeId>, nodes: Seq<NodeView>) -> bool {
    &&& well_formed(nodes)
    &&& paths_unique(nodes)
    &&& indexes(index, nodes)
}

/// Looks up the directory `path` in `path_to_id`; where it is absent,
/// creates it, after its missing ancestors, as a child of its parent, the
/// root node `root_id` standing in for any parent that `stops_at_root`.
/// Returns the directory's index. The index keeps what it held and gains
/// the path; the nodes there were keep their fields, their children only
/// gaining new ones; every node made is an empty directory whose path the
/// index holds. Where the arena and its index keep the build invariant,
/// the result is `found_or_created` and the invariant holds after.
#[verifier::rlimit(40)]
pub fn get_or_create(
    arena: &mut Arena,
    path_to_id: &mut StringHashMap<NodeId>,
    path: &str,
    root_path: &str,
    root_id: NodeId,
) -> (id: NodeId)
    requires
        index_sound(old(path_to_id)@, old(arena)@),
        root_id < old(arena)@.len(),
    ensures
        index_sound(final(path_to_id)@, final(arena)@),
        old(path_to_id)@.submap_of(final(path_to_id)@),
        final(path_to_id)@.contains_key(path@),
        final(path_to_id)@[path@] == id,
        forall|k: Seq<char>|
            #[trigger] final(path_to_id)@.contains_key(k) ==> old(path_to_id)@.contains_key(k) || byte_len(k)
                <= byte_len(path@),
        grows(old(arena)@, final(arena)@),
        forall|i: int, k: int|
            0 <= i < old(arena)@.len() && old(arena)@[i].children.len() <= k < final(arena)@[i].children.len()
                ==> old(arena)@.len() <= #[trigger] final(arena)@[i].children[k],
        id < final(arena)@.len(),
        final(arena)@[id as int].path == path@,
        forall|i: int|
            old(arena)@.len() <= i < final(arena)@.len() ==> byte_len(
                #[trigger] final(arena)@[i].path,
            ) <= byte_len(path@),
        forall|i: int| old(arena)@.len() <= i < final(arena)@.len() ==> #[trigger] final(arena)@[i].size == 0,
        forall|i: int| old(arena)@.len() <= i < final(arena)@.len() ==> #[trigger] final(arena)@[i].is_dir,
        forall|i: int|
            old(arena)@.len() <= i < final(arena)@.len() ==> final(path_to_id)@.contains_key(
                #[trigger] final(arena)@[i].path,
            ),
        build_invariant(old(path_to_id)@, old(arena)@) ==> (final(arena)@, id) == found_or_created(
            old(arena)@,
            path@,
            root_path@,
            root_id,
        ) && build_invariant(final(path_to_id)@, final(arena)@),
        build_invariant(old(path_to_id)@, old(arena)@) && root_id == 0 && placed(old(arena)@, root_path@)
            ==> placed(final(arena)@, root_path@),
    decreases byte_len(path@),
{
    let ghost strong = build_invariant(path_to_id@, arena@);
    if let Some(found) = path_to_id.get(path) {
        let id = *found;
        proof {
            assert(path_to_id@.contains_key(path@));
            assert(arena@ == old(arena)@);
            assert(grows(arena@, arena@)) by {
                assert forall|i: int| 0 <= i < arena@.len() implies #[trigger] node_kept(arena@, arena@, i) by {}
            }
            if strong {
                assert(index_of_path(arena@, path@) == Some(id));
            }
        }
        return id;
    }
    proof {
        assert(!path_to_id@.contains_key(path@));
    }
    let ghost pp = parent_or_root(path@, root_path@);
    let ghost before = arena@;
    let ghost map0 = path_to_id@;
    let (parent_path, stops) = parent_dir(parent_of(path), path, root_path);
    assert(parent_path@ == pp);
    let parent_id = if stops {
        root_id
    } else {
        get_or_create(arena, path_to_id, parent_path.as_str(), root_path, root_id)
    };
    let ghost mid = arena@;
    let ghost map1 = path_to_id@;
    proof {
        if stops {
            assert(grows(before, mid)) by {
                assert forall|i: int| 0 <= i < before.len() implies #[trigger] node_kept(before, mid, i) by {}
            }
        } else {
            assert(byte_len(pp) < byte_len(path@));
        }
        assert(!map1.contains_key(path@));
        if strong {
            assert(build_invariant(map1, mid));
            assert(index_of_path(mid, path@) is None) by {
                if index_of_path(mid, path@) is Some {
                    let i = choose|i: int| 0 <= i < mid.len() && #[trigger] mid[i].path == path@;
                    if i < before.len() {
                        assert(node_kept(before, mid, i));
                        assert(before[i].path == path@);
                    }
                }
            }
        }
    }
    let id = arena.add(dir_node_for(file_name_of(path), path, parent_id));
    path_to_id.insert(path.to_owned(), id);
    // The new length is that of a vector, so it fits in a `usize`.
    assert(arena@.len() == arena.nodes@.len());
    assert(arena.nodes.len() == mid.len() + 1);
    arena.get_mut(parent_id).children.push(id);
    proof {
        let node = dir_node(path@, parent_id);
        assert(arena@ =~= with_node(mid, node, parent_id));
        assert(grows(mid, arena@)) by {
            assert forall|i: int| 0 <= i < mid.len() implies #[trigger] node_kept(mid, arena@, i) by {
                assert(arena@[i] == with_child(mid.push(node), parent_id, id)[i]);
            }
        }
        lemma_grows_trans(before, mid, arena@);
        assert(map1.submap_of(path_to_id@));
        assert forall|k: Seq<char>| #[trigger] path_to_id@.contains_key(k) implies path_to_id@[k] < arena@.len()
            && arena@[path_to_id@[k] as int].path == k by {
            if k != path@ {
                assert(map1.contains_key(k));
                assert(node_kept(mid, arena@, map1[k] as int));
            }
        }
        assert forall|i: int, k: int|
            0 <= i < before.len() && before[i].children.len() <= k < arena@[i].children.len() implies before.len()
                <= #[trigger] arena@[i].children[k] by {
            assert(node_kept(mid, arena@, i));
            if k < mid[i].children.len() {
                assert(arena@[i].children[k] == mid[i].children[k]);
            }
        }
        assert forall|i: int| before.len() <= i < arena@.len() implies path_to_id@.contains_key(
            #[trigger] arena@[i].path,
        ) by {
            if i < mid.len() {
                assert(node_kept(mid, arena@, i));
                assert(map1.contains_key(mid[i].path));
            }
        }
        if strong {
            assert(found_or_created(before, path@, root_path@, root_id) == (with_node(mid, node, parent_id), id));
            lemma_with_node(mid, node, parent_id);
            if root_id == 0 && placed(before, root_path@) {
                if stops {
                    assert(mid == before);
                }
                lemma_placed_with_node(mid, node, parent_id, root_path@);
            }
        }
    }
    id
}

/// The node made for the root path `root`, named by `name` as `name_from` says.
pub open spec fn root_node_from(name: Option<Seq<char>>, root: Seq<char>) -> NodeView {
    NodeView {
        name: name_from(name, root),
        path: root,
        size: 0,
        is_dir: true,
        children: Seq::empty(),
        parent: None,
    }
}

/// The directory that `path` hangs under, from `parent`, the parent that the
/// path library reports for it (shorter than the path, as `parent_of`
/// states), and whether the walk up stops there, at the root.
pub fn parent_dir(parent: Option<String>, path: &str, root_path: &str) -> (res: (String, bool))
    requires
        match parent {
            Some(p) => byte_len(p@) < byte_len(path@),
            None => true,
        },
    ensures
        res.0@ == parent_or_root_from(text_opt(parent), path@, root_path@),
        res.1 == stops_at_root(res.0@, root_path@),
{
    let p = match parent {
        Some(p) => p,
        None => root_path.to_owned(),
    };
    let stops = same_text(p.as_str(), root_path) || text_len(p.as_str()) < text_len(root_path);
    (p, stops)
}

/// The node for the directory `path` under `parent`, named by `name`, the
/// final component that the path library reports, or by the whole path
/// where there is none.
pub fn dir_node_for(name: Option<String>, path: &str, parent: NodeId) -> (node: Node)
    ensures
        node@ == dir_node_from(text_opt(name), path@, parent),
{
    let name = match name {
        Some(n) => n,
        None => path.to_owned(),
    };
    let node = Node { name, path: path.to_owned(), size: 0, is_dir: true, children: Vec::new(), parent: Some(parent) };
    proof {
        assert(node@.children =~= Seq::<NodeId>::empty());
    }
    node
}

/// The node for the root path `root_path`, named by `name`, the final
/// component that the path library reports, or by the whole path where
/// there is none.
pub fn root_node_for(name: Option<String>, root_path: &str) -> (node: Node)
    ensures
        node@ == root_node_from(text_opt(name), root_path@),
{
    let name = match name {
        Some(n) => n,
        None => root_path.to_owned(),
    };
    let node = Node { name, path: root_path.to_owned(), size: 0, is_dir: true, children: Vec::new(), parent: None };
    proof {
        assert(node@.children =~= Seq::<NodeId>::empty());
    }
    node
}

/// The node made for the root path `root`.
pub open spec fn root_node(root: Seq<char>) -> NodeView {
    NodeView {
        name: name_or_path(root),
        path: root,
        size: 0,
        is_dir: true,
        children: Seq::empty(),
        parent: None,
    }
}

/// The node made for the scanned entry `f` under `parent`.
pub open spec fn file_node(f: FileInfoView, parent: NodeId) -> NodeView {
    NodeView {
        name: f.name,
        path: f.path,
        size: f.size,
        is_dir: f.is_dir,
        children: Seq::empty(),
        parent: Some(parent),
    }
}

/// The nodes after taking in the entry `f`: the root itself is skipped; the
/// entry's parent directory is found or created; an entry already present
/// only has its size replaced, and only where it is not a directory; a new
/// entry becomes the last child of its parent.
pub open spec fn inserted(nodes: Seq<NodeView>, f: FileInfoView, root: Seq<char>) -> Seq<NodeView> {
    if f.path == root {
        nodes
    } else {
        let (n1, pid) = found_or_created(nodes, parent_or_root(f.path, root), root, 0);
        match index_of_path(n1, f.path) {
            Some(id) => if f.is_dir {
                n1
            } else {
                n1.update(id as int, NodeView { size: f.size, ..n1[id as int] })
            },
            None => with_node(n1, file_node(f, pid), pid),
        }
    }
}

/// The nodes after taking in `files` in order, starting from the root node
/// alone; own sizes only.
pub open spec fn built(root: Seq<char>, files: Seq<FileInfoView>) -> Seq<NodeView>
    decreases files.len(),
{
    if files.len() == 0 {
        seq![root_node(root)]
    } else {
        inserted(built(root, files.drop_last()), files.last(), root)
    }
}

/// `nodes` with every size replaced by the size of its subtree.
pub open spec fn with_subtree_sizes(nodes: Seq<NodeView>) -> Seq<NodeView> {
    Seq::new(nodes.len(), |j: int| NodeView { size: subtree_size(nodes, j) as u64, ..nodes[j] })
}

/// The tree that `build_tree` gives for the root path `root` and the entries `files`.
pub open spec fn tree_of(root: Seq<char>, files: Seq<FileInfoView>) -> Seq<NodeView> {
    with_subtree_sizes(built(root, files))
}

proof fn lemma_own_sizes_eq(a: Seq<NodeView>, b: Seq<NodeView>, m: int)
    requires
        0 <= m <= a.len(),
        m <= b.len(),
        forall|j: int| 0 <= j < m ==> #[trigger] a[j].size == b[j].size,
    ensures
        own_sizes(a, m) == own_sizes(b, m),
    decreases m,
{
    if m > 0 {
        lemma_own_sizes_eq(a, b, m - 1);
    }
}

proof fn lemma_own_grows(a: Seq<NodeView>, b: Seq<NodeView>, m: int)
    requires
        grows(a, b),
        a.len() <= m <= b.len(),
        forall|j: int| a.len() <= j < b.len() ==> #[trigger] b[j].size == 0,
    ensures
        own_sizes(b, m) == own_total(a),
    decreases m,
{
    if m == a.len() {
        assert forall|j: int| 0 <= j < m implies #[trigger] a[j].size == b[j].size by {
            assert(node_kept(a, b, j));
        }
        lemma_own_sizes_eq(a, b, m);
    } else {
        lemma_own_grows(a, b, m - 1);
    }
}

proof fn lemma_own_update(a: Seq<NodeView>, i: int, x: NodeView, m: int)
    requires
        0 <= i < a.len(),
        0 <= m <= a.len(),
    ensures
        own_sizes(a.update(i, x), m) + (if i < m { a[i].size as nat } else { 0 }) == own_sizes(a, m) + (
        if i < m {
            x.size as nat
        } else {
            0
        }),
    decreases m,
{
    if m > 0 {
        lemma_own_update(a, i, x, m - 1);
    }
}

/// Sizes kept on the first nodes and zero on the added ones leave the sum of
/// own sizes as it was.
proof fn lemma_own_zero_tail(a: Seq<NodeView>, b: Seq<NodeView>, m: int)
    requires
        a.len() <= m <= b.len(),
        forall|j: int| 0 <= j < a.len() ==> #[trigger] b[j].size == a[j].size,
        forall|j: int| a.len() <= j < b.len() ==> #[trigger] b[j].size == 0,
    ensures
        own_sizes(b, m) == own_total(a),
    decreases m,
{
    if m == a.len() {
        lemma_own_sizes_eq(a, b, m);
    } else {
        lemma_own_zero_tail(a, b, m - 1);
    }
}

/// Looking up or creating a directory keeps the nodes there were, children
/// aside, and adds only empty directories named by their paths.
proof fn lemma_found_or_created_keeps(nodes: Seq<NodeView>, path: Seq<char>, root: Seq<char>, root_id: NodeId)
    requires
        root_id < nodes.len(),
    ensures
        ({
            let (n1, id) = found_or_created(nodes, path, root, root_id);
            &&& nodes.len() <= n1.len()
            &&& id < n1.len()
            &&& forall|j: int| 0 <= j < nodes.len() ==> #[trigger] n1[j].size == nodes[j].size
            &&& forall|j: int| 0 <= j < nodes.len() ==> #[trigger] n1[j].path == nodes[j].path
            &&& forall|j: int| 0 <= j < nodes.len() ==> #[trigger] n1[j].name == nodes[j].name
            &&& forall|j: int| 0 <= j < nodes.len() ==> #[trigger] n1[j].is_dir == nodes[j].is_dir
            &&& forall|j: int| nodes.len() <= j < n1.len() ==> #[trigger] n1[j].size == 0
            &&& forall|j: int| nodes.len() <= j < n1.len() ==> #[trigger] n1[j].name == name_or_path(n1[j].path)
            &&& forall|j: int| nodes.len() <= j < n1.len() ==> #[trigger] n1[j].is_dir
        }),
    decreases byte_len(path),
{
    match index_of_path(nodes, path) {
        Some(id) => {
            let i = choose|i: int| 0 <= i < nodes.len() && #[trigger] nodes[i].path == path;
            if i > usize::MAX {
                assert(id <= usize::MAX);
            }
        },
        None => {
            let pp = parent_or_root(path, root);
            let (n0, pid) = if stops_at_root(pp, root) {
                (nodes, root_id)
            } else {
                found_or_created(nodes, pp, root, root_id)
            };
            if !stops_at_root(pp, root) {
                lemma_found_or_created_keeps(nodes, pp, root, root_id);
            }
            let n1 = with_node(n0, dir_node(path, pid), pid);
            assert(n1.len() == n0.len() + 1);
            assert forall|j: int| 0 <= j < n0.len() implies #[trigger] n1[j].size == n0[j].size && n1[j].path
                == n0[j].path && n1[j].name == n0[j].name && n1[j].is_dir == n0[j].is_dir by {
                assert(n1[j].size == n0.push(dir_node(path, pid))[j].size);
                assert(n1[j].path == n0.push(dir_node(path, pid))[j].path);
                assert(n1[j].name == n0.push(dir_node(path, pid))[j].name);
                assert(n1[j].is_dir == n0.push(dir_node(path, pid))[j].is_dir);
            }
            assert(n1[n0.len() as int].size == 0);
            if n0.len() > usize::MAX {
                assert((n0.len() as NodeId) <= usize::MAX);
            }
        },
    }
}

proof fn lemma_inserted_own(nodes: Seq<NodeView>, f: FileInfoView, root: Seq<char>)
    requires
        nodes.len() > 0,
    ensures
        inserted(nodes, f, root).len() > 0,
        own_total(inserted(nodes, f, root)) <= own_total(nodes) + f.size,
{
    if f.path != root {
        lemma_found_or_created_keeps(nodes, parent_or_root(f.path, root), root, 0);
        let (n1, pid) = found_or_created(nodes, parent_or_root(f.path, root), root, 0);
        lemma_own_zero_tail(nodes, n1, n1.len() as int);
        match index_of_path(n1, f.path) {
            Some(id) => {
                if !f.is_dir {
                    let i = choose|i: int| 0 <= i < n1.len() && #[trigger] n1[i].path == f.path;
                    if i > usize::MAX {
                        assert(id <= usize::MAX);
                    }
                    let x = NodeView { size: f.size, ..n1[id as int] };
                    lemma_own_update(n1, id as int, x, n1.len() as int);
                }
            },
            None => {
                let node = file_node(f, pid);
                let p = n1.push(node);
                let s = with_node(n1, node, pid);
                lemma_own_sizes_eq(n1, p, n1.len() as int);
                assert(own_sizes(p, p.len() as int) == own_sizes(p, n1.len() as int) + f.size);
                assert forall|j: int| 0 <= j < p.len() implies #[trigger] s[j].size == p[j].size by {}
                lemma_own_sizes_eq(p, s, p.len() as int);
            },
        }
    }
}

/// The own sizes of the nodes built from `files` add up to no more than the
/// sizes of the entries: every node holds the size of one entry or none,
/// and an entry met again only replaces the size it gave before.
pub proof fn law_built_within_sizes(root: Seq<char>, files: Seq<FileInfoView>)
    ensures
        built(root, files).len() > 0,
        own_total(built(root, files)) <= sizes_sum(files),
    decreases files.len(),
{
    if files.len() == 0 {
        assert(own_sizes(built(root, files), 1) == own_sizes(built(root, files), 0) + 0);
    } else {
        law_built_within_sizes(root, files.drop_last());
        lemma_inserted_own(built(root, files.drop_last()), files.last(), root);
    }
}

/// Whether some node of `nodes` has the path `p`.
pub open spec fn has_path(nodes: Seq<NodeView>, p: Seq<char>) -> bool {
    exists|i: int| 0 <= i < nodes.len() && #[trigger] nodes[i].path == p
}

/// The directories met walking up from `p`: `p` itself and, unless the walk
/// stops at the root, the chain of its parent.
pub open spec fn chain(p: Seq<char>, root: Seq<char>) -> Set<Seq<char>>
    decreases byte_len(p),
{
    let pp = parent_or_root(p, root);
    if stops_at_root(pp, root) {
        set![p]
    } else {
        set![p] + chain(pp, root)
    }
}

/// The paths that taking in the entry `f` makes sure of: none for the root
/// itself, else the entry's own path and the chain of its parent.
pub open spec fn entry_paths(f: FileInfoView, root: Seq<char>) -> Set<Seq<char>> {
    if f.path == root {
        Set::empty()
    } else {
        set![f.path] + chain(parent_or_root(f.path, root), root)
    }
}

/// Every path of `nodes` comes with the chain above it.
pub open spec fn chains_present(nodes: Seq<NodeView>, root: Seq<char>) -> bool {
    forall|p: Seq<char>, q: Seq<char>|
        #![trigger has_path(nodes, p), chain(p, root).contains(q)]
        has_path(nodes, p) && chain(p, root).contains(q) ==> has_path(nodes, q)
}

/// Appending a node under a parent inside the arena adds its path and keeps the others.
proof fn lemma_with_node_paths(nodes: Seq<NodeView>, node: NodeView, pid: NodeId)
    requires
        pid < nodes.len(),
    ensures
        forall|p: Seq<char>| #[trigger] has_path(with_node(nodes, node, pid), p) == (has_path(nodes, p) || p == node.path),
{
    let s = with_node(nodes, node, pid);
    assert(s.len() == nodes.len() + 1);
    assert forall|i: int| 0 <= i < nodes.len() implies #[trigger] s[i].path == nodes[i].path by {
        assert(s[i].path == nodes.push(node)[i].path);
    }
    assert(s[nodes.len() as int].path == node.path);
    assert forall|p: Seq<char>| #[trigger] has_path(s, p) == (has_path(nodes, p) || p == node.path) by {
        if has_path(s, p) {
            let i = choose|i: int| 0 <= i < s.len() && #[trigger] s[i].path == p;
            if i < nodes.len() {
                assert(nodes[i].path == p);
            }
        }
        if has_path(nodes, p) {
            let i = choose|i: int| 0 <= i < nodes.len() && #[trigger] nodes[i].path == p;
            assert(s[i].path == p);
        }
    }
}

proof fn lemma_found_or_created_paths(nodes: Seq<NodeView>, q: Seq<char>, root: Seq<char>, root_id: NodeId)
    requires
        root_id < nodes.len(),
        chains_present(nodes, root),
    ensures
        ({
            let n1 = found_or_created(nodes, q, root, root_id).0;
            &&& chains_present(n1, root)
            &&& forall|p: Seq<char>| #[trigger] has_path(n1, p) == (has_path(nodes, p) || chain(q, root).contains(p))
        }),
    decreases byte_len(q),
{
    match index_of_path(nodes, q) {
        Some(id) => {
            let i = choose|i: int| 0 <= i < nodes.len() && #[trigger] nodes[i].path == q;
            assert(has_path(nodes, q));
            assert forall|p: Seq<char>| chain(q, root).contains(p) implies #[trigger] has_path(nodes, p) by {}
        },
        None => {
            let pp = parent_or_root(q, root);
            let (n0, pid) = if stops_at_root(pp, root) {
                (nodes, root_id)
            } else {
                found_or_created(nodes, pp, root, root_id)
            };
            if !stops_at_root(pp, root) {
                lemma_found_or_created_paths(nodes, pp, root, root_id);
                lemma_found_or_created_keeps(nodes, pp, root, root_id);
            }
            let n1 = with_node(n0, dir_node(q, pid), pid);
            lemma_with_node_paths(n0, dir_node(q, pid), pid);
            assert forall|p: Seq<char>| #[trigger] has_path(n1, p) == (has_path(nodes, p) || chain(q, root).contains(p)) by {
                assert(has_path(n1, p) == (has_path(n0, p) || p == q));
            }
            assert forall|p: Seq<char>, x: Seq<char>|
                #![trigger has_path(n1, p), chain(p, root).contains(x)]
                has_path(n1, p) && chain(p, root).contains(x) implies has_path(n1, x) by {
                assert(has_path(n1, x) == (has_path(n0, x) || x == q));
                if p != q {
                    assert(has_path(n0, p));
                    assert(has_path(n0, x));
                }
            }
        },
    }
}

proof fn lemma_inserted_paths(nodes: Seq<NodeView>, f: FileInfoView, root: Seq<char>)
    requires
        nodes.len() > 0,
        chains_present(nodes, root),
    ensures
        chains_present(inserted(nodes, f, root), root),
        forall|p: Seq<char>| #[trigger] has_path(inserted(nodes, f, root), p) == (has_path(nodes, p) || entry_paths(f, root).contains(p)),
{
    if f.path != root {
        let pp = parent_or_root(f.path, root);
        lemma_found_or_created_paths(nodes, pp, root, 0);
        lemma_found_or_created_keeps(nodes, pp, root, 0);
        let (n1, pid) = found_or_created(nodes, pp, root, 0);
        let s = inserted(nodes, f, root);
        match index_of_path(n1, f.path) {
            Some(id) => {
                let i = choose|i: int| 0 <= i < n1.len() && #[trigger] n1[i].path == f.path;
                if i > usize::MAX {
                    assert(id <= usize::MAX);
                }
                assert(has_path(n1, f.path));
                assert forall|k: int| 0 <= k < n1.len() implies #[trigger] s[k].path == n1[k].path by {}
                assert forall|p: Seq<char>| #[trigger] has_path(s, p) == has_path(n1, p) by {
                    if has_path(s, p) {
                        let k = choose|k: int| 0 <= k < s.len() && #[trigger] s[k].path == p;
                        assert(n1[k].path == p);
                    }
                    if has_path(n1, p) {
                        let k = choose|k: int| 0 <= k < n1.len() && #[trigger] n1[k].path == p;
                        assert(s[k].path == p);
                    }
                }
            },
            None => {
                lemma_with_node_paths(n1, file_node(f, pid), pid);
            },
        }
        assert forall|p: Seq<char>, x: Seq<char>|
            #![trigger has_path(s, p), chain(p, root).contains(x)]
            has_path(s, p) && chain(p, root).contains(x) implies has_path(s, x) by {
            assert(has_path(s, x) == (has_path(n1, x) || x == f.path));
            if p != f.path {
                assert(has_path(n1, p));
                assert(has_path(n1, x));
            }
        }
    }
}

proof fn lemma_built_paths(root: Seq<char>, files: Seq<FileInfoView>)
    ensures
        built(root, files).len() > 0,
        chains_present(built(root, files), root),
        forall|p: Seq<char>| #[trigger] has_path(built(root, files), p) == (p == root || exists|m: int|
            0 <= m < files.len() && #[trigger] entry_paths(files[m], root).contains(p)),
    decreases files.len(),
{
    let b = built(root, files);
    law_built_within_sizes(root, files);
    if files.len() == 0 {
        assert(b[0].path == root);
        assert forall|p: Seq<char>| #[trigger] has_path(b, p) == (p == root) by {
            if p == root {
                assert(b[0].path == p);
            }
        }
        let pr = parent_or_root(root, root);
        assert(stops_at_root(pr, root));
        assert(chain(root, root) == set![root]);
    } else {
        let rest = files.drop_last();
        lemma_built_paths(root, rest);
        law_built_within_sizes(root, rest);
        lemma_inserted_paths(built(root, rest), files.last(), root);
        assert forall|p: Seq<char>| #[trigger] has_path(b, p) == (p == root || exists|m: int|
            0 <= m < files.len() && #[trigger] entry_paths(files[m], root).contains(p)) by {
            if exists|m: int| 0 <= m < files.len() && #[trigger] entry_paths(files[m], root).contains(p) {
                let m = choose|m: int| 0 <= m < files.len() && #[trigger] entry_paths(files[m], root).contains(p);
                if m < rest.len() {
                    assert(rest[m] == files[m]);
                    assert(entry_paths(rest[m], root).contains(p));
                }
            }
            if exists|m: int| 0 <= m < rest.len() && #[trigger] entry_paths(rest[m], root).contains(p) {
                let m = choose|m: int| 0 <= m < rest.len() && #[trigger] entry_paths(rest[m], root).contains(p);
                assert(files[m] == rest[m]);
                assert(entry_paths(files[m], root).contains(p));
            }
            if entry_paths(files.last(), root).contains(p) {
                assert(entry_paths(files[files.len() - 1], root).contains(p));
            }
        }
    }
}

/// The paths of the tree built from the entries do not depend on the order
/// in which the entries come: entries rearranged give a tree with the same
/// paths.
pub proof fn law_paths_ignore_order(root: Seq<char>, files1: Seq<FileInfoView>, files2: Seq<FileInfoView>)
    requires
        files1.to_multiset() == files2.to_multiset(),
    ensures
        forall|p: Seq<char>|
            #[trigger] index_of_path(tree_of(root, files1), p) is Some == index_of_path(tree_of(root, files2), p) is Some,
{
    broadcast use vstd::seq_lib::to_multiset_contains;

    lemma_built_paths(root, files1);
    lemma_built_paths(root, files2);
    let (b1, b2) = (built(root, files1), built(root, files2));
    let (t1, t2) = (tree_of(root, files1), tree_of(root, files2));
    assert forall|p: Seq<char>| #[trigger] index_of_path(t1, p) is Some == index_of_path(t2, p) is Some by {
        assert(index_of_path(t1, p) is Some == has_path(b1, p)) by {
            if has_path(b1, p) {
                let i = choose|i: int| 0 <= i < b1.len() && #[trigger] b1[i].path == p;
                assert(t1[i].path == p);
            }
            if index_of_path(t1, p) is Some {
                let i = choose|i: int| 0 <= i < t1.len() && #[trigger] t1[i].path == p;
                assert(b1[i].path == p);
            }
        }
        assert(index_of_path(t2, p) is Some == has_path(b2, p)) by {
            if has_path(b2, p) {
                let i = choose|i: int| 0 <= i < b2.len() && #[trigger] b2[i].path == p;
                assert(t2[i].path == p);
            }
            if index_of_path(t2, p) is Some {
                let i = choose|i: int| 0 <= i < t2.len() && #[trigger] t2[i].path == p;
                assert(b2[i].path == p);
            }
        }
        if exists|m: int| 0 <= m < files1.len() && #[trigger] entry_paths(files1[m], root).contains(p) {
            let m = choose|m: int| 0 <= m < files1.len() && #[trigger] entry_paths(files1[m], root).contains(p);
            assert(files1.contains(files1[m]));
            assert(files1.to_multiset().count(files1[m]) > 0);
            assert(files2.to_multiset().count(files1[m]) > 0);
            assert(files2.contains(files1[m]));
            let k = choose|k: int| 0 <= k < files2.len() && files2[k] == files1[m];
            assert(entry_paths(files2[k], root).contains(p));
        }
        if exists|m: int| 0 <= m < files2.len() && #[trigger] entry_paths(files2[m], root).contains(p) {
            let m = choose|m: int| 0 <= m < files2.len() && #[trigger] entry_paths(files2[m], root).contains(p);
            assert(files2.contains(files2[m]));
            assert(files2.to_multiset().count(files2[m]) > 0);
            assert(files1.to_multiset().count(files2[m]) > 0);
            assert(files1.contains(files2[m]));
            let k = choose|k: int| 0 <= k < files1.len() && files1[k] == files2[m];
            assert(entry_paths(files1[k], root).contains(p));
        }
    }
}

/// The room that taking in `files` below `root` can need in an arena: one
/// node for the root and, per entry, no more nodes than the bytes of its
/// path and of the root path, and two more.
pub open spec fn entries_room(root: Seq<char>, files: Seq<FileInfoView>) -> nat
    decreases files.len(),
{
    if files.len() == 0 {
        1
    } else {
        entries_room(root, files.drop_last()) + byte_len(files.last().path) + byte_len(root) + 2
    }
}

#[verifier::rlimit(30)]
proof fn lemma_inserted_shape(nodes: Seq<NodeView>, f: FileInfoView, root: Seq<char>)
    requires
        well_formed(nodes),
        paths_unique(nodes),
        placed(nodes, root),
        nodes[0].path == root,
        nodes.len() + byte_len(f.path) + byte_len(root) + 2 <= usize::MAX,
    ensures
        ({
            let s = inserted(nodes, f, root);
            &&& well_formed(s)
            &&& paths_unique(s)
            &&& placed(s, root)
            &&& s[0].path == root
            &&& s.len() <= nodes.len() + byte_len(f.path) + byte_len(root) + 2
        }),
{
    if f.path != root {
        let pp = parent_or_root(f.path, root);
        assert(byte_len(pp) <= byte_len(f.path) + byte_len(root));
        lemma_found_or_created(nodes, pp, root, 0);
        let (n1, pid) = found_or_created(nodes, pp, root, 0);
        assert(node_kept(nodes, n1, 0));
        match index_of_path(n1, f.path) {
            Some(id) => {
                let i = choose|i: int| 0 <= i < n1.len() && #[trigger] n1[i].path == f.path;
                lemma_index_of_path(n1, f.path, i);
                if !f.is_dir {
                    lemma_resized(n1, id as int, f.size, root);
                }
            },
            None => {
                lemma_added(n1, file_node(f, pid), pid, root);
            },
        }
    }
}

/// Where the entries leave room in a `usize`, the nodes taken in from them
/// are well formed, one per path, each under the node of its parent path.
proof fn lemma_built_shape(root: Seq<char>, files: Seq<FileInfoView>)
    requires
        entries_room(root, files) <= usize::MAX,
    ensures
        well_formed(built(root, files)),
        paths_unique(built(root, files)),
        placed(built(root, files), root),
        built(root, files)[0].path == root,
        built(root, files).len() <= entries_room(root, files),
    decreases files.len(),
{
    if files.len() == 0 {
        reveal(placed);
    } else {
        lemma_built_shape(root, files.drop_last());
        lemma_inserted_shape(built(root, files.drop_last()), files.last(), root);
    }
}

/// The tree built from the entries does not depend on their order, as far
/// as paths and parents go: entries rearranged give a tree with the same
/// paths and the same root, in which every node hangs under a node with the
/// same path as before, wherever that parent path is not shorter than the
/// root (a path outside the root may hang under the root or under its
/// parent, as the entries come).
#[verifier::rlimit(30)]
pub proof fn law_tree_ignores_order(root: Seq<char>, files1: Seq<FileInfoView>, files2: Seq<FileInfoView>)
    requires
        files1.to_multiset() == files2.to_multiset(),
        entries_room(root, files1) <= usize::MAX,
        entries_room(root, files2) <= usize::MAX,
    ensures
        forall|p: Seq<char>|
            #[trigger] index_of_path(tree_of(root, files1), p) is Some == index_of_path(tree_of(root, files2), p) is Some,
        tree_of(root, files1)[0].path == root,
        tree_of(root, files2)[0].path == root,
        forall|i1: int, i2: int|
            0 < i1 < tree_of(root, files1).len() && 0 <= i2 < tree_of(root, files2).len() && #[trigger] tree_of(
                root,
                files1,
            )[i1].path == #[trigger] tree_of(root, files2)[i2].path && byte_len(root) <= byte_len(
                parent_or_root(tree_of(root, files1)[i1].path, root),
            ) ==> 0 < i2 && tree_of(root, files1)[tree_of(root, files1)[i1].parent->0 as int].path == tree_of(
                root,
                files2,
            )[tree_of(root, files2)[i2].parent->0 as int].path,
        forall|i1: int, i2: int, j1: int, j2: int|
            #![trigger tree_of(root, files1)[i1].children.contains(j1 as NodeId), tree_of(root, files2)[i2].path, tree_of(root, files2)[j2].path]
            0 <= i1 < tree_of(root, files1).len() && 0 <= i2 < tree_of(root, files2).len() && 0 < j1 < tree_of(
                root,
                files1,
            ).len() && 0 <= j2 < tree_of(root, files2).len() && tree_of(root, files1)[i1].path == tree_of(
                root,
                files2,
            )[i2].path && tree_of(root, files1)[j1].path == tree_of(root, files2)[j2].path && byte_len(root)
                <= byte_len(parent_or_root(tree_of(root, files1)[j1].path, root)) ==> tree_of(
                root,
                files1,
            )[i1].children.contains(j1 as NodeId) == tree_of(root, files2)[i2].children.contains(j2 as NodeId),
{
    law_paths_ignore_order(root, files1, files2);
    lemma_built_shape(root, files1);
    lemma_built_shape(root, files2);
    let (b1, b2) = (built(root, files1), built(root, files2));
    let (t1, t2) = (tree_of(root, files1), tree_of(root, files2));
    assert(t1[0].path == b1[0].path);
    assert(t2[0].path == b2[0].path);
    assert forall|i1: int, i2: int|
        0 < i1 < t1.len() && 0 <= i2 < t2.len() && #[trigger] t1[i1].path == #[trigger] t2[i2].path && byte_len(root)
            <= byte_len(parent_or_root(t1[i1].path, root)) implies 0 < i2 && t1[t1[i1].parent->0 as int].path
        == t2[t2[i2].parent->0 as int].path by {
        reveal(placed);
        let p = t1[i1].path;
        assert(b1[i1].path == p && b1[i1].parent == t1[i1].parent);
        assert(b2[i2].path == p && b2[i2].parent == t2[i2].parent);
        assert(b1[0].path == root);
        assert(p != root);
        assert(i2 != 0);
        assert(b1[i1].parent matches Some(q) && q < i1);
        assert(b2[i2].parent matches Some(q) && q < i2);
        let q1 = b1[i1].parent->0 as int;
        let q2 = b2[i2].parent->0 as int;
        assert(t1[q1].path == b1[q1].path);
        assert(t2[q2].path == b2[q2].path);
    }
    assert(same_shape(b1, t1));
    assert(same_shape(b2, t2));
    lemma_same_shape_well_formed(b1, t1);
    lemma_same_shape_well_formed(b2, t2);
    lemma_same_shape_paths(b1, t1);
    lemma_same_shape_paths(b2, t2);
    assert forall|i1: int, i2: int, j1: int, j2: int|
        #![trigger t1[i1].children.contains(j1 as NodeId), t2[i2].path, t2[j2].path]
        0 <= i1 < t1.len() && 0 <= i2 < t2.len() && 0 < j1 < t1.len() && 0 <= j2 < t2.len() && t1[i1].path
            == t2[i2].path && t1[j1].path == t2[j2].path && byte_len(root) <= byte_len(parent_or_root(t1[j1].path, root))
            implies t1[i1].children.contains(j1 as NodeId) == t2[i2].children.contains(j2 as NodeId) by {
        assert(t1[j1].path == t2[j2].path);
        lemma_children_follow_parents(t1, t2, i1, i2, j1, j2);
    }
}

/// In two well-formed arenas with one node per path, a node lists a child
/// in the one exactly where the node of the same path lists the child of the
/// same path in the other, if the two children have parents of one path.
proof fn lemma_children_follow_parents(t1: Seq<NodeView>, t2: Seq<NodeView>, i1: int, i2: int, j1: int, j2: int)
    requires
        well_formed(t1),
        well_formed(t2),
        paths_unique(t1),
        paths_unique(t2),
        0 <= i1 < t1.len(),
        0 <= i2 < t2.len(),
        0 < j1 < t1.len(),
        0 < j2 < t2.len(),
        t1[i1].path == t2[i2].path,
        t1[t1[j1].parent->0 as int].path == t2[t2[j2].parent->0 as int].path,
    ensures
        t1[i1].children.contains(j1 as NodeId) == t2[i2].children.contains(j2 as NodeId),
{
    let q1 = t1[j1].parent->0 as int;
    let q2 = t2[j2].parent->0 as int;
    assert(t1[j1].parent matches Some(q) && q < j1);
    assert(t2[j2].parent matches Some(q) && q < j2);
    assert(t1[i1].children.contains(j1 as NodeId) == (q1 == i1)) by {
        if t1[i1].children.contains(j1 as NodeId) {
            let k = choose|k: int| 0 <= k < t1[i1].children.len() && t1[i1].children[k] == j1 as NodeId;
            assert(t1[j1].parent == Some(i1 as NodeId));
        }
    }
    assert(t2[i2].children.contains(j2 as NodeId) == (q2 == i2)) by {
        if t2[i2].children.contains(j2 as NodeId) {
            let k = choose|k: int| 0 <= k < t2[i2].children.len() && t2[i2].children[k] == j2 as NodeId;
            assert(t2[j2].parent == Some(i2 as NodeId));
        }
    }
}

/// The sum of the sizes of the entries other than the root itself.
pub open spec fn entries_below_sum(files: Seq<FileInfoView>, root: Seq<char>) -> nat
    decreases files.len(),
{
    if files.len() == 0 {
        0
    } else {
        entries_below_sum(files.drop_last(), root) + if files.last().path == root {
            0
        } else {
            files.last().size as nat
        }
    }
}

/// No two entries share a path, and a directory entry has no size of its own.
pub open spec fn entries_distinct(files: Seq<FileInfoView>) -> bool {
    &&& paths_distinct(files)
    &&& forall|i: int| 0 <= i < files.len() && #[trigger] files[i].is_dir ==> files[i].size == 0
}

#[verifier::rlimit(30)]
proof fn lemma_built_own_exact(root: Seq<char>, files: Seq<FileInfoView>)
    requires
        entries_distinct(files),
        entries_room(root, files) <= usize::MAX,
    ensures
        own_total(built(root, files)) == entries_below_sum(files, root),
        forall|i: int|
            0 <= i < built(root, files).len() && (forall|m: int| 0 <= m < files.len() ==> files[m].path
                != #[trigger] built(root, files)[i].path) ==> built(root, files)[i].size == 0,
    decreases files.len(),
{
    let b = built(root, files);
    if files.len() == 0 {
        assert(own_sizes(b, 1) == own_sizes(b, 0) + 0);
    } else {
        let rest = files.drop_last();
        let f = files.last();
        assert(entries_distinct(rest)) by {
            assert forall|i: int, j: int| 0 <= i < j < rest.len() implies #[trigger] rest[i].path != #[trigger] rest[j].path by {
                assert(rest[i] == files[i] && rest[j] == files[j]);
            }
            assert forall|i: int| 0 <= i < rest.len() && #[trigger] rest[i].is_dir implies rest[i].size == 0 by {
                assert(rest[i] == files[i]);
            }
        }
        lemma_built_own_exact(root, rest);
        lemma_built_shape(root, rest);
        let b0 = built(root, rest);
        assert(forall|m: int| 0 <= m < rest.len() ==> #[trigger] rest[m].path != f.path) by {
            assert forall|m: int| 0 <= m < rest.len() implies #[trigger] rest[m].path != f.path by {
                assert(rest[m] == files[m]);
                assert(files[files.len() - 1] == f);
            }
        }
        if f.path == root {
            assert forall|i: int|
                0 <= i < b.len() && (forall|m: int| 0 <= m < files.len() ==> files[m].path != #[trigger] b[i].path)
                    implies b[i].size == 0 by {
                assert forall|m: int| 0 <= m < rest.len() implies rest[m].path != #[trigger] b0[i].path by {
                    assert(rest[m] == files[m]);
                }
            }
        } else {
            let pp = parent_or_root(f.path, root);
            assert(byte_len(pp) <= byte_len(f.path) + byte_len(root));
            lemma_found_or_created(b0, pp, root, 0);
            lemma_found_or_created_keeps(b0, pp, root, 0);
            let (n1, pid) = found_or_created(b0, pp, root, 0);
            lemma_own_zero_tail(b0, n1, n1.len() as int);
            assert forall|i: int|
                0 <= i < n1.len() && (forall|m: int| 0 <= m < rest.len() ==> rest[m].path != #[trigger] n1[i].path)
                    implies n1[i].size == 0 by {
                if i < b0.len() {
                    assert(n1[i].path == b0[i].path);
                    assert forall|m: int| 0 <= m < rest.len() implies rest[m].path != #[trigger] b0[i].path by {}
                }
            }
            match index_of_path(n1, f.path) {
                Some(id) => {
                    let i = choose|i: int| 0 <= i < n1.len() && #[trigger] n1[i].path == f.path;
                    lemma_index_of_path(n1, f.path, i);
                    assert(forall|m: int| 0 <= m < rest.len() ==> rest[m].path != #[trigger] n1[i].path);
                    assert(n1[i].size == 0);
                    if !f.is_dir {
                        let x = NodeView { size: f.size, ..n1[id as int] };
                        lemma_own_update(n1, id as int, x, n1.len() as int);
                    } else {
                        assert(files[files.len() - 1] == f);
                    }
                    assert forall|j: int|
                        0 <= j < b.len() && (forall|m: int| 0 <= m < files.len() ==> files[m].path != #[trigger] b[j].path)
                            implies b[j].size == 0 by {
                        assert(files[files.len() - 1] == f);
                        assert(b[j].path == n1[j].path);
                        assert(j != i);
                        assert forall|m: int| 0 <= m < rest.len() implies rest[m].path != #[trigger] n1[j].path by {
                            assert(rest[m] == files[m]);
                        }
                    }
                },
                None => {
                    let node = file_node(f, pid);
                    let p = n1.push(node);
                    lemma_own_sizes_eq(n1, p, n1.len() as int);
                    assert(own_sizes(p, p.len() as int) == own_sizes(p, n1.len() as int) + f.size);
                    assert forall|j: int| 0 <= j < p.len() implies #[trigger] b[j].size == p[j].size && b[j].path
                        == p[j].path by {}
                    lemma_own_sizes_eq(p, b, p.len() as int);
                    assert forall|j: int|
                        0 <= j < b.len() && (forall|m: int| 0 <= m < files.len() ==> files[m].path != #[trigger] b[j].path)
                            implies b[j].size == 0 by {
                        assert(files[files.len() - 1] == f);
                        if j < n1.len() {
                            assert(b[j].path == n1[j].path);
                            assert forall|m: int| 0 <= m < rest.len() implies rest[m].path != #[trigger] n1[j].path by {
                                assert(rest[m] == files[m]);
                            }
                        }
                    }
                },
            }
        }
    }
}

proof fn lemma_below_sum_remove(files: Seq<FileInfoView>, root: Seq<char>, k: int)
    requires
        0 <= k < files.len(),
    ensures
        entries_below_sum(files, root) == entries_below_sum(files.remove(k), root) + if files[k].path == root {
            0
        } else {
            files[k].size as nat
        },
    decreases files.len(),
{
    if k == files.len() - 1 {
        assert(files.remove(k) =~= files.drop_last());
    } else {
        lemma_below_sum_remove(files.drop_last(), root, k);
        assert(files.remove(k).drop_last() =~= files.drop_last().remove(k));
        assert(files.remove(k).last() == files.last());
    }
}

proof fn lemma_below_sum_permuted(files1: Seq<FileInfoView>, files2: Seq<FileInfoView>, root: Seq<char>)
    requires
        files1.to_multiset() == files2.to_multiset(),
    ensures
        entries_below_sum(files1, root) == entries_below_sum(files2, root),
    decreases files1.len(),
{
    broadcast use vstd::seq_lib::to_multiset_len, vstd::seq_lib::to_multiset_contains, vstd::seq_lib::to_multiset_remove;

    if files1.len() == 0 {
        assert(files2.to_multiset().len() == 0);
        assert(files2.len() == 0);
    } else {
        let x = files1.last();
        assert(files1.to_multiset().count(x) > 0);
        assert(files2.contains(x));
        let k = choose|k: int| 0 <= k < files2.len() && files2[k] == x;
        assert(files1.drop_last() =~= files1.remove(files1.len() - 1));
        assert(files1.drop_last().to_multiset() == files2.remove(k).to_multiset());
        lemma_below_sum_permuted(files1.drop_last(), files2.remove(k), root);
        lemma_below_sum_remove(files2, root, k);
    }
}

/// With one entry per path and no own size on a directory entry, the size of
/// the tree's root is the sum of the sizes of the entries other than the
/// root itself, and so does not depend on the order of the entries.
pub proof fn law_root_size_ignores_order(root: Seq<char>, files1: Seq<FileInfoView>, files2: Seq<FileInfoView>)
    requires
        files1.to_multiset() == files2.to_multiset(),
        entries_distinct(files1),
        entries_distinct(files2),
        entries_room(root, files1) <= usize::MAX,
        entries_room(root, files2) <= usize::MAX,
        sizes_sum(files1) <= u64::MAX,
    ensures
        tree_of(root, files1)[0].size == entries_below_sum(files1, root),
        tree_of(root, files2)[0].size == tree_of(root, files1)[0].size,
{
    lemma_built_own_exact(root, files1);
    lemma_built_own_exact(root, files2);
    lemma_below_sum_permuted(files1, files2, root);
    law_built_within_sizes(root, files1);
    lemma_built_shape(root, files1);
    lemma_built_shape(root, files2);
    lemma_root_size_is_own_total(built(root, files1));
    lemma_root_size_is_own_total(built(root, files2));
}

/// Every entry carries the final component of its path as its name.
pub open spec fn entries_named(files: Seq<FileInfoView>) -> bool {
    forall|m: int| 0 <= m < files.len() ==> #[trigger] files[m].name == name_or_path(files[m].path)
}

proof fn lemma_built_names(root: Seq<char>, files: Seq<FileInfoView>)
    requires
        entries_named(files),
    ensures
        forall|i: int|
            0 <= i < built(root, files).len() ==> #[trigger] built(root, files)[i].name == name_or_path(
                built(root, files)[i].path,
            ),
    decreases files.len(),
{
    let b = built(root, files);
    law_built_within_sizes(root, files);
    if files.len() > 0 {
        let rest = files.drop_last();
        let f = files.last();
        assert(entries_named(rest)) by {
            assert forall|m: int| 0 <= m < rest.len() implies #[trigger] rest[m].name == name_or_path(rest[m].path) by {
                assert(rest[m] == files[m]);
            }
        }
        assert(f == files[files.len() - 1]);
        lemma_built_names(root, rest);
        law_built_within_sizes(root, rest);
        let b0 = built(root, rest);
        if f.path != root {
            let pp = parent_or_root(f.path, root);
            lemma_found_or_created_keeps(b0, pp, root, 0);
            let (n1, pid) = found_or_created(b0, pp, root, 0);
            assert forall|i: int| 0 <= i < n1.len() implies #[trigger] n1[i].name == name_or_path(n1[i].path) by {
                if i < b0.len() {
                    assert(n1[i].path == b0[i].path);
                }
            }
            match index_of_path(n1, f.path) {
                Some(id) => {
                    let i = choose|i: int| 0 <= i < n1.len() && #[trigger] n1[i].path == f.path;
                    if i > usize::MAX {
                        assert(id <= usize::MAX);
                    }
                    assert forall|j: int| 0 <= j < b.len() implies #[trigger] b[j].name == name_or_path(b[j].path) by {
                        assert(b[j].name == n1[j].name && b[j].path == n1[j].path);
                    }
                },
                None => {
                    let p = n1.push(file_node(f, pid));
                    assert forall|j: int| 0 <= j < b.len() implies #[trigger] b[j].name == name_or_path(b[j].path) by {
                        assert(b[j].name == p[j].name && b[j].path == p[j].path);
                    }
                },
            }
        }
    }
}

/// Where every entry is named by the final component of its path, every
/// node of the tree built from the entries is named by the final component
/// of its own path, whatever the order of the entries.
pub proof fn law_names_follow_paths(root: Seq<char>, files: Seq<FileInfoView>)
    requires
        entries_named(files),
    ensures
        forall|i: int|
            0 <= i < tree_of(root, files).len() ==> #[trigger] tree_of(root, files)[i].name == name_or_path(
                tree_of(root, files)[i].path,
            ),
{
    lemma_built_names(root, files);
    let t = tree_of(root, files);
    assert forall|i: int| 0 <= i < t.len() implies #[trigger] t[i].name == name_or_path(t[i].path) by {
        assert(t[i].name == built(root, files)[i].name && t[i].path == built(root, files)[i].path);
    }
}

/// No two entries share a path.
pub open spec fn paths_distinct(files: Seq<FileInfoView>) -> bool {
    forall|i: int, j: int| 0 <= i < j < files.len() ==> #[trigger] files[i].path != #[trigger] files[j].path
}

/// Whether the entries make a directory of the path `p`: the kind of the
/// entry with that path, where there is one other than the root; a
/// directory otherwise.
pub open spec fn kind_of(files: Seq<FileInfoView>, p: Seq<char>, root: Seq<char>) -> bool {
    if p != root && exists|m: int| 0 <= m < files.len() && #[trigger] files[m].path == p {
        files[choose|m: int| 0 <= m < files.len() && #[trigger] files[m].path == p].is_dir
    } else {
        true
    }
}

/// Every entry whose path lies among the directories made sure of for
/// another entry is itself a directory.
pub open spec fn ancestors_are_dirs(files: Seq<FileInfoView>, root: Seq<char>) -> bool {
    forall|m1: int, m2: int|
        #![trigger entry_paths(files[m2], root).contains(files[m1].path)]
        0 <= m1 < files.len() && 0 <= m2 < files.len() && files[m1].path != files[m2].path && entry_paths(
            files[m2],
            root,
        ).contains(files[m1].path) ==> files[m1].is_dir
}

proof fn lemma_kind_step(files: Seq<FileInfoView>, p: Seq<char>, root: Seq<char>)
    requires
        files.len() > 0,
        paths_distinct(files),
    ensures
        p != files.last().path ==> kind_of(files, p, root) == kind_of(files.drop_last(), p, root),
        files.last().path != root ==> kind_of(files, files.last().path, root) == files.last().is_dir,
        kind_of(files.drop_last(), files.last().path, root),
{
    let rest = files.drop_last();
    let f = files.last();
    let n = files.len() - 1;
    assert(files[n] == f);
    if p != f.path && p != root {
        if exists|m: int| 0 <= m < files.len() && #[trigger] files[m].path == p {
            let m1 = choose|m: int| 0 <= m < files.len() && #[trigger] files[m].path == p;
            assert(m1 < n);
            assert(rest[m1] == files[m1]);
            assert(0 <= m1 < rest.len() && rest[m1].path == p);
            let m2 = choose|m: int| 0 <= m < rest.len() && #[trigger] rest[m].path == p;
            assert(rest[m2] == files[m2]);
            if m1 < m2 {
                assert(files[m1].path != files[m2].path);
            } else if m2 < m1 {
                assert(files[m2].path != files[m1].path);
            }
        } else {
            assert forall|m: int| 0 <= m < rest.len() implies #[trigger] rest[m].path != p by {
                assert(rest[m] == files[m]);
            }
        }
    }
    if f.path != root {
        assert(0 <= n < files.len() && files[n].path == f.path);
        let m1 = choose|m: int| 0 <= m < files.len() && #[trigger] files[m].path == f.path;
        if m1 < n {
            assert(files[m1].path != files[n].path);
        }
    }
    assert forall|m: int| 0 <= m < rest.len() implies #[trigger] rest[m].path != f.path by {
        assert(rest[m] == files[m]);
        assert(files[m].path != files[n].path);
    }
}

#[verifier::rlimit(50)]
proof fn lemma_built_kinds(root: Seq<char>, files: Seq<FileInfoView>)
    requires
        paths_distinct(files),
        ancestors_are_dirs(files, root),
        entries_room(root, files) <= usize::MAX,
    ensures
        forall|i: int|
            0 <= i < built(root, files).len() ==> #[trigger] built(root, files)[i].is_dir == kind_of(
                files,
                built(root, files)[i].path,
                root,
            ),
    decreases files.len(),
{
    let b = built(root, files);
    if files.len() == 0 {
        assert(b[0].is_dir);
    } else {
        let rest = files.drop_last();
        let f = files.last();
        let n = files.len() - 1;
        assert(files[n] == f);
        assert(paths_distinct(rest)) by {
            assert forall|i: int, j: int| 0 <= i < j < rest.len() implies #[trigger] rest[i].path != #[trigger] rest[j].path by {
                assert(rest[i] == files[i] && rest[j] == files[j]);
            }
        }
        assert(ancestors_are_dirs(rest, root)) by {
            assert forall|m1: int, m2: int|
                #![trigger entry_paths(rest[m2], root).contains(rest[m1].path)]
                0 <= m1 < rest.len() && 0 <= m2 < rest.len() && rest[m1].path != rest[m2].path && entry_paths(
                    rest[m2],
                    root,
                ).contains(rest[m1].path) implies rest[m1].is_dir by {
                assert(rest[m1] == files[m1] && rest[m2] == files[m2]);
                assert(entry_paths(files[m2], root).contains(files[m1].path));
            }
        }
        lemma_built_kinds(root, rest);
        lemma_built_shape(root, rest);
        lemma_built_paths(root, rest);
        let b0 = built(root, rest);
        assert forall|p: Seq<char>| p != f.path implies kind_of(files, p, root) == #[trigger] kind_of(rest, p, root) by {
            lemma_kind_step(files, p, root);
        }
        lemma_kind_step(files, f.path, root);
        if f.path == root {
            assert forall|i: int| 0 <= i < b.len() implies #[trigger] b[i].is_dir == kind_of(files, b[i].path, root) by {
                assert(kind_of(rest, b[i].path, root) == kind_of(files, b[i].path, root));
            }
        } else {
            let pp = parent_or_root(f.path, root);
            assert(byte_len(pp) <= byte_len(f.path) + byte_len(root));
            lemma_found_or_created(b0, pp, root, 0);
            lemma_found_or_created_keeps(b0, pp, root, 0);
            let (n1, pid) = found_or_created(b0, pp, root, 0);
            if pp == root {
                assert(b0[0].path == root);
                assert(n1 == b0);
            }
            assert forall|i: int| 0 <= i < n1.len() implies #[trigger] n1[i].is_dir == kind_of(rest, n1[i].path, root)
                && (n1[i].path == f.path ==> i < b0.len()) by {
                if i >= b0.len() {
                    assert(pp != root);
                    assert(byte_len(n1[i].path) <= byte_len(pp));
                    let q = n1[i].path;
                    if q != root && exists|m: int| 0 <= m < rest.len() && #[trigger] rest[m].path == q {
                        let m = choose|m: int| 0 <= m < rest.len() && #[trigger] rest[m].path == q;
                        assert(entry_paths(rest[m], root).contains(q));
                        assert(has_path(b0, q));
                        let i0 = choose|i0: int| 0 <= i0 < b0.len() && #[trigger] b0[i0].path == q;
                        assert(node_kept(b0, n1, i0));
                        assert(n1[i0].path == q);
                    }
                } else {
                    assert(node_kept(b0, n1, i));
                }
            }
            match index_of_path(n1, f.path) {
                Some(id) => {
                    let i = choose|i: int| 0 <= i < n1.len() && #[trigger] n1[i].path == f.path;
                    lemma_index_of_path(n1, f.path, i);
                    assert(i < b0.len());
                    assert(node_kept(b0, n1, i));
                    assert(has_path(b0, f.path));
                    let m = choose|m: int| 0 <= m < rest.len() && #[trigger] entry_paths(rest[m], root).contains(f.path);
                    assert(rest[m] == files[m]);
                    assert(files[m].path != files[n].path);
                    assert(entry_paths(files[m], root).contains(files[n].path));
                    assert(f.is_dir);
                    assert forall|j: int| 0 <= j < b.len() implies #[trigger] b[j].is_dir == kind_of(files, b[j].path, root) by {
                        assert(b[j].is_dir == n1[j].is_dir && b[j].path == n1[j].path);
                    }
                },
                None => {
                    let p = n1.push(file_node(f, pid));
                    assert forall|j: int| 0 <= j < b.len() implies #[trigger] b[j].is_dir == kind_of(files, b[j].path, root) by {
                        assert(b[j].is_dir == p[j].is_dir && b[j].path == p[j].path);
                        if j < n1.len() {
                            assert(n1[j].path != f.path);
                        }
                    }
                },
            }
        }
    }
}

proof fn lemma_kind_permuted(files1: Seq<FileInfoView>, files2: Seq<FileInfoView>, p: Seq<char>, root: Seq<char>)
    requires
        files1.to_multiset() == files2.to_multiset(),
        paths_distinct(files1),
        paths_distinct(files2),
    ensures
        kind_of(files1, p, root) == kind_of(files2, p, root),
{
    broadcast use vstd::seq_lib::to_multiset_contains;

    if p != root {
        if exists|m: int| 0 <= m < files1.len() && #[trigger] files1[m].path == p {
            let m1 = choose|m: int| 0 <= m < files1.len() && #[trigger] files1[m].path == p;
            assert(files1.contains(files1[m1]));
            assert(files1.to_multiset().count(files1[m1]) > 0);
            assert(files2.contains(files1[m1]));
            let k = choose|k: int| 0 <= k < files2.len() && files2[k] == files1[m1];
            assert(files2[k].path == p);
            let m2 = choose|m: int| 0 <= m < files2.len() && #[trigger] files2[m].path == p;
            if k < m2 {
                assert(files2[k].path != files2[m2].path);
            } else if m2 < k {
                assert(files2[m2].path != files2[k].path);
            }
        } else if exists|m: int| 0 <= m < files2.len() && #[trigger] files2[m].path == p {
            let m2 = choose|m: int| 0 <= m < files2.len() && #[trigger] files2[m].path == p;
            assert(files2.contains(files2[m2]));
            assert(files2.to_multiset().count(files2[m2]) > 0);
            assert(files1.contains(files2[m2]));
            let k = choose|k: int| 0 <= k < files1.len() && files1[k] == files2[m2];
            assert(files1[k].path == p);
        }
    }
}

/// With one entry per path, and every entry that lies among the directories
/// of another entry a directory, whether a node of the tree is a directory
/// depends on its path alone: the entries rearranged give a tree in which
/// the node of each path is a directory exactly where it was before.
pub proof fn law_kinds_ignore_order(root: Seq<char>, files1: Seq<FileInfoView>, files2: Seq<FileInfoView>)
    requires
        files1.to_multiset() == files2.to_multiset(),
        paths_distinct(files1),
        paths_distinct(files2),
        ancestors_are_dirs(files1, root),
        ancestors_are_dirs(files2, root),
        entries_room(root, files1) <= usize::MAX,
        entries_room(root, files2) <= usize::MAX,
    ensures
        forall|i1: int, i2: int|
            0 <= i1 < tree_of(root, files1).len() && 0 <= i2 < tree_of(root, files2).len() && #[trigger] tree_of(
                root,
                files1,
            )[i1].path == #[trigger] tree_of(root, files2)[i2].path ==> tree_of(root, files1)[i1].is_dir
                == tree_of(root, files2)[i2].is_dir,
{
    lemma_built_kinds(root, files1);
    lemma_built_kinds(root, files2);
    let (b1, b2) = (built(root, files1), built(root, files2));
    let (t1, t2) = (tree_of(root, files1), tree_of(root, files2));
    assert forall|i1: int, i2: int|
        0 <= i1 < t1.len() && 0 <= i2 < t2.len() && #[trigger] t1[i1].path == #[trigger] t2[i2].path implies t1[i1].is_dir
            == t2[i2].is_dir by {
        assert(t1[i1].is_dir == b1[i1].is_dir && t1[i1].path == b1[i1].path);
        assert(t2[i2].is_dir == b2[i2].is_dir && t2[i2].path == b2[i2].path);
        lemma_kind_permuted(files1, files2, t1[i1].path, root);
    }
}

/// The own size the entries give the path `p`: the size of the entry with
/// that path, where there is one other than the root; nothing otherwise.
pub open spec fn size_of(files: Seq<FileInfoView>, p: Seq<char>, root: Seq<char>) -> nat {
    if p != root && exists|m: int| 0 <= m < files.len() && #[trigger] files[m].path == p {
        files[choose|m: int| 0 <= m < files.len() && #[trigger] files[m].path == p].size as nat
    } else {
        0
    }
}

proof fn lemma_size_step(files: Seq<FileInfoView>, p: Seq<char>, root: Seq<char>)
    requires
        files.len() > 0,
        paths_distinct(files),
    ensures
        p != files.last().path ==> size_of(files, p, root) == size_of(files.drop_last(), p, root),
        files.last().path != root ==> size_of(files, files.last().path, root) == files.last().size,
        size_of(files.drop_last(), files.last().path, root) == 0,
{
    let rest = files.drop_last();
    let f = files.last();
    let n = files.len() - 1;
    assert(files[n] == f);
    if p != f.path && p != root {
        if exists|m: int| 0 <= m < files.len() && #[trigger] files[m].path == p {
            let m1 = choose|m: int| 0 <= m < files.len() && #[trigger] files[m].path == p;
            assert(m1 < n);
            assert(rest[m1] == files[m1]);
            assert(0 <= m1 < rest.len() && rest[m1].path == p);
            let m2 = choose|m: int| 0 <= m < rest.len() && #[trigger] rest[m].path == p;
            assert(rest[m2] == files[m2]);
            if m1 < m2 {
                assert(files[m1].path != files[m2].path);
            } else if m2 < m1 {
                assert(files[m2].path != files[m1].path);
            }
        } else {
            assert forall|m: int| 0 <= m < rest.len() implies #[trigger] rest[m].path != p by {
                assert(rest[m] == files[m]);
            }
        }
    }
    if f.path != root {
        assert(0 <= n < files.len() && files[n].path == f.path);
        let m1 = choose|m: int| 0 <= m < files.len() && #[trigger] files[m].path == f.path;
        if m1 < n {
            assert(files[m1].path != files[n].path);
        }
    }
    assert forall|m: int| 0 <= m < rest.len() implies #[trigger] rest[m].path != f.path by {
        assert(rest[m] == files[m]);
        assert(files[m].path != files[n].path);
    }
}

/// With one entry per path and no own size on a directory entry, every node
/// taken in from the entries holds, as its own size, the size of the entry
/// with its path, and nothing where no entry other than the root has it.
#[verifier::rlimit(50)]
pub proof fn law_own_sizes_follow_entries(root: Seq<char>, files: Seq<FileInfoView>)
    requires
        entries_distinct(files),
        entries_room(root, files) <= usize::MAX,
    ensures
        forall|i: int|
            0 <= i < built(root, files).len() ==> #[trigger] built(root, files)[i].size == size_of(
                files,
                built(root, files)[i].path,
                root,
            ),
    decreases files.len(),
{
    let b = built(root, files);
    if files.len() > 0 {
        let rest = files.drop_last();
        let f = files.last();
        let n = files.len() - 1;
        assert(files[n] == f);
        assert(entries_distinct(rest)) by {
            assert forall|i: int, j: int| 0 <= i < j < rest.len() implies #[trigger] rest[i].path != #[trigger] rest[j].path by {
                assert(rest[i] == files[i] && rest[j] == files[j]);
            }
            assert forall|i: int| 0 <= i < rest.len() && #[trigger] rest[i].is_dir implies rest[i].size == 0 by {
                assert(rest[i] == files[i]);
            }
        }
        law_own_sizes_follow_entries(root, rest);
        lemma_built_shape(root, rest);
        lemma_built_paths(root, rest);
        let b0 = built(root, rest);
        assert forall|p: Seq<char>| p != f.path implies size_of(files, p, root) == #[trigger] size_of(rest, p, root) by {
            lemma_size_step(files, p, root);
        }
        lemma_size_step(files, f.path, root);
        if f.path == root {
            assert forall|i: int| 0 <= i < b.len() implies #[trigger] b[i].size == size_of(files, b[i].path, root) by {
                assert(size_of(rest, b[i].path, root) == size_of(files, b[i].path, root));
            }
        } else {
            let pp = parent_or_root(f.path, root);
            assert(byte_len(pp) <= byte_len(f.path) + byte_len(root));
            lemma_found_or_created(b0, pp, root, 0);
            lemma_found_or_created_keeps(b0, pp, root, 0);
            let (n1, pid) = found_or_created(b0, pp, root, 0);
            if pp == root {
                assert(b0[0].path == root);
                assert(n1 == b0);
            }
            assert forall|i: int| 0 <= i < n1.len() implies #[trigger] n1[i].size == size_of(rest, n1[i].path, root)
                && (n1[i].path == f.path ==> i < b0.len()) by {
                if i >= b0.len() {
                    assert(pp != root);
                    assert(byte_len(n1[i].path) <= byte_len(pp));
                    let q = n1[i].path;
                    if q != root && exists|m: int| 0 <= m < rest.len() && #[trigger] rest[m].path == q {
                        let m = choose|m: int| 0 <= m < rest.len() && #[trigger] rest[m].path == q;
                        assert(entry_paths(rest[m], root).contains(q));
                        assert(has_path(b0, q));
                        let i0 = choose|i0: int| 0 <= i0 < b0.len() && #[trigger] b0[i0].path == q;
                        assert(node_kept(b0, n1, i0));
                        assert(n1[i0].path == q);
                    }
                } else {
                    assert(node_kept(b0, n1, i));
                }
            }
            match index_of_path(n1, f.path) {
                Some(id) => {
                    let i = choose|i: int| 0 <= i < n1.len() && #[trigger] n1[i].path == f.path;
                    lemma_index_of_path(n1, f.path, i);
                    assert(n1[i].size == 0);
                    assert forall|j: int| 0 <= j < b.len() implies #[trigger] b[j].size == size_of(files, b[j].path, root) by {
                        assert(b[j].path == n1[j].path);
                        if j != i {
                            assert(n1[j].path != f.path);
                            assert(b[j].size == n1[j].size);
                        } else if f.is_dir {
                            assert(f.size == 0);
                        }
                    }
                },
                None => {
                    let p = n1.push(file_node(f, pid));
                    assert forall|j: int| 0 <= j < b.len() implies #[trigger] b[j].size == size_of(files, b[j].path, root) by {
                        assert(b[j].size == p[j].size && b[j].path == p[j].path);
                        if j < n1.len() {
                            assert(n1[j].path != f.path);
                        }
                    }
                },
            }
        }
    }
}

proof fn lemma_size_permuted(files1: Seq<FileInfoView>, files2: Seq<FileInfoView>, p: Seq<char>, root: Seq<char>)
    requires
        files1.to_multiset() == files2.to_multiset(),
        paths_distinct(files1),
        paths_distinct(files2),
    ensures
        size_of(files1, p, root) == size_of(files2, p, root),
{
    broadcast use vstd::seq_lib::to_multiset_contains;

    if p != root {
        if exists|m: int| 0 <= m < files1.len() && #[trigger] files1[m].path == p {
            let m1 = choose|m: int| 0 <= m < files1.len() && #[trigger] files1[m].path == p;
            assert(files1.contains(files1[m1]));
            assert(files1.to_multiset().count(files1[m1]) > 0);
            assert(files2.contains(files1[m1]));
            let k = choose|k: int| 0 <= k < files2.len() && files2[k] == files1[m1];
            assert(files2[k].path == p);
            let m2 = choose|m: int| 0 <= m < files2.len() && #[trigger] files2[m].path == p;
            if k < m2 {
                assert(files2[k].path != files2[m2].path);
            } else if m2 < k {
                assert(files2[m2].path != files2[k].path);
            }
        } else if exists|m: int| 0 <= m < files2.len() && #[trigger] files2[m].path == p {
            let m2 = choose|m: int| 0 <= m < files2.len() && #[trigger] files2[m].path == p;
            assert(files2.contains(files2[m2]));
            assert(files2.to_multiset().count(files2[m2]) > 0);
            assert(files1.contains(files2[m2]));
            let k = choose|k: int| 0 <= k < files1.len() && files1[k] == files2[m2];
            assert(files1[k].path == p);
        }
    }
}

/// With one entry per path and no own size on a directory entry, the own
/// size of the node of each path does not depend on the order of the
/// entries.
pub proof fn law_own_sizes_ignore_order(root: Seq<char>, files1: Seq<FileInfoView>, files2: Seq<FileInfoView>)
    requires
        files1.to_multiset() == files2.to_multiset(),
        entries_distinct(files1),
        entries_distinct(files2),
        entries_room(root, files1) <= usize::MAX,
        entries_room(root, files2) <= usize::MAX,
    ensures
        forall|i1: int, i2: int|
            0 <= i1 < built(root, files1).len() && 0 <= i2 < built(root, files2).len() && #[trigger] built(
                root,
                files1,
            )[i1].path == #[trigger] built(root, files2)[i2].path ==> built(root, files1)[i1].size == built(
                root,
                files2,
            )[i2].size,
{
    law_own_sizes_follow_entries(root, files1);
    law_own_sizes_follow_entries(root, files2);
    let (b1, b2) = (built(root, files1), built(root, files2));
    assert forall|i1: int, i2: int|
        0 <= i1 < b1.len() && 0 <= i2 < b2.len() && #[trigger] b1[i1].path == #[trigger] b2[i2].path implies b1[i1].size
            == b2[i2].size by {
        lemma_size_permuted(files1, files2, b1[i1].path, root);
    }
}

/// The index of the node with the path `p`.
pub open spec fn path_index(nodes: Seq<NodeView>, p: Seq<char>) -> int {
    index_of_path(nodes, p)->0 as int
}

/// The sum of the subtree sizes of the nodes with the paths `ps`.
pub open spec fn paths_sum(nodes: Seq<NodeView>, ps: Seq<Seq<char>>) -> nat
    decreases ps.len(),
{
    if ps.len() == 0 {
        0
    } else {
        paths_sum(nodes, ps.drop_last()) + subtree_size(nodes, path_index(nodes, ps.last()))
    }
}

/// The paths of the first `k` children of `i`.
pub open spec fn child_paths(nodes: Seq<NodeView>, i: int, k: int) -> Seq<Seq<char>> {
    nodes[i].children.take(k).map_values(|c: NodeId| nodes[c as int].path)
}

proof fn lemma_children_total_paths(nodes: Seq<NodeView>, i: int, k: int)
    requires
        well_formed(nodes),
        paths_unique(nodes),
        0 <= i < nodes.len(),
        0 <= k <= nodes[i].children.len(),
    ensures
        children_total(nodes, i, k) == paths_sum(nodes, child_paths(nodes, i, k)),
    decreases k,
{
    if k > 0 {
        lemma_children_total_paths(nodes, i, k - 1);
        let c = nodes[i].children[k - 1];
        assert(i < c < nodes.len());
        assert(child_paths(nodes, i, k).drop_last() =~= child_paths(nodes, i, k - 1));
        assert(child_paths(nodes, i, k).last() == nodes[c as int].path);
        lemma_index_of_path(nodes, nodes[c as int].path, c as int);
    }
}

proof fn lemma_paths_sum_remove(nodes: Seq<NodeView>, ps: Seq<Seq<char>>, k: int)
    requires
        0 <= k < ps.len(),
    ensures
        paths_sum(nodes, ps) == paths_sum(nodes, ps.remove(k)) + subtree_size(nodes, path_index(nodes, ps[k])),
    decreases ps.len(),
{
    if k == ps.len() - 1 {
        assert(ps.remove(k) =~= ps.drop_last());
    } else {
        lemma_paths_sum_remove(nodes, ps.drop_last(), k);
        assert(ps.remove(k).drop_last() =~= ps.drop_last().remove(k));
        assert(ps.remove(k).last() == ps.last());
    }
}

proof fn lemma_paths_sum_same_set(nodes: Seq<NodeView>, ps1: Seq<Seq<char>>, ps2: Seq<Seq<char>>)
    requires
        ps1.no_duplicates(),
        ps2.no_duplicates(),
        forall|q: Seq<char>| #[trigger] ps1.contains(q) == ps2.contains(q),
    ensures
        paths_sum(nodes, ps1) == paths_sum(nodes, ps2),
    decreases ps1.len(),
{
    if ps1.len() == 0 {
        if ps2.len() > 0 {
            assert(ps2.contains(ps2[0]));
            assert(ps1.contains(ps2[0]) == ps2.contains(ps2[0]));
        }
    } else {
        let x = ps1.last();
        assert(ps1.contains(x));
        let k = choose|k: int| 0 <= k < ps2.len() && ps2[k] == x;
        let r1 = ps1.drop_last();
        let r2 = ps2.remove(k);
        assert(r1.no_duplicates()) by {
            assert forall|a: int, b: int| 0 <= a < r1.len() && 0 <= b < r1.len() && a != b implies r1[a] != r1[b] by {
                assert(r1[a] == ps1[a] && r1[b] == ps1[b]);
            }
        }
        assert(r2.no_duplicates()) by {
            assert forall|a: int, b: int| 0 <= a < r2.len() && 0 <= b < r2.len() && a != b implies r2[a] != r2[b] by {
                let a2 = if a < k { a } else { a + 1 };
                let b2 = if b < k { b } else { b + 1 };
                assert(r2[a] == ps2[a2] && r2[b] == ps2[b2]);
            }
        }
        assert forall|q: Seq<char>| #[trigger] r1.contains(q) == r2.contains(q) by {
            if r1.contains(q) {
                let a = choose|a: int| 0 <= a < r1.len() && r1[a] == q;
                assert(ps1[a] == q);
                assert(ps1.contains(q));
                assert(q != x) by {
                    assert(ps1[ps1.len() - 1] == x);
                }
                let b = choose|b: int| 0 <= b < ps2.len() && ps2[b] == q;
                assert(b != k);
                let b2 = if b < k { b } else { b - 1 };
                assert(r2[b2] == q);
            }
            if r2.contains(q) {
                let b = choose|b: int| 0 <= b < r2.len() && r2[b] == q;
                let b2 = if b < k { b } else { b + 1 };
                assert(ps2[b2] == q);
                assert(b2 != k);
                assert(ps2.contains(q));
                assert(ps1.contains(q));
                let a = choose|a: int| 0 <= a < ps1.len() && ps1[a] == q;
                assert(a != ps1.len() - 1);
                assert(r1[a] == q);
            }
        }
        lemma_paths_sum_same_set(nodes, r1, r2);
        lemma_paths_sum_remove(nodes, ps2, k);
        assert(paths_sum(nodes, ps1) == paths_sum(nodes, r1) + subtree_size(nodes, path_index(nodes, x)));
        assert(paths_sum(nodes, ps2) == paths_sum(nodes, r2) + subtree_size(nodes, path_index(nodes, x)));
    }
}

proof fn lemma_paths_sum_across(t1: Seq<NodeView>, t2: Seq<NodeView>, ps: Seq<Seq<char>>)
    requires
        forall|k: int| 0 <= k < ps.len() ==> subtree_size(t1, path_index(t1, #[trigger] ps[k])) == subtree_size(
            t2,
            path_index(t2, ps[k]),
        ),
    ensures
        paths_sum(t1, ps) == paths_sum(t2, ps),
    decreases ps.len(),
{
    if ps.len() > 0 {
        let r = ps.drop_last();
        assert forall|k: int| 0 <= k < r.len() implies subtree_size(t1, path_index(t1, #[trigger] r[k])) == subtree_size(
            t2,
            path_index(t2, r[k]),
        ) by {
            assert(r[k] == ps[k]);
        }
        lemma_paths_sum_across(t1, t2, r);
        assert(ps.last() == ps[ps.len() - 1]);
    }
}

proof fn lemma_child_paths_distinct(nodes: Seq<NodeView>, i: int)
    requires
        well_formed(nodes),
        paths_unique(nodes),
        0 <= i < nodes.len(),
    ensures
        child_paths(nodes, i, nodes[i].children.len() as int).no_duplicates(),
        forall|q: Seq<char>|
            #[trigger] child_paths(nodes, i, nodes[i].children.len() as int).contains(q) <==> exists|k: int|
                0 <= k < nodes[i].children.len() && #[trigger] nodes[nodes[i].children[k] as int].path == q,
{
    let n = nodes[i].children.len() as int;
    let cp = child_paths(nodes, i, n);
    assert(nodes[i].children.take(n) =~= nodes[i].children);
    assert forall|a: int, b: int| 0 <= a < cp.len() && 0 <= b < cp.len() && a != b implies cp[a] != cp[b] by {
        let ca = nodes[i].children[a];
        let cb = nodes[i].children[b];
        if a < b {
            assert(ca != cb);
        } else {
            assert(cb != ca);
        }
        assert(i < ca < nodes.len() && i < cb < nodes.len());
    }
    assert forall|q: Seq<char>| #[trigger] cp.contains(q) <==> exists|k: int|
        0 <= k < nodes[i].children.len() && #[trigger] nodes[nodes[i].children[k] as int].path == q by {
        if cp.contains(q) {
            let a = choose|a: int| 0 <= a < cp.len() && cp[a] == q;
            assert(nodes[nodes[i].children[a] as int].path == q);
        }
        if exists|k: int| 0 <= k < nodes[i].children.len() && #[trigger] nodes[nodes[i].children[k] as int].path == q {
            let k = choose|k: int| 0 <= k < nodes[i].children.len() && #[trigger] nodes[nodes[i].children[k] as int].path == q;
            assert(cp[k] == q);
        }
    }
}

/// Two arenas whose nodes match by path, with the same own sizes and the
/// same children, give the nodes of one path the same subtree size.
#[verifier::rlimit(60)]
proof fn lemma_subtree_sizes_match(b1: Seq<NodeView>, b2: Seq<NodeView>, i1: int, i2: int)
    requires
        well_formed(b1),
        well_formed(b2),
        paths_unique(b1),
        paths_unique(b2),
        b1[0].path == b2[0].path,
        forall|p: Seq<char>| #[trigger] has_path(b1, p) == has_path(b2, p),
        forall|j1: int, j2: int|
            0 <= j1 < b1.len() && 0 <= j2 < b2.len() && #[trigger] b1[j1].path == #[trigger] b2[j2].path
                ==> b1[j1].size == b2[j2].size,
        forall|a1: int, a2: int, j1: int, j2: int|
            #![trigger b1[a1].children.contains(j1 as NodeId), b2[a2].path, b2[j2].path]
            0 <= a1 < b1.len() && 0 <= a2 < b2.len() && 0 < j1 < b1.len() && 0 <= j2 < b2.len() && b1[a1].path
                == b2[a2].path && b1[j1].path == b2[j2].path ==> b1[a1].children.contains(j1 as NodeId)
                == b2[a2].children.contains(j2 as NodeId),
        0 <= i1 < b1.len(),
        0 <= i2 < b2.len(),
        b1[i1].path == b2[i2].path,
    ensures
        subtree_size(b1, i1) == subtree_size(b2, i2),
    decreases b1.len() - i1,
{
    let n1 = b1[i1].children.len() as int;
    let n2 = b2[i2].children.len() as int;
    let cp1 = child_paths(b1, i1, n1);
    let cp2 = child_paths(b2, i2, n2);
    lemma_child_paths_distinct(b1, i1);
    lemma_child_paths_distinct(b2, i2);
    lemma_children_total_paths(b1, i1, n1);
    lemma_children_total_paths(b2, i2, n2);
    assert forall|q: Seq<char>| #[trigger] cp1.contains(q) == cp2.contains(q) by {
        if cp1.contains(q) {
            let k = choose|k: int| 0 <= k < n1 && #[trigger] b1[b1[i1].children[k] as int].path == q;
            let c = b1[i1].children[k] as int;
            assert(i1 < c < b1.len());
            assert(has_path(b1, q));
            let j2 = choose|j2: int| 0 <= j2 < b2.len() && #[trigger] b2[j2].path == q;
            assert(b1[i1].children.contains(c as NodeId));
            assert(b2[i2].children.contains(j2 as NodeId));
            let k2 = choose|k2: int| 0 <= k2 < n2 && b2[i2].children[k2] == j2 as NodeId;
            assert(b2[b2[i2].children[k2] as int].path == q);
        }
        if cp2.contains(q) {
            let k = choose|k: int| 0 <= k < n2 && #[trigger] b2[b2[i2].children[k] as int].path == q;
            let c = b2[i2].children[k] as int;
            assert(i2 < c < b2.len());
            assert(has_path(b2, q));
            assert(has_path(b1, q));
            let j1 = choose|j1: int| 0 <= j1 < b1.len() && #[trigger] b1[j1].path == q;
            assert(j1 != 0) by {
                if j1 == 0 {
                    assert(b2[0].path == q);
                }
            }
            assert(b2[i2].children.contains(c as NodeId));
            assert(b1[i1].children.contains(j1 as NodeId));
            let k1 = choose|k1: int| 0 <= k1 < n1 && b1[i1].children[k1] == j1 as NodeId;
            assert(b1[b1[i1].children[k1] as int].path == q);
        }
    }
    lemma_paths_sum_same_set(b1, cp1, cp2);
    assert forall|k: int| 0 <= k < cp2.len() implies subtree_size(b1, path_index(b1, #[trigger] cp2[k])) == subtree_size(
        b2,
        path_index(b2, cp2[k]),
    ) by {
        let q = cp2[k];
        assert(b2[i2].children.take(n2) =~= b2[i2].children);
        let c2 = b2[i2].children[k] as int;
        assert(q == b2[c2].path);
        assert(i2 < c2 < b2.len());
        lemma_index_of_path(b2, q, c2);
        assert(cp2.contains(q));
        assert(cp1.contains(q));
        let k1 = choose|k1: int| 0 <= k1 < n1 && #[trigger] b1[b1[i1].children[k1] as int].path == q;
        let c1 = b1[i1].children[k1] as int;
        assert(i1 < c1 < b1.len());
        lemma_index_of_path(b1, q, c1);
        lemma_subtree_sizes_match(b1, b2, c1, c2);
    }
    lemma_paths_sum_across(b1, b2, cp2);
}

/// Every path that the entries make sure of lies inside the root: its parent
/// path is no shorter than the root.
pub open spec fn entries_inside(files: Seq<FileInfoView>, root: Seq<char>) -> bool {
    forall|m: int, q: Seq<char>|
        0 <= m < files.len() && #[trigger] entry_paths(files[m], root).contains(q) ==> byte_len(root) <= byte_len(
            parent_or_root(q, root),
        )
}

/// With one entry per path, no own size on a directory entry, and every
/// path inside the root, the size that the tree gives the node of each path
/// does not depend on the order of the entries.
#[verifier::rlimit(60)]
pub proof fn law_sizes_ignore_order(root: Seq<char>, files1: Seq<FileInfoView>, files2: Seq<FileInfoView>)
    requires
        files1.to_multiset() == files2.to_multiset(),
        entries_distinct(files1),
        entries_distinct(files2),
        entries_inside(files1, root),
        entries_room(root, files1) <= usize::MAX,
        entries_room(root, files2) <= usize::MAX,
        sizes_sum(files1) <= u64::MAX,
    ensures
        forall|i1: int, i2: int|
            0 <= i1 < tree_of(root, files1).len() && 0 <= i2 < tree_of(root, files2).len() && #[trigger] tree_of(
                root,
                files1,
            )[i1].path == #[trigger] tree_of(root, files2)[i2].path ==> tree_of(root, files1)[i1].size
                == tree_of(root, files2)[i2].size,
{
    law_tree_ignores_order(root, files1, files2);
    law_own_sizes_ignore_order(root, files1, files2);
    lemma_built_shape(root, files1);
    lemma_built_shape(root, files2);
    lemma_built_paths(root, files1);
    law_built_within_sizes(root, files1);
    lemma_root_size_is_own_total(built(root, files1));
    let (b1, b2) = (built(root, files1), built(root, files2));
    let (t1, t2) = (tree_of(root, files1), tree_of(root, files2));
    assert forall|p: Seq<char>| #[trigger] has_path(b1, p) == has_path(b2, p) by {
        assert(index_of_path(t1, p) is Some == index_of_path(t2, p) is Some);
        if has_path(b1, p) {
            let i = choose|i: int| 0 <= i < b1.len() && #[trigger] b1[i].path == p;
            assert(t1[i].path == p);
            let j = choose|j: int| 0 <= j < t2.len() && #[trigger] t2[j].path == p;
            assert(b2[j].path == p);
        }
        if has_path(b2, p) {
            let i = choose|i: int| 0 <= i < b2.len() && #[trigger] b2[i].path == p;
            assert(t2[i].path == p);
            let j = choose|j: int| 0 <= j < t1.len() && #[trigger] t1[j].path == p;
            assert(b1[j].path == p);
        }
    }
    assert forall|a1: int, a2: int, j1: int, j2: int|
        #![trigger b1[a1].children.contains(j1 as NodeId), b2[a2].path, b2[j2].path]
        0 <= a1 < b1.len() && 0 <= a2 < b2.len() && 0 < j1 < b1.len() && 0 <= j2 < b2.len() && b1[a1].path
            == b2[a2].path && b1[j1].path == b2[j2].path implies b1[a1].children.contains(j1 as NodeId)
            == b2[a2].children.contains(j2 as NodeId) by {
        assert(b1[0].path == root);
        let q = b1[j1].path;
        assert(q != root);
        assert(has_path(b1, q));
        let m = choose|m: int| 0 <= m < files1.len() && #[trigger] entry_paths(files1[m], root).contains(q);
        assert(byte_len(root) <= byte_len(parent_or_root(q, root)));
        assert(t1[a1] == NodeView { size: subtree_size(b1, a1) as u64, ..b1[a1] });
        assert(t2[a2] == NodeView { size: subtree_size(b2, a2) as u64, ..b2[a2] });
        assert(t1[j1].path == b1[j1].path && t2[j2].path == b2[j2].path);
        assert(t1[a1].children.contains(j1 as NodeId) == t2[a2].children.contains(j2 as NodeId));
    }
    assert forall|i1: int, i2: int|
        0 <= i1 < t1.len() && 0 <= i2 < t2.len() && #[trigger] t1[i1].path == #[trigger] t2[i2].path implies t1[i1].size
            == t2[i2].size by {
        assert(t1[i1].path == b1[i1].path && t2[i2].path == b2[i2].path);
        lemma_subtree_sizes_match(b1, b2, i1, i2);
        lemma_subtree_le_root(b1, i1);
    }
}

/// Paths and their indices only depend on the shape.
proof fn lemma_same_shape_paths(a: Seq<NodeView>, b: Seq<NodeView>)
    requires
        paths_unique(a),
        same_shape(a, b),
    ensures
        paths_unique(b),
        forall|p: Seq<char>| #[trigger] index_of_path(b, p) == index_of_path(a, p),
{
    assert forall|x: int, y: int|
        0 <= x < b.len() && 0 <= y < b.len() && #[trigger] b[x].path == #[trigger] b[y].path implies x == y by {
        assert(a[x].path == b[x].path);
        assert(a[y].path == b[y].path);
    }
    assert forall|p: Seq<char>| #[trigger] index_of_path(b, p) == index_of_path(a, p) by {
        if index_of_path(a, p) is Some {
            let k = choose|k: int| 0 <= k < a.len() && #[trigger] a[k].path == p;
            assert(b[k].path == p);
            lemma_index_of_path(b, p, k);
            lemma_index_of_path(a, p, k);
        } else if index_of_path(b, p) is Some {
            let k = choose|k: int| 0 <= k < b.len() && #[trigger] b[k].path == p;
            assert(a[k].path == p);
        }
    }
}

proof fn lemma_resized(mid: Seq<NodeView>, id: int, size: u64, root: Seq<char>)
    requires
        well_formed(mid),
        paths_unique(mid),
        placed(mid, root),
        0 <= id < mid.len(),
    ensures
        ({
            let s = mid.update(id, NodeView { size: size, ..mid[id] });
            &&& well_formed(s)
            &&& placed(s, root)
            &&& paths_unique(s)
            &&& forall|p: Seq<char>| #[trigger] index_of_path(s, p) == index_of_path(mid, p)
            &&& own_total(s) + mid[id].size == own_total(mid) + size
            &&& s[0].path == mid[0].path
        }),
{
    let x = NodeView { size: size, ..mid[id] };
    let s = mid.update(id, x);
    lemma_own_update(mid, id, x, mid.len() as int);
    assert(same_shape(mid, s));
    lemma_same_shape_well_formed(mid, s);
    lemma_same_shape_paths(mid, s);
    lemma_placed_shape(mid, s, root);
}

proof fn lemma_added(mid: Seq<NodeView>, node: NodeView, pid: NodeId, root: Seq<char>)
    requires
        well_formed(mid),
        paths_unique(mid),
        pid < mid.len(),
        mid.len() < usize::MAX,
        node.parent == Some(pid),
        node.children.len() == 0,
        index_of_path(mid, node.path) is None,
        placed(mid, root),
        mid[pid as int].path == parent_or_root(node.path, root),
    ensures
        ({
            let s = with_node(mid, node, pid);
            &&& well_formed(s)
            &&& placed(s, root)
            &&& paths_unique(s)
            &&& own_total(s) == own_total(mid) + node.size
            &&& s[0].path == mid[0].path
            &&& forall|p: Seq<char>|
                #[trigger] index_of_path(s, p) == if p == node.path {
                    Some(mid.len() as NodeId)
                } else {
                    index_of_path(mid, p)
                }
        }),
{
    let s = with_node(mid, node, pid);
    lemma_with_node(mid, node, pid);
    assert forall|j: int| 0 <= j < mid.len() implies #[trigger] mid[j].size == s[j].size by {
        assert(node_kept(mid, s, j));
    }
    lemma_own_sizes_eq(mid, s, mid.len() as int);
    assert(node_kept(mid, s, 0));
    lemma_placed_with_node(mid, node, pid, root);
}

/// Takes in the scanned entry `file` as `inserted` says.
#[verifier::rlimit(30)]
fn insert_file(arena: &mut Arena, path_to_id: &mut StringHashMap<NodeId>, file: &FileInfo, root_path: &str)
    requires
        well_formed(old(arena)@),
        paths_unique(old(arena)@),
        indexes(old(path_to_id)@, old(arena)@),
        old(arena)@[0].path == root_path@,
        placed(old(arena)@, root_path@),
    ensures
        final(arena)@ == inserted(old(arena)@, file@, root_path@),
        placed(final(arena)@, root_path@),
        well_formed(final(arena)@),
        paths_unique(final(arena)@),
        indexes(final(path_to_id)@, final(arena)@),
        final(arena)@[0].path == root_path@,
        own_total(final(arena)@) <= own_total(old(arena)@) + file.size,
        file.path@ != root_path@ ==> index_of_path(final(arena)@, file.path@) is Some,
        forall|p: Seq<char>|
            index_of_path(old(arena)@, p) is Some ==> #[trigger] index_of_path(final(arena)@, p) is Some,
{
    let ghost before = arena@;
    let ghost root = root_path@;
    if same_text(file.path.as_str(), root_path) {
        return;
    }
    let (parent_path, _) = parent_dir(parent_of(file.path.as_str()), file.path.as_str(), root_path);
    assert(parent_path@ == parent_or_root(file.path@, root));
    let parent_id = get_or_create(arena, path_to_id, parent_path.as_str(), root_path, 0);
    let ghost mid = arena@;
    proof {
        lemma_own_grows(before, mid, mid.len() as int);
        assert(mid[0].path == root) by {
            assert(node_kept(before, mid, 0));
        }
        assert forall|p: Seq<char>|
            index_of_path(before, p) is Some implies #[trigger] index_of_path(mid, p) is Some by {
            let k = choose|k: int| 0 <= k < before.len() && #[trigger] before[k].path == p;
            assert(node_kept(before, mid, k));
            assert(mid[k].path == p);
        }
    }
    if path_to_id.contains_key(file.path.as_str()) {
        proof {
            assert(path_to_id@.contains_key(file.path@));
        }
        if !file.is_dir {
            if let Some(found) = path_to_id.get(file.path.as_str()) {
                let id = *found;
                proof {
                    assert(mid.len() == arena.nodes@.len());
                    assert(arena.nodes.len() == mid.len());
                    let k = choose|k: int| 0 <= k < mid.len() && #[trigger] mid[k].path == file.path@;
                }
                arena.get_mut(id).size = file.size;
                proof {
                    let x = NodeView { size: file.size, ..mid[id as int] };
                    assert(arena@ =~= mid.update(id as int, x));
                    lemma_resized(mid, id as int, file.size, root);
                }
            }
        }
        return;
    }
    let node_id = arena.add(
        Node {
            name: file.name.clone(),
            path: file.path.clone(),
            size: file.size,
            is_dir: file.is_dir,
            children: Vec::new(),
            parent: Some(parent_id),
        },
    );
    path_to_id.insert(file.path.clone(), node_id);
    // The new length is that of a vector, so it fits in a `usize`.
    assert(arena@.len() == arena.nodes@.len());
    assert(arena.nodes.len() == mid.len() + 1);
    arena.get_mut(parent_id).children.push(node_id);
    proof {
        let node = file_node(file@, parent_id);
        assert(arena@ =~= with_node(mid, node, parent_id));
        lemma_added(mid, node, parent_id, root);
    }
}

/// What the tree built for the root path `root` and the entries `files` is:
/// the nodes taken in with every size replaced by its subtree size; well
/// formed, one node per path, node 0 the root, a node for every entry other
/// than the root itself, and a root size that is the sum of all own sizes,
/// no more than the sum of the entries' sizes; every node but the root
/// hangs under the node of its parent path.
pub open spec fn is_tree_for(nodes: Seq<NodeView>, root: Seq<char>, files: Seq<FileInfoView>) -> bool {
    &&& nodes == tree_of(root, files)
    &&& well_formed(nodes)
    &&& paths_unique(nodes)
    &&& nodes[0].path == root
    &&& forall|m: int|
        0 <= m < files.len() && #[trigger] files[m].path != root ==> index_of_path(nodes, files[m].path) is Some
    &&& nodes[0].size == own_total(built(root, files))
    &&& well_formed(built(root, files))
    &&& own_total(built(root, files)) <= sizes_sum(files)
    &&& placed(nodes, root)
}

/// Takes in `files` in order below the root node for `root_path`; own sizes only.
#[verifier::rlimit(30)]
fn build_nodes(root_path: &str, files: &Vec<FileInfo>) -> (arena: Arena)
    ensures
        arena@ == built(root_path@, files@.map_values(|f: FileInfo| f@)),
        well_formed(arena@),
        paths_unique(arena@),
        arena@[0].path == root_path@,
        forall|m: int|
            0 <= m < files@.len() && #[trigger] files@[m]@.path != root_path@
                ==> index_of_path(arena@, files@[m]@.path) is Some,
        own_total(arena@) <= sizes_sum(files@.map_values(|f: FileInfo| f@)),
        placed(arena@, root_path@),
{
    let ghost fv = files@.map_values(|f: FileInfo| f@);
    let ghost root = root_path@;
    let mut arena = Arena::new();
    let mut path_to_id: StringHashMap<NodeId> = StringHashMap::new();
    let root_id = arena.add(root_node_for(file_name_of(root_path), root_path));
    path_to_id.insert(root_path.to_owned(), root_id);
    proof {
        assert(arena@ =~= seq![root_node(root)]);
        reveal(placed);
        assert(fv.take(0) =~= Seq::<FileInfoView>::empty());
        assert forall|p: Seq<char>| #[trigger]
            path_to_id@.contains_key(p) == (index_of_path(arena@, p) is Some) && (path_to_id@.contains_key(p)
                ==> index_of_path(arena@, p) == Some(path_to_id@[p])) by {
            if p == root {
                lemma_index_of_path(arena@, p, 0);
            }
        }
        assert(own_sizes(arena@, 0) == 0);
    }
    let mut i: usize = 0;
    while i < files.len()
        invariant
            fv == files@.map_values(|f: FileInfo| f@),
            root == root_path@,
            0 <= i <= files.len(),
            arena@ == built(root, fv.take(i as int)),
            well_formed(arena@),
            paths_unique(arena@),
            indexes(path_to_id@, arena@),
            arena@[0].path == root,
            placed(arena@, root),
            own_total(arena@) <= sizes_sum(fv.take(i as int)),
            forall|m: int|
                0 <= m < i && #[trigger] fv[m].path != root ==> index_of_path(arena@, fv[m].path) is Some,
        decreases files.len() - i,
    {
        let ghost before = arena@;
        proof {
            assert(fv[i as int] == files@[i as int]@);
            assert(fv.take(i + 1).drop_last() =~= fv.take(i as int));
            assert(fv.take(i + 1).last() == fv[i as int]);
            assert(sizes_sum(fv.take(i + 1)) == sizes_sum(fv.take(i as int)) + fv[i as int].size);
        }
        insert_file(&mut arena, &mut path_to_id, &files[i], root_path);
        proof {
            assert forall|m: int|
                0 <= m < i + 1 && #[trigger] fv[m].path != root implies index_of_path(arena@, fv[m].path) is Some by {
                if m < i {
                    assert(index_of_path(before, fv[m].path) is Some);
                }
            }
        }
        i = i + 1;
    }
    proof {
        assert(fv.take(files.len() as int) =~= fv);
        assert forall|m: int|
            0 <= m < files@.len() && #[trigger] files@[m]@.path != root_path@
                implies index_of_path(arena@, files@[m]@.path) is Some by {
            assert(fv[m] == files@[m]@);
        }
    }
    arena
}

/// The sum of the own sizes of the nodes, or `None` where it does not fit in a `u64`.
fn own_size_total(arena: &Arena) -> (res: Option<u64>)
    ensures
        match res {
            Some(t) => t == own_total(arena@),
            None => own_total(arena@) > u64::MAX,
        },
{
    let mut total: u64 = 0;
    let mut i: usize = 0;
    while i < arena.nodes.len()
        invariant
            0 <= i <= arena@.len(),
            arena@.len() == arena.nodes@.len(),
            total == own_sizes(arena@, i as int),
        decreases arena@.len() - i,
    {
        match total.checked_add(arena.nodes[i].size) {
            Some(t) => {
                total = t;
            },
            None => {
                proof {
                    lemma_own_sizes_grow(arena@, i as int + 1, arena@.len() as int);
                }
                return None;
            },
        }
        i = i + 1;
    }
    Some(total)
}

proof fn lemma_own_sizes_grow(nodes: Seq<NodeView>, m: int, n: int)
    requires
        0 <= m <= n <= nodes.len(),
    ensures
        own_sizes(nodes, m) <= own_sizes(nodes, n),
    decreases n,
{
    if m < n {
        lemma_own_sizes_grow(nodes, m, n - 1);
    }
}

/// Gives every node of `arena` the size of its subtree; the root is node 0.
fn finish_tree(arena: Arena) -> (res: (Arena, NodeId))
    requires
        well_formed(arena@),
        own_total(arena@) <= u64::MAX,
    ensures
        res.1 == 0,
        res.0@ == with_subtree_sizes(arena@),
        same_shape(arena@, res.0@),
        res.0@[0].size == own_total(arena@),
{
    let ghost pre = arena@;
    let mut arena = arena;
    proof {
        lemma_root_size_is_own_total(pre);
        lemma_well_formed_tree(pre);
    }
    compute_sizes(&mut arena, 0);
    proof {
        let fin = arena@;
        assert(fin =~= with_subtree_sizes(pre)) by {
            assert forall|j: int| 0 <= j < fin.len() implies #[trigger] fin[j] == with_subtree_sizes(pre)[j] by {
                assert(in_subtree(pre, 0, j));
            }
        }
    }
    (arena, 0)
}

/// Gives the nodes taken in from `files` their subtree sizes.
fn tree_from_nodes(root_path: &str, files: &Vec<FileInfo>, arena: Arena) -> (res: (Arena, NodeId))
    requires
        arena@ == built(root_path@, files@.map_values(|f: FileInfo| f@)),
        well_formed(arena@),
        paths_unique(arena@),
        arena@[0].path == root_path@,
        forall|m: int|
            0 <= m < files@.len() && #[trigger] files@[m]@.path != root_path@
                ==> index_of_path(arena@, files@[m]@.path) is Some,
        own_total(arena@) <= sizes_sum(files@.map_values(|f: FileInfo| f@)),
        placed(arena@, root_path@),
        own_total(arena@) <= u64::MAX,
    ensures
        res.1 == 0,
        is_tree_for(res.0@, root_path@, files@.map_values(|f: FileInfo| f@)),
{
    let ghost fv = files@.map_values(|f: FileInfo| f@);
    let ghost pre = arena@;
    let res = finish_tree(arena);
    proof {
        lemma_same_shape_well_formed(pre, res.0@);
        lemma_same_shape_paths(pre, res.0@);
        lemma_placed_shape(pre, res.0@, root_path@);
        assert forall|m: int|
            0 <= m < fv.len() && #[trigger] fv[m].path != root_path@ implies index_of_path(res.0@, fv[m].path) is Some by {
            assert(fv[m] == files@[m]@);
            assert(index_of_path(pre, fv[m].path) is Some);
        }
    }
    res
}

/// Builds the tree of the scanned entries `files` below `root_path`: node 0
/// is the root; every entry gets a node under the node of its parent path,
/// missing directories in between being created; then every node's size is
/// set to the size of its subtree. The sizes must add up within a `u64`.
pub fn build_tree(root_path: &str, files: Vec<FileInfo>) -> (res: (Arena, NodeId))
    requires
        own_total(built(root_path@, files@.map_values(|f: FileInfo| f@))) <= u64::MAX,
    ensures
        res.1 == 0,
        is_tree_for(res.0@, root_path@, files@.map_values(|f: FileInfo| f@)),
{
    let arena = build_nodes(root_path, &files);
    tree_from_nodes(root_path, &files, arena)
}

proof fn lemma_sizes_sum_grow(files: Seq<FileInfoView>, m: int, n: int)
    requires
        0 <= m <= n <= files.len(),
    ensures
        sizes_sum(files.take(m)) <= sizes_sum(files.take(n)),
    decreases n,
{
    if m < n {
        assert(files.take(n).drop_last() =~= files.take(n - 1));
        lemma_sizes_sum_grow(files, m, n - 1);
    }
}

/// The sum of the sizes of the entries, or `None` where it does not fit in a `u64`.
fn entries_size_total(files: &Vec<FileInfo>) -> (res: Option<u64>)
    ensures
        match res {
            Some(t) => t == sizes_sum(files@.map_values(|f: FileInfo| f@)),
            None => sizes_sum(files@.map_values(|f: FileInfo| f@)) > u64::MAX,
        },
{
    let ghost fv = files@.map_values(|f: FileInfo| f@);
    let mut total: u64 = 0;
    let mut i: usize = 0;
    proof {
        assert(fv.take(0) =~= Seq::<FileInfoView>::empty());
    }
    while i < files.len()
        invariant
            fv == files@.map_values(|f: FileInfo| f@),
            0 <= i <= files.len(),
            total == sizes_sum(fv.take(i as int)),
        decreases files.len() - i,
    {
        proof {
            assert(fv.take(i + 1).drop_last() =~= fv.take(i as int));
            assert(fv[i as int] == files@[i as int]@);
        }
        match total.checked_add(files[i].size) {
            Some(t) => {
                total = t;
            },
            None => {
                proof {
                    lemma_sizes_sum_grow(fv, i + 1, fv.len() as int);
                    assert(fv.take(fv.len() as int) =~= fv);
                }
                return None;
            },
        }
        i = i + 1;
    }
    proof {
        assert(fv.take(files.len() as int) =~= fv);
    }
    Some(total)
}

/// `build_tree` where the sizes add up within a `u64`, and `None` where
/// they do not. The tree is built once: where the entries' sizes fit, so do
/// the nodes' own sizes; otherwise the nodes are built and their sizes added
/// before they are finished.
pub fn try_build_tree(root_path: &str, files: Vec<FileInfo>) -> (res: Option<(Arena, NodeId)>)
    ensures
        match res {
            Some(r) => r.1 == 0 && is_tree_for(r.0@, root_path@, files@.map_values(|f: FileInfo| f@)),
            None => own_total(built(root_path@, files@.map_values(|f: FileInfo| f@))) > u64::MAX,
        },
{
    let ghost fv = files@.map_values(|f: FileInfo| f@);
    match entries_size_total(&files) {
        Some(_) => {
            proof {
                law_built_within_sizes(root_path@, fv);
            }
            Some(build_tree(root_path, files))
        },
        None => {
            let nodes = build_nodes(root_path, &files);
            match own_size_total(&nodes) {
                Some(_) => Some(tree_from_nodes(root_path, &files, nodes)),
                None => None,
            }
        },
    }
}

} // verus!
