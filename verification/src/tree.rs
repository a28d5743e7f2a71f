use vstd::prelude::*;

verus! {

/// Index of a node inside an [`Arena`].
pub type NodeId = usize;

/// One file or directory of the scanned tree.
#[derive(Debug)]
pub struct Node {
    pub name: String,
    pub path: String,
    pub size: u64,
    pub is_dir: bool,
    pub children: Vec<NodeId>,
    pub parent: Option<NodeId>,
}

/// The mathematical value of a [`Node`].
pub struct NodeView {
    pub name: Seq<char>,
    pub path: Seq<char>,
    pub size: u64,
    pub is_dir: bool,
    pub children: Seq<NodeId>,
    pub parent: Option<NodeId>,
}

impl View for Node {
    type V = NodeView;

    open spec fn view(&self) -> NodeView {
        NodeView {
            name: self.name@,
            path: self.path@,
            size: self.size,
            is_dir: self.is_dir,
            children: self.children@,
            parent: self.parent,
        }
    }
}

/// Nodes stored by index; a node refers to others by their index.
pub struct Arena {
    pub nodes: Vec<Node>,
}

impl View for Arena {
    type V = Seq<NodeView>;

    open spec fn view(&self) -> Seq<NodeView> {
        self.nodes@.map_values(|n: Node| n@)
    }
}

impl Arena {
    /// An arena with no nodes.
    pub fn new() -> (res: Self)
        ensures
            res@ == Seq::<NodeView>::empty(),
    {
        Self { nodes: Vec::new() }
    }

    /// Appends `node`; its index is the number of nodes before the call.
    pub fn add(&mut self, node: Node) -> (id: NodeId)
        ensures
            id == old(self)@.len(),
            final(self)@ == old(self)@.push(node@),
    {
        let id = self.nodes.len();
        self.nodes.push(node);
        proof {
            assert(self@ =~= old(self)@.push(node@));
        }
        id
    }

    /// The node at index `id`.
    pub fn get(&self, id: NodeId) -> (node: &Node)
        requires
            id < self@.len(),
        ensures
            node@ == self@[id as int],
    {
        &self.nodes[id]
    }

    /// The node at index `id`, to be changed in place.
    pub fn get_mut(&mut self, id: NodeId) -> (node: &mut Node)
        requires
            id < old(self)@.len(),
        ensures
            node@ == old(self)@[id as int],
            final(self)@ == old(self)@.update(id as int, final(node)@),
    {
        &mut self.nodes[id]
    }
}

} // verus!
