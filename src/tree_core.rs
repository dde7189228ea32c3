use vstd::prelude::*;

use crate::loss_functions::Ratio;

verus! {

/// Stable position of a node in an `Arena`.
#[derive(Clone, Copy, Debug, PartialEq, Eq, Structural)]
pub struct NodeId {
    pub index: usize,
}

/// A node either splits its rows further or is terminal.
#[derive(Clone, Copy, Debug, PartialEq, Eq, Structural)]
pub enum NodeType {
    Branch,
    Leaf,
}

/// The child slot a node fills under its parent: `First` is taken by rows
/// above the parent's threshold, `Second` by the others.
#[derive(Clone, Copy, Debug, PartialEq, Eq, Structural)]
pub enum ChildType {
    First,
    Second,
}

/// What a node records of the split chosen for its rows.
#[derive(Clone, Copy, Debug, PartialEq, Eq, Structural)]
pub struct NodeData {
    pub node_type: NodeType,
    pub column: usize,
    pub value: i64,
    pub loss: Ratio,
    pub majority_class: isize,
}

/// A tree node with optional links to its parent and children.
#[derive(Clone, Copy, Debug, PartialEq, Eq, Structural)]
pub struct Node {
    pub parent: Option<NodeId>,
    pub first_child: Option<NodeId>,
    pub second_child: Option<NodeId>,
    pub data: NodeData,
}

/// Append-only store of nodes addressed by index.
#[derive(Clone, Debug)]
pub struct Arena {
    pub nodes: Vec<Node>,
}

/// `id`, if present, lies strictly between `lo` and `hi`.
pub open spec fn link_between(id: Option<NodeId>, lo: int, hi: int) -> bool {
    match id {
        None => true,
        Some(c) => lo < c.index < hi,
    }
}

/// Every child lies after its parent and inside the store; every parent before its child.
pub open spec fn nodes_wf(nodes: Seq<Node>) -> bool {
    forall|i: int|
        0 <= i < nodes.len() ==> {
            &&& link_between(#[trigger] nodes[i].first_child, i, nodes.len() as int)
            &&& link_between(nodes[i].second_child, i, nodes.len() as int)
            &&& link_between(nodes[i].parent, -1, i)
        }
}

/// `nodes` with `child` written into the given slot of `parent`, if both are given.
pub open spec fn with_child(
    nodes: Seq<Node>,
    parent: Option<NodeId>,
    slot: Option<ChildType>,
    child: NodeId,
) -> Seq<Node> {
    match parent {
        None => nodes,
        Some(p) => match slot {
            None => nodes,
            Some(ChildType::First) => nodes.update(
                p.index as int,
                Node { first_child: Some(child), ..nodes[p.index as int] },
            ),
            Some(ChildType::Second) => nodes.update(
                p.index as int,
                Node { second_child: Some(child), ..nodes[p.index as int] },
            ),
        },
    }
}

impl Arena {
    pub open spec fn wf(&self) -> bool {
        nodes_wf(self.nodes@)
    }

    /// An empty store.
    pub fn new() -> (r: Arena)
        ensures
            r.nodes@.len() == 0,
            r.wf(),
    {
        Arena { nodes: Vec::new() }
    }

    /// Appends a childless node with `data` and links it into the given slot of `parent`.
    pub fn add_new_node(
        &mut self,
        data: NodeData,
        parent: &Option<NodeId>,
        child_type: Option<ChildType>,
    ) -> (r: NodeId)
        requires
            old(self).wf(),
            link_between(*parent, -1, old(self).nodes@.len() as int),
        ensures
            r.index == old(self).nodes@.len(),
            final(self).wf(),
            final(self).nodes@ == with_child(
                old(self).nodes@.push(
                    Node { parent: *parent, first_child: None, second_child: None, data },
                ),
                *parent,
                child_type,
                r,
            ),
    {
        let next_index = self.nodes.len();
        let new_node_id = NodeId { index: next_index };
        self.nodes.push(Node { parent: *parent, first_child: None, second_child: None, data });
        if let Some(p) = parent {
            match child_type {
                Some(ChildType::First) => {
                    let mut pn = self.nodes[p.index];
                    pn.first_child = Some(new_node_id);
                    self.nodes.set(p.index, pn);
                },
                Some(ChildType::Second) => {
                    let mut pn = self.nodes[p.index];
                    pn.second_child = Some(new_node_id);
                    self.nodes.set(p.index, pn);
                },
                None => {},
            }
        }
        proof {
            let ns = self.nodes@;
            assert forall|i: int| 0 <= i < ns.len() implies {
                &&& link_between(#[trigger] ns[i].first_child, i, ns.len() as int)
                &&& link_between(ns[i].second_child, i, ns.len() as int)
                &&& link_between(ns[i].parent, -1, i)
            } by {
                if i < next_index {
                    assert(link_between(old(self).nodes@[i].first_child, i, next_index as int));
                    assert(link_between(old(self).nodes@[i].second_child, i, next_index as int));
                    assert(link_between(old(self).nodes@[i].parent, -1, i));
                }
            }
        }
        new_node_id
    }
}

impl Default for Arena {
    fn default() -> (r: Arena)
        ensures
            r.nodes@.len() == 0,
            r.wf(),
    {
        Arena { nodes: Vec::new() }
    }
}

} // verus!
