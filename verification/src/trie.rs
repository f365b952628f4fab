//! The phrase trie: an append-only arena of nodes, each holding one byte, the
//! arena index of its parent, and a first-writer-wins map from extension byte
//! to child index.

use vstd::prelude::*;
use std::collections::HashMap;

verus! {

broadcast use vstd::std_specs::hash::group_hash_axioms;

/// Mathematical model of one trie node.
pub ghost struct NodeModel {
    pub value: u8,
    pub parent: usize,
    pub children: Map<u8, usize>,
}

/// One arena entry: the node's byte, its own arena index, its parent's arena
/// index, and the transition map from extension byte to child index.
pub struct Node {
    pub parent_node: usize,
    pub children: HashMap<u8, usize>,
    pub index: usize,
    pub value: u8,
}

impl View for Node {
    type V = NodeModel;

    open spec fn view(&self) -> NodeModel {
        NodeModel { value: self.value, parent: self.parent_node, children: self.children@ }
    }
}

/// The trie: an arena of nodes whose position doubles as its identity.
pub struct Tree {
    pub nodes: Vec<Node>,
}

impl View for Tree {
    type V = Seq<NodeModel>;

    open spec fn view(&self) -> Seq<NodeModel> {
        self.nodes@.map_values(|n: Node| n@)
    }
}

/// The arena of a freshly built trie: the sentinel root alone.
pub open spec fn root_only() -> Seq<NodeModel> {
    seq![NodeModel { value: 0, parent: 0, children: Map::empty() }]
}

/// Structural soundness of one node at arena position `i`: its parent was
/// created before it, and every child transition points at a non-root node
/// inside the arena.
pub open spec fn node_ok(t: Seq<NodeModel>, i: int) -> bool {
    &&& (i > 0 ==> t[i].parent < i)
    &&& (forall|b: u8|
        t[i].children.contains_key(b) ==> 1 <= #[trigger] t[i].children[b] < t.len())
}

/// Structural soundness of a whole arena: non-empty, sentinel root at
/// position 0, and every node sound.
pub open spec fn arena_wf(t: Seq<NodeModel>) -> bool {
    &&& t.len() >= 1
    &&& t[0].value == 0
    &&& t[0].parent == 0
    &&& forall|i: int| 0 <= i < t.len() ==> #[trigger] node_ok(t, i)
}

/// One arena append at the model level: push the node at the end, then record
/// the transition in the parent unless the parent already has one for this
/// byte (first writer wins).
pub open spec fn spec_add_node(t: Seq<NodeModel>, value: u8, parent: usize) -> Seq<NodeModel>
    recommends
        parent < t.len(),
{
    let idx = t.len() as usize;
    let pushed = t.push(NodeModel { value, parent, children: Map::empty() });
    if t[parent as int].children.contains_key(value) {
        pushed
    } else {
        pushed.update(
            parent as int,
            NodeModel {
                value: t[parent as int].value,
                parent: t[parent as int].parent,
                children: t[parent as int].children.insert(value, idx),
            },
        )
    }
}

impl Tree {
    /// Well-formedness: the model arena is sound and every stored node's
    /// `index` field equals its arena position.
    pub open spec fn wf(self) -> bool {
        &&& arena_wf(self@)
        &&& forall|i: int| 0 <= i < self.nodes@.len() ==> #[trigger] self.nodes@[i].index == i
    }

    /// A fresh trie holds exactly the sentinel root: one node of value 0,
    /// parent 0, index 0, and no children.
    pub fn new() -> (t: Tree)
        ensures
            t.wf(),
            t@ == root_only(),
            t.nodes@.len() == 1,
    {
        let mut nodes: Vec<Node> = Vec::new();
        let root_node = Node { value: 0, index: 0, parent_node: 0, children: HashMap::new() };
        nodes.push(root_node);
        let t = Tree { nodes };
        proof {
            assert(t@ =~= root_only());
        }
        t
    }

    /// Append a node for byte `value` under `parent_node`. The new node's
    /// index is the arena length before the call, so parents always precede
    /// their children; the parent's transition map gains the new index only
    /// if it had no entry for `value` yet.
    pub fn add_node(&mut self, value: u8, parent_node: usize) -> (index: usize)
        requires
            old(self).wf(),
            parent_node < old(self).nodes@.len(),
        ensures
            final(self).wf(),
            final(self)@ == spec_add_node(old(self)@, value, parent_node),
            index == old(self)@.len(),
            parent_node < index,
            final(self)@.len() == old(self)@.len() + 1,
            final(self)@[index as int].value == value,
            final(self)@[index as int].parent == parent_node,
            final(self)@[index as int].children == Map::<u8, usize>::empty(),
            forall|j: int|
                0 <= j < old(self)@.len() && j != parent_node
                    ==> final(self)@[j] == old(self)@[j],
            old(self)@[parent_node as int].children.contains_key(value)
                ==> final(self)@[parent_node as int] == old(self)@[parent_node as int],
            !old(self)@[parent_node as int].children.contains_key(value)
                ==> final(self)@[parent_node as int].children
                    == old(self)@[parent_node as int].children.insert(value, index),
    {
        let index = self.nodes.len();
        let children: HashMap<u8, usize> = HashMap::new();
        self.nodes.push(Node { value, index, parent_node, children });
        let pn = &mut self.nodes[parent_node];
        if !pn.children.contains_key(&value) {
            pn.children.insert(value, index);
            proof {
                assert(self@ =~= spec_add_node(old(self)@, value, parent_node));
            }
        } else {
            proof {
                assert(self@ =~= spec_add_node(old(self)@, value, parent_node));
            }
        }
        proof {
            let t0 = old(self)@;
            let t1 = self@;
            let p = parent_node as int;
            assert forall|i: int| 0 <= i < t1.len() implies #[trigger] node_ok(t1, i) by {
                if i < t0.len() {
                    assert(node_ok(t0, i));
                    assert forall|b: u8| t1[i].children.contains_key(b) implies 1 <= #[trigger] t1[i].children[b] < t1.len() by {
                        if i == p && !t0[p].children.contains_key(value) && b == value {
                            assert(t1[i].children[b] == index);
                        } else {
                            assert(t0[i].children.contains_key(b));
                            assert(t1[i].children[b] == t0[i].children[b]);
                        }
                    }
                } else {
                    assert(t1[i].children =~= Map::<u8, usize>::empty());
                }
            }
            assert forall|i: int| 0 <= i < self.nodes@.len() implies #[trigger] self.nodes@[i].index == i by {
                if i < old(self).nodes@.len() {
                    assert(old(self).nodes@[i].index == i);
                }
            }
        }
        index
    }
}

} // verus!
