//! The node tree that an importer yields.
use vstd::prelude::*;
use crate::matrix::Matrix4;

verus! {

/// A node of an imported asset. Names need not be unique in a tree.
#[derive(Debug)]
pub struct ImportNode {
    pub name: String,
    /// The node's local matrix, in the importer's layout: row by row.
    pub transformation: Matrix4,
    /// Positions in the importer's mesh list, in the order to be kept.
    pub meshes: Vec<u32>,
    pub children: Vec<ImportNode>,
}

/// The number of objects that `node` needs besides its own: one for each
/// mesh where it has several, none else.
pub open spec fn synthetic_count(node: ImportNode) -> nat {
    if node.meshes@.len() >= 2 {
        node.meshes@.len()
    } else {
        0
    }
}

/// The number of objects that stand for `node` alone.
pub open spec fn own_objects(node: ImportNode) -> nat {
    1 + synthetic_count(node)
}

/// The number of objects that stand for `node` and all below it.
pub open spec fn object_count(node: ImportNode) -> nat
    decreases node, 0nat,
{
    forest_count(node.children@, node.children@.len()) + own_objects(node)
}

/// The number of objects that stand for the first `n` trees of `nodes`. For
/// `n` beyond the length, as for the length.
pub open spec fn forest_count(nodes: Seq<ImportNode>, n: nat) -> nat
    decreases nodes, n,
{
    if n == 0 {
        0
    } else if n > nodes.len() {
        forest_count(nodes, (n - 1) as nat)
    } else {
        forest_count(nodes, (n - 1) as nat) + object_count(nodes[n - 1])
    }
}

/// Each further tree adds the objects of that tree.
pub proof fn lemma_forest_count_step(nodes: Seq<ImportNode>, k: nat)
    requires
        k < nodes.len(),
    ensures
        forest_count(nodes, k + 1) == forest_count(nodes, k) + object_count(nodes[k as int]),
        object_count(nodes[k as int]) >= 1,
{
}

/// A longer run of trees needs no fewer objects.
pub proof fn lemma_forest_count_grows(nodes: Seq<ImportNode>, k: nat, n: nat)
    requires
        k <= n,
    ensures
        forest_count(nodes, k) <= forest_count(nodes, n),
    decreases n,
{
    if k < n {
        lemma_forest_count_grows(nodes, k, (n - 1) as nat);
    }
}

impl ImportNode {
    /// A node without meshes and children.
    pub fn new(name: String, transformation: Matrix4) -> (node: ImportNode)
        ensures
            node.name == name,
            node.transformation == transformation,
            node.meshes@.len() == 0,
            node.children@.len() == 0,
    {
        ImportNode { name, transformation, meshes: Vec::new(), children: Vec::new() }
    }
}

} // verus!
