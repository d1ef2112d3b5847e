//! Deployment: from a tree of imported nodes to objects of a scene.
//!
//! Each node becomes one object that carries the node's matrix. A node with
//! one mesh is itself drawable. A node with several meshes gets one more
//! object per mesh, below it and without a matrix of its own, since an object
//! can carry one renderable only. The objects of a node's children are made
//! before the node's own and then moved under it.
use vstd::prelude::*;
use crate::error::{Error, Failure};
use crate::import::{
    forest_count, lemma_forest_count_grows, lemma_forest_count_step, object_count,
    synthetic_count, ImportNode,
};
use crate::names::{make_synthetic_name, synthetic_name};
use crate::matrix::transposed_cells;
use crate::scene::{
    can_reparent, climbs_to, lemma_reparent_orphan, reparented, ObjectId, ObjectModel,
    Renderable, Scene,
};
use crate::tables::{MaterialHandle, MaterialTable, MeshHandle, MeshTable};

verus! {

/// The first of `indices` that `meshes` does not hold.
pub open spec fn first_missing_mesh(indices: Seq<u32>, meshes: Map<u32, MeshHandle>) -> Option<u32>
    decreases indices.len(),
{
    if indices.len() == 0 {
        None
    } else if !meshes.contains_key(indices[0]) {
        Some(indices[0])
    } else {
        first_missing_mesh(indices.drop_first(), meshes)
    }
}

/// What is wrong with `node` itself, if anything: it refers to a mesh and
/// either no material is registered under its name or, failing that, one of
/// its mesh indices is not in the mesh table.
pub open spec fn own_failure(
    node: ImportNode,
    materials: Map<Seq<char>, MaterialHandle>,
    meshes: Map<u32, MeshHandle>,
) -> Option<Failure> {
    if node.meshes@.len() == 0 {
        None
    } else if !materials.contains_key(node.name@) {
        Some(Failure::MaterialNotFound { node: node.name@ })
    } else {
        match first_missing_mesh(node.meshes@, meshes) {
            Some(index) => Some(Failure::MeshIndexOutOfRange { index }),
            None => None,
        }
    }
}

/// The failure that stops the deployment of `node`, if any: the first, with
/// the children taken in order and before the node itself.
pub open spec fn node_failure(
    node: ImportNode,
    materials: Map<Seq<char>, MaterialHandle>,
    meshes: Map<u32, MeshHandle>,
) -> Option<Failure>
    decreases node, 0nat,
{
    match forest_failure(node.children@, node.children@.len(), materials, meshes) {
        Some(f) => Some(f),
        None => own_failure(node, materials, meshes),
    }
}

/// The first failure among the first `n` trees of `nodes`.
pub open spec fn forest_failure(
    nodes: Seq<ImportNode>,
    n: nat,
    materials: Map<Seq<char>, MaterialHandle>,
    meshes: Map<u32, MeshHandle>,
) -> Option<Failure>
    decreases nodes, n,
{
    if n == 0 {
        None
    } else if n > nodes.len() {
        forest_failure(nodes, (n - 1) as nat, materials, meshes)
    } else {
        match forest_failure(nodes, (n - 1) as nat, materials, meshes) {
            Some(f) => Some(f),
            None => node_failure(nodes[n - 1], materials, meshes),
        }
    }
}

/// A failure among the first trees is the failure of any longer run.
pub proof fn lemma_forest_failure_stays(
    nodes: Seq<ImportNode>,
    n: nat,
    m: nat,
    materials: Map<Seq<char>, MaterialHandle>,
    meshes: Map<u32, MeshHandle>,
)
    requires
        n <= m,
        forest_failure(nodes, n, materials, meshes) is Some,
    ensures
        forest_failure(nodes, m, materials, meshes) == forest_failure(nodes, n, materials, meshes),
    decreases m,
{
    if n < m {
        lemma_forest_failure_stays(nodes, n, (m - 1) as nat, materials, meshes);
    }
}

/// Where a run of trees is free of failure, so is each of them and each
/// shorter run.
pub proof fn lemma_forest_sound(
    nodes: Seq<ImportNode>,
    n: nat,
    k: nat,
    materials: Map<Seq<char>, MaterialHandle>,
    meshes: Map<u32, MeshHandle>,
)
    requires
        k < n <= nodes.len(),
        forest_failure(nodes, n, materials, meshes) is None,
    ensures
        forest_failure(nodes, k, materials, meshes) is None,
        node_failure(nodes[k as int], materials, meshes) is None,
    decreases n,
{
    if k + 1 < n {
        lemma_forest_sound(nodes, (n - 1) as nat, k, materials, meshes);
    }
}

/// Where the objects of the `k`-th child of `node` start, if those of
/// `node`'s subtree start at `base`: children come first, in order.
pub open spec fn child_base(base: int, node: ImportNode, k: int) -> int {
    base + forest_count(node.children@, k as nat)
}

/// The position of the object that stands for `node` itself: after the
/// objects of all its children.
pub open spec fn root_position(base: int, node: ImportNode) -> int {
    base + forest_count(node.children@, node.children@.len())
}

/// The renderable for the mesh `index` of a node named `name`.
pub open spec fn binding(
    name: Seq<char>,
    index: u32,
    materials: Map<Seq<char>, MaterialHandle>,
    meshes: Map<u32, MeshHandle>,
) -> Renderable {
    Renderable { mesh: meshes[index], material: materials[name] }
}

/// The objects made for the meshes of a node whose own object is at `root`:
/// the `count` positions that follow it.
pub open spec fn synthetic_ids(root: int, count: nat) -> Seq<ObjectId> {
    Seq::new(count, |j: int| ObjectId((root + 1 + j) as usize))
}

/// The objects that stand for the children of `node`.
pub open spec fn child_roots(base: int, node: ImportNode) -> Seq<ObjectId> {
    Seq::new(
        node.children@.len(),
        |k: int| ObjectId(root_position(child_base(base, node, k), node.children@[k]) as usize),
    )
}

/// The object that stands for `node` itself at `root`, under `parent` and
/// over `children`: it has the node's name and its matrix, column by column,
/// and is drawable where the node has exactly one mesh.
pub open spec fn node_object(
    node: ImportNode,
    parent: Option<ObjectId>,
    children: Seq<ObjectId>,
    materials: Map<Seq<char>, MaterialHandle>,
    meshes: Map<u32, MeshHandle>,
) -> ObjectModel {
    ObjectModel {
        name: Some(node.name@),
        local: Some(transposed_cells(node.transformation@)),
        renderable: if node.meshes@.len() == 1 {
            Some(binding(node.name@, node.meshes@[0], materials, meshes))
        } else {
            None
        },
        parent,
        children,
    }
}

/// The object for the `j`-th mesh of a node with several, whose own object
/// is at `root`: named after node and position, without a matrix of its own,
/// drawable, and a leaf below the node's object.
pub open spec fn synthetic_object(
    root: int,
    node: ImportNode,
    j: int,
    materials: Map<Seq<char>, MaterialHandle>,
    meshes: Map<u32, MeshHandle>,
) -> ObjectModel {
    ObjectModel {
        name: Some(synthetic_name(node.name@, j as nat)),
        local: None,
        renderable: Some(binding(node.name@, node.meshes@[j], materials, meshes)),
        parent: Some(ObjectId(root as usize)),
        children: Seq::empty(),
    }
}

/// Whether the objects from `base` on are those of `node`, deployed under
/// `parent`: first the objects of each child's subtree, child by child; then
/// the node's own object, over its mesh objects and its children's objects,
/// in this order; then its mesh objects.
pub open spec fn laid_out(
    objs: Seq<ObjectModel>,
    base: int,
    node: ImportNode,
    parent: Option<ObjectId>,
    materials: Map<Seq<char>, MaterialHandle>,
    meshes: Map<u32, MeshHandle>,
) -> bool
    decreases node,
{
    let root = root_position(base, node);
    &&& 0 <= base
    &&& root + synthetic_count(node) < objs.len()
    &&& objs[root] == node_object(
        node,
        parent,
        synthetic_ids(root, synthetic_count(node)) + child_roots(base, node),
        materials,
        meshes,
    )
    &&& forall|j: int|
        0 <= j < synthetic_count(node) ==> objs[root + 1 + j] == #[trigger] synthetic_object(
            root,
            node,
            j,
            materials,
            meshes,
        )
    &&& forall|k: int|
        0 <= k < node.children@.len() ==> laid_out(
            objs,
            child_base(base, node, k),
            #[trigger] node.children@[k],
            Some(ObjectId(root as usize)),
            materials,
            meshes,
        )
}

/// Whether a deployment is laid out depends on its own objects alone, and on
/// the parent only in the parent link of the topmost.
pub proof fn lemma_laid_out_transfer(
    a: Seq<ObjectModel>,
    b: Seq<ObjectModel>,
    base: int,
    node: ImportNode,
    pa: Option<ObjectId>,
    pb: Option<ObjectId>,
    materials: Map<Seq<char>, MaterialHandle>,
    meshes: Map<u32, MeshHandle>,
)
    requires
        laid_out(a, base, node, pa, materials, meshes),
        base + object_count(node) <= b.len(),
        forall|i: int|
            base <= i < base + object_count(node) && i != root_position(base, node) ==> a[i]
                == #[trigger] b[i],
        b[root_position(base, node)] == (ObjectModel {
            parent: pb,
            ..a[root_position(base, node)]
        }),
    ensures
        laid_out(b, base, node, pb, materials, meshes),
    decreases node,
{
    let root = root_position(base, node);
    let n = node.children@.len();
    assert forall|j: int| 0 <= j < synthetic_count(node) implies b[root + 1 + j]
        == #[trigger] synthetic_object(root, node, j, materials, meshes) by {
        assert(a[root + 1 + j] == b[root + 1 + j]);
    }
    assert forall|k: int| 0 <= k < n implies laid_out(
        b,
        child_base(base, node, k),
        #[trigger] node.children@[k],
        Some(ObjectId(root as usize)),
        materials,
        meshes,
    ) by {
        let child = node.children@[k];
        let start = child_base(base, node, k);
        lemma_forest_count_step(node.children@, k as nat);
        lemma_forest_count_grows(node.children@, (k + 1) as nat, n);
        assert(laid_out(a, start, child, Some(ObjectId(root as usize)), materials, meshes));
        assert(a[root_position(start, child)] == b[root_position(start, child)]);
        lemma_laid_out_transfer(
            a,
            b,
            start,
            child,
            Some(ObjectId(root as usize)),
            Some(ObjectId(root as usize)),
            materials,
            meshes,
        );
    }
}

/// Where the objects of a node are laid out, so are those of each of its
/// children, under the node's object: what holds of a laid-out node holds of
/// every node below it.
pub proof fn lemma_laid_out_child(
    objs: Seq<ObjectModel>,
    base: int,
    node: ImportNode,
    parent: Option<ObjectId>,
    k: int,
    materials: Map<Seq<char>, MaterialHandle>,
    meshes: Map<u32, MeshHandle>,
)
    requires
        laid_out(objs, base, node, parent, materials, meshes),
        0 <= k < node.children@.len(),
    ensures
        laid_out(
            objs,
            child_base(base, node, k),
            node.children@[k],
            Some(ObjectId(root_position(base, node) as usize)),
            materials,
            meshes,
        ),
{
}

/// An object made for a mesh of a node with several has no matrix of its
/// own and stands in the world where the node's object stands: in the scene
/// that deployment leaves, and in every later scene in which that object is
/// as deployment left it, wherever the node's object has moved.
pub proof fn lemma_mesh_object_follows_node(
    deployed: Seq<ObjectModel>,
    later: Scene,
    base: int,
    node: ImportNode,
    parent: Option<ObjectId>,
    j: int,
    materials: Map<Seq<char>, MaterialHandle>,
    meshes: Map<u32, MeshHandle>,
)
    requires
        laid_out(deployed, base, node, parent, materials, meshes),
        0 <= j < synthetic_count(node),
        later.wf(),
        later@.len() >= deployed.len(),
        later@[root_position(base, node) + 1 + j] == deployed[root_position(base, node) + 1 + j],
    ensures
        deployed[root_position(base, node) + 1 + j].local is None,
        deployed[root_position(base, node) + 1 + j].parent == Some(
            ObjectId(root_position(base, node) as usize),
        ),
        later.world_chain(ObjectId((root_position(base, node) + 1 + j) as usize))
            == later.world_chain(ObjectId(root_position(base, node) as usize)),
{
    let root = root_position(base, node);
    assert(deployed[root + 1 + j] == synthetic_object(root, node, j, materials, meshes));
    later.lemma_inherits_parent_world(
        ObjectId((root + 1 + j) as usize),
        ObjectId(root as usize),
    );
}

/// Looks for what would stop the deployment of `node`, and changes nothing.
pub fn validate(node: &ImportNode, materials: &MaterialTable, meshes: &MeshTable) -> (result:
    Result<(), Error>)
    ensures
        match result {
            Ok(()) => node_failure(*node, materials@, meshes@) is None,
            Err(e) => node_failure(*node, materials@, meshes@) == Some(e@),
        },
    decreases node,
{
    let n = node.children.len();
    let mut k: usize = 0;
    while k < n
        invariant
            n == node.children@.len(),
            k <= n,
            forest_failure(node.children@, k as nat, materials@, meshes@) is None,
        decreases n - k,
    {
        match validate(&node.children[k], materials, meshes) {
            Err(e) => {
                proof {
                    lemma_forest_failure_stays(
                        node.children@,
                        (k + 1) as nat,
                        n as nat,
                        materials@,
                        meshes@,
                    );
                }
                return Err(e);
            },
            Ok(()) => {},
        }
        k = k + 1;
    }
    if node.meshes.len() == 0 {
        return Ok(());
    }
    if materials.get(&node.name).is_none() {
        return Err(Error::MaterialNotFound { node: node.name.clone() });
    }
    let count = node.meshes.len();
    let mut j: usize = 0;
    assert(node.meshes@.skip(0) =~= node.meshes@);
    while j < count
        invariant
            count == node.meshes@.len(),
            j <= count,
            materials@.contains_key(node.name@),
            forest_failure(node.children@, node.children@.len(), materials@, meshes@) is None,
            first_missing_mesh(node.meshes@, meshes@) == first_missing_mesh(
                node.meshes@.skip(j as int),
                meshes@,
            ),
        decreases count - j,
    {
        let index = node.meshes[j];
        proof {
            let rest = node.meshes@.skip(j as int);
            assert(rest[0] == index);
            assert(rest.drop_first() =~= node.meshes@.skip(j + 1));
        }
        if meshes.get(index).is_none() {
            let e = Error::MeshIndexOutOfRange { index };
            proof {
                let rest = node.meshes@.skip(j as int);
                assert(first_missing_mesh(rest, meshes@) == Some(index));
                assert(own_failure(*node, materials@, meshes@) == Some(e@));
            }
            return Err(e);
        }
        j = j + 1;
    }
    Ok(())
}

/// Where no index is missing, the table holds each.
pub proof fn lemma_none_missing(indices: Seq<u32>, meshes: Map<u32, MeshHandle>, j: int)
    requires
        first_missing_mesh(indices, meshes) is None,
        0 <= j < indices.len(),
    ensures
        meshes.contains_key(indices[j]),
    decreases indices.len(),
{
    if j > 0 {
        lemma_none_missing(indices.drop_first(), meshes, j - 1);
    }
}

/// Deploys the children of `node`, in order, each as a tree of its own, and
/// returns the objects that stand for them.
fn deploy_children(
    scene: &mut Scene,
    materials: &MaterialTable,
    meshes: &MeshTable,
    node: &ImportNode,
) -> (roots: Vec<ObjectId>)
    requires
        old(scene).wf(),
        forest_failure(node.children@, node.children@.len(), materials@, meshes@) is None,
    ensures
        final(scene).wf(),
        final(scene)@.len() == root_position(old(scene)@.len() as int, *node),
        forall|i: int| 0 <= i < old(scene)@.len() ==> final(scene)@[i] == old(scene)@[i],
        roots@ == child_roots(old(scene)@.len() as int, *node),
        forall|k: int|
            0 <= k < node.children@.len() ==> laid_out(
                final(scene)@,
                child_base(old(scene)@.len() as int, *node, k),
                #[trigger] node.children@[k],
                None,
                materials@,
                meshes@,
            ),
    decreases node, 0nat,
{
    let ghost base = scene@.len() as int;
    let n = node.children.len();
    let mut roots: Vec<ObjectId> = Vec::new();
    let mut k: usize = 0;
    while k < n
        invariant
            scene.wf(),
            n == node.children@.len(),
            k <= n,
            base == old(scene)@.len(),
            forest_failure(node.children@, n as nat, materials@, meshes@) is None,
            scene@.len() == child_base(base, *node, k as int),
            forall|i: int| 0 <= i < base ==> scene@[i] == old(scene)@[i],
            roots@.len() == k,
            forall|j: int| 0 <= j < k ==> roots@[j] == child_roots(base, *node)[j],
            forall|j: int|
                0 <= j < k ==> laid_out(
                    scene@,
                    child_base(base, *node, j),
                    #[trigger] node.children@[j],
                    None,
                    materials@,
                    meshes@,
                ),
        decreases n - k,
    {
        let ghost before = scene@;
        proof {
            lemma_forest_sound(node.children@, n as nat, k as nat, materials@, meshes@);
            lemma_forest_count_step(node.children@, k as nat);
        }
        let root = deploy_parts(scene, materials, meshes, &node.children[k]);
        proof {
            assert forall|j: int| 0 <= j < k implies laid_out(
                scene@,
                child_base(base, *node, j),
                #[trigger] node.children@[j],
                None,
                materials@,
                meshes@,
            ) by {
                lemma_forest_count_step(node.children@, j as nat);
                lemma_forest_count_grows(node.children@, (j + 1) as nat, k as nat);
                lemma_laid_out_transfer(
                    before,
                    scene@,
                    child_base(base, *node, j),
                    node.children@[j],
                    None,
                    None,
                    materials@,
                    meshes@,
                );
            }
        }
        roots.push(root);
        k = k + 1;
    }
    assert(roots@ =~= child_roots(base, *node));
    roots
}

/// Creates the object that stands for `node` itself and, where the node has
/// several meshes, one object below it for each.
fn create_own(
    scene: &mut Scene,
    materials: &MaterialTable,
    meshes: &MeshTable,
    node: &ImportNode,
) -> (container: ObjectId)
    requires
        old(scene).wf(),
        own_failure(*node, materials@, meshes@) is None,
    ensures
        final(scene).wf(),
        container.0 == old(scene)@.len(),
        final(scene)@.len() == old(scene)@.len() + 1 + synthetic_count(*node),
        forall|i: int| 0 <= i < old(scene)@.len() ==> final(scene)@[i] == old(scene)@[i],
        final(scene)@[container.0 as int] == node_object(
            *node,
            None,
            synthetic_ids(container.0 as int, synthetic_count(*node)),
            materials@,
            meshes@,
        ),
        forall|j: int|
            0 <= j < synthetic_count(*node) ==> final(scene)@[container.0 + 1 + j]
                == #[trigger] synthetic_object(container.0 as int, *node, j, materials@, meshes@),
{
    let local = node.transformation.transposed();
    let container = scene.create_object(Some(node.name.clone()), Some(local));
    let ghost root = container.0 as int;
    let count = node.meshes.len();
    assert(synthetic_ids(root, 0) =~= Seq::<ObjectId>::empty());
    if count == 1 {
        let material = materials.get(&node.name).unwrap();
        let mesh = meshes.get(node.meshes[0]).unwrap();
        scene.attach(container, Renderable { mesh, material });
    } else if count >= 2 {
        let material = materials.get(&node.name).unwrap();
        let mut j: usize = 0;
        while j < count
            invariant
                scene.wf(),
                count == node.meshes@.len(),
                count >= 2,
                j <= count,
                root == container.0,
                root == old(scene)@.len(),
                materials@.contains_key(node.name@),
                material == materials@[node.name@],
                first_missing_mesh(node.meshes@, meshes@) is None,
                scene@.len() == root + 1 + j,
                forall|i: int| 0 <= i < root ==> scene@[i] == old(scene)@[i],
                scene@[root] == node_object(
                    *node,
                    None,
                    synthetic_ids(root, j as nat),
                    materials@,
                    meshes@,
                ),
                forall|i: int|
                    0 <= i < j ==> scene@[root + 1 + i] == #[trigger] synthetic_object(
                        root,
                        *node,
                        i,
                        materials@,
                        meshes@,
                    ),
            decreases count - j,
        {
            proof {
                lemma_none_missing(node.meshes@, meshes@, j as int);
            }
            let mesh = meshes.get(node.meshes[j]).unwrap();
            let name = make_synthetic_name(&node.name, j);
            let part = scene.create_object(Some(name), None);
            scene.attach(part, Renderable { mesh, material });
            let ghost ready = scene@;
            proof {
                assert forall|steps: nat| !climbs_to(ready, container, part, steps) by {}
            }
            let moved = scene.set_parent(part, container);
            proof {
                assert(moved);
                assert(scene@ == reparented(ready, part, container));
                assert(synthetic_ids(root, j as nat).push(part) =~= synthetic_ids(
                    root,
                    (j + 1) as nat,
                ));
                assert(scene@[root + 1 + j] == synthetic_object(
                    root,
                    *node,
                    j as int,
                    materials@,
                    meshes@,
                ));
            }
            j = j + 1;
        }
    }
    container
}

/// The objects after the `k`-th child's object has been moved under the
/// object of `node`, where those of the children before it have been moved
/// already.
pub open spec fn adopted(objs: Seq<ObjectModel>, base: int, node: ImportNode, k: int) -> Seq<
    ObjectModel,
> {
    reparented(
        objs,
        child_roots(base, node)[k],
        ObjectId(root_position(base, node) as usize),
    )
}

/// Whether the objects of `node` are all there, with the objects of the
/// first `k` children moved under the object of `node` and the others still
/// trees of their own.
pub open spec fn adopting(
    objs: Seq<ObjectModel>,
    base: int,
    node: ImportNode,
    k: int,
    materials: Map<Seq<char>, MaterialHandle>,
    meshes: Map<u32, MeshHandle>,
) -> bool {
    let root = root_position(base, node);
    &&& 0 <= base
    &&& objs.len() == root + 1 + synthetic_count(node)
    &&& objs.len() <= usize::MAX
    &&& objs[root] == node_object(
        node,
        None,
        synthetic_ids(root, synthetic_count(node)) + child_roots(base, node).take(k),
        materials,
        meshes,
    )
    &&& forall|j: int|
        0 <= j < synthetic_count(node) ==> objs[root + 1 + j] == #[trigger] synthetic_object(
            root,
            node,
            j,
            materials,
            meshes,
        )
    &&& forall|j: int|
        0 <= j < node.children@.len() ==> laid_out(
            objs,
            child_base(base, node, j),
            #[trigger] node.children@[j],
            if j < k {
                Some(ObjectId(root as usize))
            } else {
                None
            },
            materials,
            meshes,
        )
}

/// Moving the next child's object under the object of `node` is possible
/// and leads from one stage of adoption to the next.
proof fn lemma_adopt_step(
    objs: Seq<ObjectModel>,
    base: int,
    node: ImportNode,
    k: int,
    materials: Map<Seq<char>, MaterialHandle>,
    meshes: Map<u32, MeshHandle>,
)
    requires
        0 <= k < node.children@.len(),
        adopting(objs, base, node, k, materials, meshes),
    ensures
        can_reparent(
            objs,
            child_roots(base, node)[k],
            ObjectId(root_position(base, node) as usize),
        ),
        adopted(objs, base, node, k).len() == objs.len(),
        forall|i: int| 0 <= i < base ==> adopted(objs, base, node, k)[i] == objs[i],
        adopting(adopted(objs, base, node, k), base, node, k + 1, materials, meshes),
{
    let root = root_position(base, node);
    let n = node.children@.len();
    let container = ObjectId(root as usize);
    let child = child_roots(base, node)[k];
    let start = child_base(base, node, k);
    let at = root_position(start, node.children@[k]);
    let parts = synthetic_ids(root, synthetic_count(node));
    let after = adopted(objs, base, node, k);
    lemma_forest_count_step(node.children@, k as nat);
    lemma_forest_count_grows(node.children@, (k + 1) as nat, n);
    assert(laid_out(objs, start, node.children@[k], None, materials, meshes));
    assert(child.0 == at);
    assert(objs[at].parent is None);
    assert forall|steps: nat| !climbs_to(objs, container, child, steps) by {}
    lemma_reparent_orphan(objs, child, container);
    assert((parts + child_roots(base, node).take(k)).push(child) =~= parts + child_roots(
        base,
        node,
    ).take(k + 1));
    assert forall|j: int| 0 <= j < synthetic_count(node) implies after[root + 1 + j]
        == #[trigger] synthetic_object(root, node, j, materials, meshes) by {
        assert(objs[root + 1 + j] == synthetic_object(root, node, j, materials, meshes));
    }
    assert forall|j: int| 0 <= j < n implies laid_out(
        after,
        child_base(base, node, j),
        #[trigger] node.children@[j],
        if j < k + 1 {
            Some(container)
        } else {
            None
        },
        materials,
        meshes,
    ) by {
        lemma_forest_count_step(node.children@, j as nat);
        if j < k {
            lemma_forest_count_grows(node.children@, (j + 1) as nat, k as nat);
        } else if j > k {
            lemma_forest_count_grows(node.children@, (k + 1) as nat, j as nat);
        }
        lemma_forest_count_grows(node.children@, (j + 1) as nat, n);
        let was = if j < k {
            Some(container)
        } else {
            None
        };
        let is = if j < k + 1 {
            Some(container)
        } else {
            None
        };
        assert(laid_out(objs, child_base(base, node, j), node.children@[j], was, materials, meshes));
        lemma_laid_out_transfer(
            objs,
            after,
            child_base(base, node, j),
            node.children@[j],
            was,
            is,
            materials,
            meshes,
        );
    }
}

/// Moves the objects that stand for the children of `node` under the object
/// that stands for `node`.
fn adopt_children(
    scene: &mut Scene,
    materials: &MaterialTable,
    meshes: &MeshTable,
    node: &ImportNode,
    roots: &Vec<ObjectId>,
    container: ObjectId,
    Ghost(base): Ghost<int>,
)
    requires
        old(scene).wf(),
        container.0 == root_position(base, *node),
        roots@ == child_roots(base, *node),
        adopting(old(scene)@, base, *node, 0, materials@, meshes@),
    ensures
        final(scene).wf(),
        final(scene)@.len() == old(scene)@.len(),
        forall|i: int| 0 <= i < base ==> final(scene)@[i] == old(scene)@[i],
        laid_out(final(scene)@, base, *node, None, materials@, meshes@),
{
    let n = roots.len();
    let mut k: usize = 0;
    while k < n
        invariant
            scene.wf(),
            n == node.children@.len(),
            k <= n,
            container.0 == root_position(base, *node),
            scene@.len() == old(scene)@.len(),
            roots@ == child_roots(base, *node),
            forall|i: int| 0 <= i < base ==> scene@[i] == old(scene)@[i],
            adopting(scene@, base, *node, k as int, materials@, meshes@),
        decreases n - k,
    {
        let ghost before = scene@;
        let child = roots[k];
        proof {
            lemma_adopt_step(before, base, *node, k as int, materials@, meshes@);
        }
        let moved = scene.set_parent(child, container);
        assert(moved);
        k = k + 1;
    }
    assert(child_roots(base, *node).take(n as int) =~= child_roots(base, *node));
}

/// Deploys `node`, which nothing stops, into `scene`, and returns the
/// object that stands for it. The new objects follow those that the scene
/// had, which stay as they were.
pub fn deploy_parts(
    scene: &mut Scene,
    materials: &MaterialTable,
    meshes: &MeshTable,
    node: &ImportNode,
) -> (id: ObjectId)
    requires
        old(scene).wf(),
        node_failure(*node, materials@, meshes@) is None,
    ensures
        final(scene).wf(),
        id.0 == root_position(old(scene)@.len() as int, *node),
        final(scene)@.len() == old(scene)@.len() + object_count(*node),
        forall|i: int| 0 <= i < old(scene)@.len() ==> final(scene)@[i] == old(scene)@[i],
        laid_out(final(scene)@, old(scene)@.len() as int, *node, None, materials@, meshes@),
    decreases node, 1nat,
{
    let ghost base = scene@.len() as int;
    let roots = deploy_children(scene, materials, meshes, node);
    let ghost grown = scene@;
    let container = create_own(scene, materials, meshes, node);
    proof {
        assert forall|k: int| 0 <= k < node.children@.len() implies laid_out(
            scene@,
            child_base(base, *node, k),
            #[trigger] node.children@[k],
            None,
            materials@,
            meshes@,
        ) by {
            lemma_forest_count_step(node.children@, k as nat);
            lemma_forest_count_grows(
                node.children@,
                (k + 1) as nat,
                node.children@.len(),
            );
            lemma_laid_out_transfer(
                grown,
                scene@,
                child_base(base, *node, k),
                node.children@[k],
                None,
                None,
                materials@,
                meshes@,
            );
        }
    }
    proof {
        let parts = synthetic_ids(container.0 as int, synthetic_count(*node));
        assert(parts + child_roots(base, *node).take(0) =~= parts);
    }
    adopt_children(scene, materials, meshes, node, &roots, container, Ghost(base));
    container
}

/// Deploys the tree of `node` into `scene` and returns the object that
/// stands for `node`, which has no parent. Where anything stops the
/// deployment, the scene stays as it was.
pub fn deploy(
    scene: &mut Scene,
    materials: &MaterialTable,
    meshes: &MeshTable,
    node: &ImportNode,
) -> (result: Result<ObjectId, Error>)
    requires
        old(scene).wf(),
    ensures
        final(scene).wf(),
        match result {
            Ok(id) => {
                &&& node_failure(*node, materials@, meshes@) is None
                &&& id.0 == root_position(old(scene)@.len() as int, *node)
                &&& final(scene)@.len() == old(scene)@.len() + object_count(*node)
                &&& final(scene)@.take(old(scene)@.len() as int) == old(scene)@
                &&& laid_out(
                    final(scene)@,
                    old(scene)@.len() as int,
                    *node,
                    None,
                    materials@,
                    meshes@,
                )
            },
            Err(e) => {
                &&& node_failure(*node, materials@, meshes@) == Some(e@)
                &&& final(scene)@ == old(scene)@
            },
        },
{
    match validate(node, materials, meshes) {
        Err(e) => Err(e),
        Ok(()) => {
            let id = deploy_parts(scene, materials, meshes, node);
            assert(scene@.take(old(scene)@.len() as int) =~= old(scene)@);
            Ok(id)
        },
    }
}

} // verus!
