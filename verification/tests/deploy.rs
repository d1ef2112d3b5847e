use scene_deploy::deploy::{deploy, deploy_parts, validate};
use scene_deploy::error::Error;
use scene_deploy::import::ImportNode;
use scene_deploy::matrix::Matrix4;
use scene_deploy::scene::{ObjectId, Renderable, Scene};
use scene_deploy::tables::{MaterialEntry, MaterialHandle, MaterialTable, MeshHandle, MeshTable};

fn matrix_of(values: [f32; 16]) -> Matrix4 {
    let mut cells = [0u32; 16];
    for (cell, value) in cells.iter_mut().zip(values.iter()) {
        *cell = value.to_bits();
    }
    Matrix4::new(cells)
}

/// Row by row, as an importer gives it: the translation is the last column.
fn imported_translation(x: f32, y: f32, z: f32) -> Matrix4 {
    matrix_of([1.0, 0.0, 0.0, x, 0.0, 1.0, 0.0, y, 0.0, 0.0, 1.0, z, 0.0, 0.0, 0.0, 1.0])
}

/// Column by column, as a scene holds it: the translation is the last group.
fn placed_translation(x: f32, y: f32, z: f32) -> Matrix4 {
    matrix_of([1.0, 0.0, 0.0, 0.0, 0.0, 1.0, 0.0, 0.0, 0.0, 0.0, 1.0, 0.0, x, y, z, 1.0])
}

fn node(name: &str, meshes: Vec<u32>, children: Vec<ImportNode>) -> ImportNode {
    ImportNode {
        name: name.to_string(),
        transformation: imported_translation(1.0, 2.0, 3.0),
        meshes,
        children,
    }
}

fn mesh_table(count: u64) -> MeshTable {
    MeshTable::from_handles((0..count).map(|i| MeshHandle { id: 100 + i }).collect())
}

fn material_table(names: &[(&str, u64)]) -> MaterialTable {
    let mut table = MaterialTable::new();
    for (name, id) in names {
        table.insert(name.to_string(), MaterialHandle { id: *id });
    }
    table
}

fn renderable(mesh: u64, material: u64) -> Option<Renderable> {
    Some(Renderable { mesh: MeshHandle { id: mesh }, material: MaterialHandle { id: material } })
}

#[test]
fn deploys_a_tree_with_one_and_two_mesh_nodes() {
    let tree = node("root", vec![], vec![node("A", vec![0], vec![]), node("B", vec![1, 2], vec![])]);
    let meshes = mesh_table(3);
    let materials = material_table(&[("A", 1), ("B", 2)]);
    let mut scene = Scene::new();
    let root = deploy(&mut scene, &materials, &meshes, &tree).unwrap();

    assert_eq!(scene.len(), 5);
    let a = scene.find(&"A".to_string()).unwrap();
    let b = scene.find(&"B".to_string()).unwrap();
    let b0 = scene.find(&"B-mesh-0".to_string()).unwrap();
    let b1 = scene.find(&"B-mesh-1".to_string()).unwrap();
    assert_eq!(scene.find(&"root".to_string()), Some(root));

    let root_object = scene.object(root).unwrap();
    assert!(root_object.renderable.is_none());
    assert!(root_object.parent.is_none());
    assert_eq!(root_object.children, vec![a, b]);
    assert_eq!(root_object.local, Some(placed_translation(1.0, 2.0, 3.0)));

    let a_object = scene.object(a).unwrap();
    assert_eq!(a_object.renderable, renderable(100, 1));
    assert_eq!(a_object.parent, Some(root));
    assert!(a_object.children.is_empty());

    let b_object = scene.object(b).unwrap();
    assert!(b_object.renderable.is_none());
    assert_eq!(b_object.parent, Some(root));
    assert_eq!(b_object.children, vec![b0, b1]);
    assert_eq!(b_object.local, Some(placed_translation(1.0, 2.0, 3.0)));

    let b0_object = scene.object(b0).unwrap();
    assert_eq!(b0_object.renderable, renderable(101, 2));
    assert_eq!(b0_object.parent, Some(b));
    assert!(b0_object.local.is_none());
    assert!(b0_object.children.is_empty());

    let b1_object = scene.object(b1).unwrap();
    assert_eq!(b1_object.renderable, renderable(102, 2));
    assert_eq!(b1_object.parent, Some(b));
    assert!(b1_object.local.is_none());
}

#[test]
fn objects_stand_in_the_order_of_deployment() {
    let tree = node("root", vec![], vec![node("A", vec![0], vec![]), node("B", vec![1, 2], vec![])]);
    let meshes = mesh_table(3);
    let materials = material_table(&[("A", 1), ("B", 2)]);
    let mut scene = Scene::new();
    let before = scene.create_object(Some("camera".to_string()), None);
    let root = deploy(&mut scene, &materials, &meshes, &tree).unwrap();
    assert_eq!(before, ObjectId(0));
    assert_eq!(scene.find(&"A".to_string()), Some(ObjectId(1)));
    assert_eq!(scene.find(&"B".to_string()), Some(ObjectId(2)));
    assert_eq!(scene.find(&"B-mesh-0".to_string()), Some(ObjectId(3)));
    assert_eq!(scene.find(&"B-mesh-1".to_string()), Some(ObjectId(4)));
    assert_eq!(root, ObjectId(5));
    let camera = scene.object(before).unwrap();
    assert!(camera.parent.is_none());
    assert!(camera.children.is_empty());
}

#[test]
fn counts_one_object_per_node_and_one_more_per_mesh_of_a_multi_mesh_node() {
    let tree = node(
        "n0",
        vec![],
        vec![node("n1", vec![0], vec![node("n3", vec![0, 1, 2], vec![])])],
    );
    let meshes = mesh_table(3);
    let materials = material_table(&[("n1", 1), ("n3", 3)]);
    let mut scene = Scene::new();
    deploy(&mut scene, &materials, &meshes, &tree).unwrap();
    assert_eq!(scene.len(), 1 + 1 + (1 + 3));
}

#[test]
fn a_node_without_meshes_needs_no_material() {
    let tree = node("pivot", vec![], vec![]);
    let mut scene = Scene::new();
    let root = deploy(&mut scene, &MaterialTable::new(), &mesh_table(0), &tree).unwrap();
    assert_eq!(scene.len(), 1);
    assert!(scene.object(root).unwrap().renderable.is_none());
}

#[test]
fn missing_material_stops_the_deployment_and_leaves_the_scene() {
    let tree = node("root", vec![], vec![node("A", vec![0], vec![]), node("B", vec![1, 2], vec![])]);
    let meshes = mesh_table(3);
    let materials = material_table(&[("A", 1)]);
    let mut scene = Scene::new();
    let camera = scene.create_object(Some("camera".to_string()), None);
    let result = deploy(&mut scene, &materials, &meshes, &tree);
    assert_eq!(result, Err(Error::MaterialNotFound { node: "B".to_string() }));
    assert_eq!(scene.len(), 1);
    assert!(scene.object(camera).unwrap().children.is_empty());
    assert_eq!(scene.find(&"A".to_string()), None);
}

#[test]
fn missing_mesh_stops_the_deployment() {
    let tree = node("root", vec![], vec![node("A", vec![0, 7, 9], vec![])]);
    let meshes = mesh_table(3);
    let materials = material_table(&[("A", 1)]);
    let mut scene = Scene::new();
    let result = deploy(&mut scene, &materials, &meshes, &tree);
    assert_eq!(result, Err(Error::MeshIndexOutOfRange { index: 7 }));
    assert_eq!(scene.len(), 0);
}

#[test]
fn the_first_failure_in_order_is_reported() {
    let meshes = mesh_table(1);
    let materials = material_table(&[("ok", 1), ("late", 2)]);
    let tree = node(
        "late",
        vec![5],
        vec![node("ok", vec![0], vec![]), node("first", vec![9], vec![]), node("ok", vec![3], vec![])],
    );
    assert_eq!(
        validate(&tree, &materials, &meshes),
        Err(Error::MaterialNotFound { node: "first".to_string() })
    );
    let tree = node("late", vec![5], vec![node("ok", vec![0], vec![])]);
    assert_eq!(
        validate(&tree, &materials, &meshes),
        Err(Error::MeshIndexOutOfRange { index: 5 })
    );
    let tree = node("unknown", vec![5], vec![]);
    assert_eq!(
        validate(&tree, &materials, &meshes),
        Err(Error::MaterialNotFound { node: "unknown".to_string() })
    );
    assert_eq!(validate(&node("ok", vec![0], vec![]), &materials, &meshes), Ok(()));
}

#[test]
fn deploy_parts_builds_a_checked_tree() {
    let tree = node("A", vec![0, 0], vec![node("A", vec![], vec![])]);
    let meshes = mesh_table(1);
    let materials = material_table(&[("A", 4)]);
    assert_eq!(validate(&tree, &materials, &meshes), Ok(()));
    let mut scene = Scene::new();
    let root = deploy_parts(&mut scene, &materials, &meshes, &tree);
    assert_eq!(root, ObjectId(1));
    assert_eq!(scene.len(), 4);
    assert_eq!(
        scene.object(root).unwrap().children,
        vec![ObjectId(2), ObjectId(3), ObjectId(0)]
    );
    assert_eq!(scene.object(ObjectId(3)).unwrap().name.as_deref(), Some("A-mesh-1"));
    assert_eq!(scene.object(ObjectId(3)).unwrap().renderable, renderable(100, 4));
}

#[test]
fn the_last_registration_of_a_name_holds() {
    let table = MaterialTable::from_entries(vec![
        MaterialEntry { name: "hair".to_string(), handle: MaterialHandle { id: 1 } },
        MaterialEntry { name: "tail".to_string(), handle: MaterialHandle { id: 2 } },
        MaterialEntry { name: "hair".to_string(), handle: MaterialHandle { id: 3 } },
    ]);
    assert_eq!(table.get(&"hair".to_string()), Some(MaterialHandle { id: 3 }));
    assert_eq!(table.get(&"tail".to_string()), Some(MaterialHandle { id: 2 }));
    assert_eq!(table.get(&"skirt".to_string()), None);
}

#[test]
fn mesh_keys_are_positions_in_the_list() {
    let table = MeshTable::from_handles(vec![MeshHandle { id: 10 }, MeshHandle { id: 20 }]);
    assert_eq!(table.get(0), Some(MeshHandle { id: 10 }));
    assert_eq!(table.get(1), Some(MeshHandle { id: 20 }));
    assert_eq!(table.get(2), None);
}

#[test]
fn names_of_mesh_objects_count_in_decimal() {
    let meshes = mesh_table(1);
    let materials = material_table(&[("m", 1)]);
    let tree = node("m", vec![0; 12], vec![]);
    let mut scene = Scene::new();
    deploy(&mut scene, &materials, &meshes, &tree).unwrap();
    assert_eq!(scene.object(ObjectId(1)).unwrap().name.as_deref(), Some("m-mesh-0"));
    assert_eq!(scene.object(ObjectId(10)).unwrap().name.as_deref(), Some("m-mesh-9"));
    assert_eq!(scene.object(ObjectId(11)).unwrap().name.as_deref(), Some("m-mesh-10"));
    assert_eq!(scene.object(ObjectId(12)).unwrap().name.as_deref(), Some("m-mesh-11"));
}

#[test]
fn mesh_objects_stand_where_their_node_stands() {
    let tree = node("root", vec![], vec![node("B", vec![1, 2], vec![])]);
    let meshes = mesh_table(3);
    let materials = material_table(&[("B", 2)]);
    let mut scene = Scene::new();
    deploy(&mut scene, &materials, &meshes, &tree).unwrap();
    let b = scene.find(&"B".to_string()).unwrap();
    let b0 = scene.find(&"B-mesh-0".to_string()).unwrap();
    let b1 = scene.find(&"B-mesh-1".to_string()).unwrap();
    let at_first = scene.read_world_chain(b);
    assert_eq!(at_first, vec![placed_translation(1.0, 2.0, 3.0), placed_translation(1.0, 2.0, 3.0)]);
    assert_eq!(scene.read_world_chain(b0), at_first);
    assert_eq!(scene.read_world_chain(b1), at_first);

    assert!(scene.set_local(b, placed_translation(7.0, 8.0, 9.0)));
    let moved = scene.read_world_chain(b);
    assert_eq!(moved, vec![placed_translation(1.0, 2.0, 3.0), placed_translation(7.0, 8.0, 9.0)]);
    assert_eq!(scene.read_world_chain(b0), moved);
    assert_eq!(scene.read_world_chain(b1), moved);
}
