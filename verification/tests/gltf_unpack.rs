use space_prefab_logic::gltf_unpack::{
    gltf_is_spawnable, gltf_root_nodes, missing_gltf_message, plan_gltf_spawn, unpack_loaded,
    GltfInfo, GltfMeshInfo, GltfNodeInfo, MeshRef, PlanParent, PlannedEntity, PlannedKind,
    PlannedMaterial, UnpackOutcome,
};

fn node(handle: u64, children: Vec<u64>, mesh: Option<u64>) -> GltfNodeInfo {
    GltfNodeInfo { handle, children, mesh }
}

fn mesh(handle: u64, primitive_materials: Vec<Option<u64>>) -> GltfMeshInfo {
    GltfMeshInfo { handle, primitive_materials }
}

fn sample() -> (GltfInfo, Vec<GltfNodeInfo>, Vec<GltfMeshInfo>) {
    let gltf = GltfInfo { meshes: vec![10, 11, 12], materials: vec![20, 21], nodes: vec![1, 2, 3, 4] };
    let nodes = vec![
        node(1, vec![2, 3], Some(10)),
        node(2, vec![], Some(11)),
        node(3, vec![5], None),
        node(4, vec![], Some(12)),
    ];
    let meshes = vec![
        mesh(10, vec![Some(20)]),
        mesh(11, vec![Some(21), None]),
        mesh(12, vec![Some(99)]),
    ];
    (gltf, nodes, meshes)
}

fn entity(kind: PlannedKind, parent: PlanParent, mesh: Option<(usize, usize)>, material: PlannedMaterial) -> PlannedEntity {
    PlannedEntity { kind, parent, mesh: mesh.map(|(m, p)| MeshRef { mesh: m, primitive: p }), material }
}

#[test]
fn roots_are_nodes_without_listed_parent() {
    let (gltf, nodes, _) = sample();
    assert_eq!(gltf_root_nodes(&gltf, &nodes), vec![1, 4]);
}

#[test]
fn roots_ignore_children_of_missing_node_assets() {
    // Node 9 is listed but has no asset, so it names no children.
    let gltf = GltfInfo { meshes: vec![], materials: vec![], nodes: vec![9, 1, 2, 1] };
    let nodes = vec![node(1, vec![], None), node(2, vec![1], None)];
    assert_eq!(gltf_root_nodes(&gltf, &nodes), vec![9, 2]);
}

#[test]
fn plan_spawns_whole_tree_depth_first() {
    let (gltf, nodes, meshes) = sample();
    assert!(gltf_is_spawnable(&gltf, &nodes, &meshes));
    let plan = plan_gltf_spawn(&gltf, &nodes, &meshes, Some(500));
    let expected = vec![
        entity(PlannedKind::Node(1), PlanParent::External(500), Some((0, 0)), PlannedMaterial::Asset(0)),
        entity(PlannedKind::Node(2), PlanParent::Spawned(0), None, PlannedMaterial::Unset),
        entity(PlannedKind::Primitive, PlanParent::Spawned(1), Some((1, 0)), PlannedMaterial::Asset(1)),
        entity(PlannedKind::Primitive, PlanParent::Spawned(1), Some((1, 1)), PlannedMaterial::Default),
        entity(PlannedKind::Node(3), PlanParent::Spawned(0), None, PlannedMaterial::Unset),
        entity(PlannedKind::Missing, PlanParent::Spawned(4), None, PlannedMaterial::Unset),
        entity(PlannedKind::Node(4), PlanParent::External(500), Some((2, 0)), PlannedMaterial::Default),
    ];
    assert_eq!(plan, expected);
}

#[test]
fn roots_are_detached_without_parent() {
    let (gltf, nodes, meshes) = sample();
    let plan = plan_gltf_spawn(&gltf, &nodes, &meshes, None);
    assert_eq!(plan.len(), 7);
    assert_eq!(plan[0].parent, PlanParent::Detached);
    assert_eq!(plan[6].parent, PlanParent::Detached);
}

#[test]
fn mesh_index_is_last_listed_position() {
    let gltf = GltfInfo { meshes: vec![10, 11, 10], materials: vec![20, 21, 20], nodes: vec![1] };
    let nodes = vec![node(1, vec![], Some(10))];
    let meshes = vec![mesh(10, vec![Some(20)])];
    let plan = plan_gltf_spawn(&gltf, &nodes, &meshes, None);
    assert_eq!(
        plan,
        vec![entity(PlannedKind::Node(1), PlanParent::Detached, Some((2, 0)), PlannedMaterial::Asset(2))]
    );
}

#[test]
fn mesh_without_primitives_gets_no_component() {
    let gltf = GltfInfo { meshes: vec![], materials: vec![], nodes: vec![1] };
    let nodes = vec![node(1, vec![], Some(77))];
    let meshes = vec![mesh(77, vec![])];
    assert!(gltf_is_spawnable(&gltf, &nodes, &meshes));
    let plan = plan_gltf_spawn(&gltf, &nodes, &meshes, Some(3));
    assert_eq!(plan, vec![entity(PlannedKind::Node(1), PlanParent::External(3), None, PlannedMaterial::Unset)]);
}

#[test]
fn unlisted_mesh_with_primitives_is_not_spawnable() {
    let gltf = GltfInfo { meshes: vec![], materials: vec![], nodes: vec![1] };
    let nodes = vec![node(1, vec![], Some(77))];
    let meshes = vec![mesh(77, vec![None])];
    assert!(!gltf_is_spawnable(&gltf, &nodes, &meshes));
}

#[test]
fn cycle_reachable_from_root_is_not_spawnable() {
    let gltf = GltfInfo { meshes: vec![], materials: vec![], nodes: vec![0, 1, 2] };
    let nodes = vec![node(0, vec![1], None), node(1, vec![2], None), node(2, vec![1], None)];
    assert!(!gltf_is_spawnable(&gltf, &nodes, &vec![]));
}

#[test]
fn unlisted_cycle_has_no_roots() {
    let gltf = GltfInfo { meshes: vec![], materials: vec![], nodes: vec![1, 2] };
    let nodes = vec![node(1, vec![2], None), node(2, vec![1], None)];
    assert!(gltf_root_nodes(&gltf, &nodes).is_empty());
    assert!(gltf_is_spawnable(&gltf, &nodes, &vec![]));
    assert!(plan_gltf_spawn(&gltf, &nodes, &vec![], None).is_empty());
}

#[test]
fn shared_child_is_spawned_under_each_parent() {
    let gltf = GltfInfo { meshes: vec![], materials: vec![], nodes: vec![1, 2, 3] };
    let nodes = vec![node(1, vec![3], None), node(2, vec![3], None), node(3, vec![], None)];
    let plan = plan_gltf_spawn(&gltf, &nodes, &vec![], None);
    assert_eq!(
        plan,
        vec![
            entity(PlannedKind::Node(1), PlanParent::Detached, None, PlannedMaterial::Unset),
            entity(PlannedKind::Node(3), PlanParent::Spawned(0), None, PlannedMaterial::Unset),
            entity(PlannedKind::Node(2), PlanParent::Detached, None, PlannedMaterial::Unset),
            entity(PlannedKind::Node(3), PlanParent::Spawned(2), None, PlannedMaterial::Unset),
        ]
    );
}

#[test]
fn unpack_outcomes() {
    let (gltf, nodes, meshes) = sample();
    assert!(matches!(unpack_loaded(false, Some(&gltf), &nodes, &meshes, None), UnpackOutcome::Skipped));
    assert!(matches!(unpack_loaded(true, None, &nodes, &meshes, None), UnpackOutcome::MissingAsset));
    match unpack_loaded(true, Some(&gltf), &nodes, &meshes, Some(1)) {
        UnpackOutcome::Spawn(plan) => assert_eq!(plan.len(), 7),
        _ => panic!("expected a plan"),
    }
    assert_eq!(missing_gltf_message(), "Gltf asset not found or empty");
}

#[test]
fn every_parent_is_planned_before_its_children() {
    let (gltf, nodes, meshes) = sample();
    let plan = plan_gltf_spawn(&gltf, &nodes, &meshes, Some(500));
    for (i, e) in plan.iter().enumerate() {
        match e.parent {
            PlanParent::Spawned(p) => assert!(p < i),
            other => assert_eq!(other, PlanParent::External(500)),
        }
    }
}

#[test]
fn roots_are_the_entities_attached_to_the_parent() {
    let gltf = GltfInfo { meshes: vec![], materials: vec![], nodes: vec![1, 8, 2] };
    let nodes = vec![node(1, vec![2], None), node(2, vec![], None)];
    let plan = plan_gltf_spawn(&gltf, &nodes, &vec![], Some(42));
    let top: Vec<PlannedKind> = plan
        .iter()
        .filter(|e| e.parent == PlanParent::External(42))
        .map(|e| e.kind)
        .collect();
    assert_eq!(top, vec![PlannedKind::Node(1), PlannedKind::Missing]);
    assert_eq!(gltf_root_nodes(&gltf, &nodes), vec![1, 8]);
}
