//! Unpacking a loaded glTF file into entities: which nodes are roots, which
//! mesh and material every spawned entity refers to, and how the spawned
//! entities hang together.
//!
//! Asset handles are held by their integer id. A node or mesh asset is
//! found by its handle; where a table lists a handle twice, the first entry
//! is the one found.
use bevy_platform::collections::HashMap;
use crate::index_map::{
    index_map_contents, index_map_get, index_map_insert, index_map_new, key_set_contains,
    key_set_contents, key_set_insert, key_set_new,
};
use vstd::prelude::*;

verus! {

/// A node asset of a glTF file: its handle, the handles of its children,
/// and the handle of its mesh, if it has one.
pub struct GltfNodeInfo {
    pub handle: u64,
    pub children: Vec<u64>,
    pub mesh: Option<u64>,
}

/// A mesh asset of a glTF file: its handle and, for each of its primitives
/// in order, the handle of the primitive's material, if it has one.
pub struct GltfMeshInfo {
    pub handle: u64,
    pub primitive_materials: Vec<Option<u64>>,
}

/// The handles that a loaded glTF file lists: its meshes, materials and
/// nodes, each in the file's order.
pub struct GltfInfo {
    pub meshes: Vec<u64>,
    pub materials: Vec<u64>,
    pub nodes: Vec<u64>,
}

// ---------------------------------------------------------------------------
// Looking assets up by handle
// ---------------------------------------------------------------------------

/// `i` is the first position of the node table whose handle is `h`.
pub open spec fn is_first_node(t: Seq<GltfNodeInfo>, h: u64, i: int) -> bool {
    &&& 0 <= i < t.len()
    &&& t[i].handle == h
    &&& forall|j: int| 0 <= j < i ==> (#[trigger] t[j]).handle != h
}

/// The position of the node asset with handle `h`, if there is one.
pub open spec fn node_index(t: Seq<GltfNodeInfo>, h: u64) -> Option<int> {
    if exists|i: int| is_first_node(t, h, i) {
        Some(choose|i: int| is_first_node(t, h, i))
    } else {
        None
    }
}

/// `i` is the first position of the mesh table whose handle is `h`.
pub open spec fn is_first_mesh(t: Seq<GltfMeshInfo>, h: u64, i: int) -> bool {
    &&& 0 <= i < t.len()
    &&& t[i].handle == h
    &&& forall|j: int| 0 <= j < i ==> (#[trigger] t[j]).handle != h
}

/// The position of the mesh asset with handle `h`, if there is one.
pub open spec fn mesh_index(t: Seq<GltfMeshInfo>, h: u64) -> Option<int> {
    if exists|i: int| is_first_mesh(t, h, i) {
        Some(choose|i: int| is_first_mesh(t, h, i))
    } else {
        None
    }
}

fn find_node(t: &Vec<GltfNodeInfo>, h: u64) -> (r: Option<usize>)
    ensures
        r is Some ==> node_index(t@, h) == Some(r->0 as int),
        r is None ==> node_index(t@, h) is None,
{
    let mut i: usize = 0;
    while i < t.len()
        invariant
            i <= t.len(),
            forall|j: int| 0 <= j < i ==> (#[trigger] t@[j]).handle != h,
        decreases t.len() - i,
    {
        if t[i].handle == h {
            proof {
                assert(is_first_node(t@, h, i as int));
                let c = choose|c: int| is_first_node(t@, h, c);
                assert(c == i as int);
            }
            return Some(i);
        }
        i += 1;
    }
    None
}

fn find_mesh(t: &Vec<GltfMeshInfo>, h: u64) -> (r: Option<usize>)
    ensures
        r is Some ==> mesh_index(t@, h) == Some(r->0 as int),
        r is None ==> mesh_index(t@, h) is None,
{
    let mut i: usize = 0;
    while i < t.len()
        invariant
            i <= t.len(),
            forall|j: int| 0 <= j < i ==> (#[trigger] t@[j]).handle != h,
        decreases t.len() - i,
    {
        if t[i].handle == h {
            proof {
                assert(is_first_mesh(t@, h, i as int));
                let c = choose|c: int| is_first_mesh(t@, h, c);
                assert(c == i as int);
            }
            return Some(i);
        }
        i += 1;
    }
    None
}

// ---------------------------------------------------------------------------
// Handle to index maps
// ---------------------------------------------------------------------------

/// The map that enumerating `s` and inserting each handle with its position
/// builds: a handle listed more than once keeps its last position.
pub open spec fn index_map_of(s: Seq<u64>) -> Map<u64, usize>
    decreases s.len(),
{
    if s.len() == 0 {
        Map::empty()
    } else {
        index_map_of(s.drop_last()).insert(s.last(), (s.len() - 1) as usize)
    }
}

/// A handle has an index exactly when it is listed, and its index is the
/// position of its last occurrence.
pub proof fn lemma_index_map_last_occurrence(s: Seq<u64>, h: u64)
    requires
        s.len() <= usize::MAX,
    ensures
        index_map_of(s).contains_key(h) <==> s.contains(h),
        index_map_of(s).contains_key(h) ==> {
            let i = index_map_of(s)[h] as int;
            &&& 0 <= i < s.len()
            &&& s[i] == h
            &&& forall|j: int| i < j < s.len() ==> s[j] != h
        },
    decreases s.len(),
{
    if s.len() > 0 {
        let t = s.drop_last();
        lemma_index_map_last_occurrence(t, h);
        if s.last() != h {
            if t.contains(h) {
                let k = choose|k: int| 0 <= k < t.len() && t[k] == h;
                assert(s[k] == h);
            }
            if s.contains(h) {
                let k = choose|k: int| 0 <= k < s.len() && s[k] == h;
                assert(t[k] == h);
            }
            if index_map_of(s).contains_key(h) {
                let i = index_map_of(s)[h] as int;
                assert(index_map_of(s)[h] == index_map_of(t)[h]);
                assert forall|j: int| i < j < s.len() implies s[j] != h by {
                    if j < t.len() {
                        assert(s[j] == t[j]);
                    }
                }
            }
        } else {
            assert(s[s.len() - 1] == h);
        }
    }
}

fn build_index_map(handles: &Vec<u64>) -> (m: HashMap<u64, usize>)
    ensures
        index_map_contents(m) == index_map_of(handles@),
{
    let mut m = index_map_new();
    proof {
        assert(index_map_contents(m) =~= index_map_of(handles@.take(0)));
    }
    let mut i: usize = 0;
    while i < handles.len()
        invariant
            i <= handles.len(),
            index_map_contents(m) == index_map_of(handles@.take(i as int)),
        decreases handles.len() - i,
    {
        let _ = index_map_insert(&mut m, handles[i], i);
        proof {
            assert(handles@.take(i + 1).drop_last() =~= handles@.take(i as int));
        }
        i += 1;
    }
    proof {
        assert(handles@.take(handles.len() as int) =~= handles@);
    }
    m
}

// ---------------------------------------------------------------------------
// Roots of the node graph
// ---------------------------------------------------------------------------

/// `h` is child `j` of the node asset of `nodes[i]`.
pub open spec fn is_child_at(nodes: Seq<u64>, table: Seq<GltfNodeInfo>, i: int, j: int, h: u64) -> bool {
    &&& 0 <= i < nodes.len()
    &&& match node_index(table, nodes[i]) {
        Some(k) => 0 <= j < table[k].children.len() && table[k].children@[j] == h,
        None => false,
    }
}

/// Some node that the file lists, and whose asset is found, names `h` as a
/// child.
pub open spec fn has_listed_parent(nodes: Seq<u64>, table: Seq<GltfNodeInfo>, h: u64) -> bool {
    exists|i: int, j: int| is_child_at(nodes, table, i, j, h)
}

/// `h` is a child of one of `nodes[..n]`, or child `jj < m` of `nodes[n]`.
spec fn parent_before(nodes: Seq<u64>, table: Seq<GltfNodeInfo>, n: int, m: int, h: u64) -> bool {
    exists|i: int, j: int| #[trigger] is_child_at(nodes, table, i, j, h) && (i < n || (i == n && j < m))
}

/// The listed nodes among `nodes[..n]` that no listed node names as a child,
/// in order.
pub open spec fn roots_prefix(nodes: Seq<u64>, table: Seq<GltfNodeInfo>, n: nat) -> Seq<u64>
    decreases n,
{
    if n == 0 || n > nodes.len() {
        Seq::empty()
    } else {
        let r = roots_prefix(nodes, table, (n - 1) as nat);
        if has_listed_parent(nodes, table, nodes[n - 1]) {
            r
        } else {
            r.push(nodes[n - 1])
        }
    }
}

/// The roots of the file's node graph: its listed nodes that no listed node
/// names as a child, in the file's order.
pub open spec fn gltf_roots(nodes: Seq<u64>, table: Seq<GltfNodeInfo>) -> Seq<u64> {
    roots_prefix(nodes, table, nodes.len())
}

fn build_parent_set(nodes: &Vec<u64>, table: &Vec<GltfNodeInfo>) -> (s: HashMap<u64, ()>)
    ensures
        forall|h: u64| key_set_contents(s).contains(h) <==> has_listed_parent(nodes@, table@, h),
{
    let mut s = key_set_new();
    let mut i: usize = 0;
    while i < nodes.len()
        invariant
            i <= nodes.len(),
            forall|h: u64| key_set_contents(s).contains(h) <==> parent_before(nodes@, table@, i as int, 0, h),
        decreases nodes.len() - i,
    {
        match find_node(table, nodes[i]) {
            Some(k) => {
                let children = &table[k].children;
                let mut j: usize = 0;
                while j < children.len()
                    invariant
                        i < nodes.len(),
                        k < table.len(),
                        node_index(table@, nodes@[i as int]) == Some(k as int),
                        children == &table@[k as int].children,
                        j <= children.len(),
                        forall|h: u64| key_set_contents(s).contains(h) <==> parent_before(nodes@, table@, i as int, j as int, h),
                    decreases children.len() - j,
                {
                    let c = children[j];
                    let _ = key_set_insert(&mut s, c);
                    proof {
                        assert(is_child_at(nodes@, table@, i as int, j as int, c));
                        assert forall|h: u64| key_set_contents(s).contains(h) <==> parent_before(nodes@, table@, i as int, j + 1, h) by {
                            if parent_before(nodes@, table@, i as int, j + 1, h) {
                                let (a, b) = choose|a: int, b: int| #[trigger] is_child_at(nodes@, table@, a, b, h) && (a < i || (a == i && b < j + 1));
                                if !(a == i && b == j) {
                                    assert(parent_before(nodes@, table@, i as int, j as int, h));
                                }
                            }
                            if h != c && key_set_contents(s).contains(h) {
                                assert(parent_before(nodes@, table@, i as int, j as int, h));
                            }
                        }
                    }
                    j += 1;
                }
                proof {
                    assert forall|h: u64| key_set_contents(s).contains(h) <==> parent_before(nodes@, table@, i + 1, 0, h) by {
                        if parent_before(nodes@, table@, i + 1, 0, h) {
                            let (a, b) = choose|a: int, b: int| #[trigger] is_child_at(nodes@, table@, a, b, h) && (a < i + 1 || (a == i + 1 && b < 0));
                            assert(parent_before(nodes@, table@, i as int, j as int, h));
                        }
                        if parent_before(nodes@, table@, i as int, j as int, h) {
                            let (a, b) = choose|a: int, b: int| #[trigger] is_child_at(nodes@, table@, a, b, h) && (a < i || (a == i && b < j));
                            assert(parent_before(nodes@, table@, i + 1, 0, h));
                        }
                    }
                }
            },
            None => {
                proof {
                    assert forall|h: u64| key_set_contents(s).contains(h) <==> parent_before(nodes@, table@, i + 1, 0, h) by {
                        if parent_before(nodes@, table@, i + 1, 0, h) {
                            let (a, b) = choose|a: int, b: int| #[trigger] is_child_at(nodes@, table@, a, b, h) && (a < i + 1 || (a == i + 1 && b < 0));
                            assert(parent_before(nodes@, table@, i as int, 0, h));
                        }
                        if parent_before(nodes@, table@, i as int, 0, h) {
                            let (a, b) = choose|a: int, b: int| #[trigger] is_child_at(nodes@, table@, a, b, h) && (a < i || (a == i && b < 0));
                            assert(parent_before(nodes@, table@, i + 1, 0, h));
                        }
                    }
                }
            },
        }
        i += 1;
    }
    proof {
        assert forall|h: u64| key_set_contents(s).contains(h) <==> has_listed_parent(nodes@, table@, h) by {
            if has_listed_parent(nodes@, table@, h) {
                let (a, b) = choose|a: int, b: int| is_child_at(nodes@, table@, a, b, h);
                assert(parent_before(nodes@, table@, i as int, 0, h));
            }
            if parent_before(nodes@, table@, i as int, 0, h) {
                let (a, b) = choose|a: int, b: int| #[trigger] is_child_at(nodes@, table@, a, b, h) && (a < i || (a == i && b < 0));
                assert(has_listed_parent(nodes@, table@, h));
            }
        }
    }
    s
}

/// The roots of a loaded glTF file's node graph: the nodes it lists that no
/// listed node, whose asset is found, names as a child; in the file's order,
/// a node listed twice appearing twice.
pub fn gltf_root_nodes(gltf: &GltfInfo, node_assets: &Vec<GltfNodeInfo>) -> (roots: Vec<u64>)
    ensures
        roots@ == gltf_roots(gltf.nodes@, node_assets@),
{
    let has_parent = build_parent_set(&gltf.nodes, node_assets);
    let nodes = &gltf.nodes;
    let mut roots: Vec<u64> = Vec::new();
    let mut i: usize = 0;
    while i < nodes.len()
        invariant
            i <= nodes.len(),
            forall|h: u64| key_set_contents(has_parent).contains(h) <==> has_listed_parent(nodes@, node_assets@, h),
            roots@ == roots_prefix(nodes@, node_assets@, i as nat),
        decreases nodes.len() - i,
    {
        let h = nodes[i];
        if !key_set_contains(&has_parent, h) {
            roots.push(h);
        }
        i += 1;
    }
    roots
}


/// A handle is a root exactly when the file lists it and no listed node, whose
/// asset is found, names it as a child.
pub proof fn lemma_root_membership(nodes: Seq<u64>, table: Seq<GltfNodeInfo>, h: u64)
    ensures
        gltf_roots(nodes, table).contains(h) <==> (nodes.contains(h) && !has_listed_parent(nodes, table, h)),
{
    lemma_roots_prefix_membership(nodes, table, h, nodes.len());
}

proof fn lemma_roots_prefix_membership(nodes: Seq<u64>, table: Seq<GltfNodeInfo>, h: u64, n: nat)
    requires
        n <= nodes.len(),
    ensures
        roots_prefix(nodes, table, n).contains(h) <==> (
            (exists|i: int| 0 <= i < n && nodes[i] == h) && !has_listed_parent(nodes, table, h)),
    decreases n,
{
    if n > 0 {
        lemma_roots_prefix_membership(nodes, table, h, (n - 1) as nat);
        let r = roots_prefix(nodes, table, (n - 1) as nat);
        if !has_listed_parent(nodes, table, nodes[n - 1]) {
            let rp = r.push(nodes[n - 1]);
            assert(rp[r.len() as int] == nodes[n - 1]);
            if rp.contains(h) && h != nodes[n - 1] {
                let k = choose|k: int| 0 <= k < rp.len() && rp[k] == h;
                assert(r[k] == h);
            }
            if r.contains(h) {
                let k = choose|k: int| 0 <= k < r.len() && r[k] == h;
                assert(rp[k] == h);
            }
        }
        if exists|i: int| 0 <= i < n && nodes[i] == h {
            let i = choose|i: int| 0 <= i < n && nodes[i] == h;
            if i < n - 1 {
                assert(exists|i: int| 0 <= i < n - 1 && nodes[i] == h);
            }
        }
    }
}

// ---------------------------------------------------------------------------
// The spawn plan
// ---------------------------------------------------------------------------

/// Where a planned entity is attached.
#[derive(Clone, Copy, PartialEq, Eq, Debug, Structural)]
pub enum PlanParent {
    /// Not attached to any entity.
    Detached,
    /// A child of an entity that exists outside the plan.
    External(u64),
    /// A child of the planned entity at this position of the plan.
    Spawned(usize),
}

/// What a planned entity stands for.
#[derive(Clone, Copy, PartialEq, Eq, Debug, Structural)]
pub enum PlannedKind {
    /// A node whose asset was not found: an empty entity.
    Missing,
    /// The node with this handle: its transform, default visibility and the
    /// prefab marker.
    Node(u64),
    /// One primitive of a node's mesh: default transform and visibility and
    /// the prefab marker.
    Primitive,
}

/// The material component of a planned entity.
#[derive(Clone, Copy, PartialEq, Eq, Debug, Structural)]
pub enum PlannedMaterial {
    /// No material component.
    Unset,
    /// The default material.
    Default,
    /// The material of the glTF file with this index.
    Asset(usize),
}

/// A mesh asset of a glTF file: primitive `primitive` of mesh `mesh`, both
/// indices into the file.
#[derive(Clone, Copy, PartialEq, Eq, Debug, Structural)]
pub struct MeshRef {
    pub mesh: usize,
    pub primitive: usize,
}

/// One entity that unpacking spawns.
#[derive(Clone, Copy, PartialEq, Eq, Debug, Structural)]
pub struct PlannedEntity {
    pub kind: PlannedKind,
    pub parent: PlanParent,
    pub mesh: Option<MeshRef>,
    pub material: PlannedMaterial,
}

/// The material of a primitive whose material handle is `m`: the indexed
/// material where the handle has an index, else the default one.
pub open spec fn material_slot(ti: Map<u64, usize>, m: Option<u64>) -> PlannedMaterial {
    match m {
        Some(h) => if ti.contains_key(h) {
            PlannedMaterial::Asset(ti[h])
        } else {
            PlannedMaterial::Default
        },
        None => PlannedMaterial::Default,
    }
}

/// The entity of the node with handle `h` and mesh `mesh`: a mesh of exactly
/// one primitive is put on the node itself.
pub open spec fn node_entity(
    meshes: Seq<GltfMeshInfo>,
    mi: Map<u64, usize>,
    ti: Map<u64, usize>,
    h: u64,
    mesh: Option<u64>,
    parent: PlanParent,
) -> PlannedEntity {
    let unset = PlannedEntity { kind: PlannedKind::Node(h), parent, mesh: None, material: PlannedMaterial::Unset };
    match mesh {
        Some(mh) => match mesh_index(meshes, mh) {
            Some(q) => if meshes[q].primitive_materials.len() == 1 {
                PlannedEntity {
                    kind: PlannedKind::Node(h),
                    parent,
                    mesh: Some(MeshRef { mesh: mi[mh], primitive: 0 }),
                    material: material_slot(ti, meshes[q].primitive_materials@[0]),
                }
            } else {
                unset
            },
            None => unset,
        },
        None => unset,
    }
}

/// The entity of primitive `p` of mesh `mh`, a child of the entity at `owner`.
pub open spec fn primitive_entity(mi: Map<u64, usize>, ti: Map<u64, usize>, mh: u64, pm: Seq<Option<u64>>, owner: usize, p: int) -> PlannedEntity {
    PlannedEntity {
        kind: PlannedKind::Primitive,
        parent: PlanParent::Spawned(owner),
        mesh: Some(MeshRef { mesh: mi[mh], primitive: p as usize }),
        material: material_slot(ti, pm[p]),
    }
}

/// The primitive children of a node entity at `owner`: one per primitive of
/// its mesh, unless the mesh has exactly one.
pub open spec fn primitive_entities(
    meshes: Seq<GltfMeshInfo>,
    mi: Map<u64, usize>,
    ti: Map<u64, usize>,
    mesh: Option<u64>,
    owner: usize,
) -> Seq<PlannedEntity> {
    match mesh {
        Some(mh) => match mesh_index(meshes, mh) {
            Some(q) => {
                let pm = meshes[q].primitive_materials@;
                if pm.len() == 1 {
                    Seq::empty()
                } else {
                    Seq::new(pm.len(), |p: int| primitive_entity(mi, ti, mh, pm, owner, p))
                }
            },
            None => Seq::empty(),
        },
        None => Seq::empty(),
    }
}

/// A mesh that gets a component has an index in the file.
pub open spec fn mesh_indexable(meshes: Seq<GltfMeshInfo>, mi: Map<u64, usize>, mesh: Option<u64>) -> bool {
    match mesh {
        Some(mh) => match mesh_index(meshes, mh) {
            Some(q) => meshes[q].primitive_materials.len() >= 1 ==> mi.contains_key(mh),
            None => true,
        },
        None => true,
    }
}

/// Spawning the node `h` ends within `fuel` levels, and every mesh that it
/// puts on an entity has an index in the file.
pub open spec fn spawnable(nodes: Seq<GltfNodeInfo>, meshes: Seq<GltfMeshInfo>, mi: Map<u64, usize>, h: u64, fuel: nat) -> bool
    decreases fuel,
{
    fuel > 0 && match node_index(nodes, h) {
        None => true,
        Some(k) => {
            &&& mesh_indexable(meshes, mi, nodes[k].mesh)
            &&& forall|j: int| #![trigger nodes[k].children@[j]] 0 <= j < nodes[k].children@.len() ==>
                spawnable(nodes, meshes, mi, nodes[k].children@[j], (fuel - 1) as nat)
        },
    }
}

/// The entities that spawning node `h` under `parent` plans, the first at
/// position `base`: the node, its primitives, then the subtrees of its
/// children in order.
pub open spec fn spawn_spec(
    nodes: Seq<GltfNodeInfo>,
    meshes: Seq<GltfMeshInfo>,
    mi: Map<u64, usize>,
    ti: Map<u64, usize>,
    h: u64,
    parent: PlanParent,
    base: nat,
    fuel: nat,
) -> Seq<PlannedEntity>
    decreases fuel, 0nat,
{
    if fuel == 0 {
        Seq::empty()
    } else {
        match node_index(nodes, h) {
            None => seq![PlannedEntity { kind: PlannedKind::Missing, parent, mesh: None, material: PlannedMaterial::Unset }],
            Some(k) => {
                let own = seq![node_entity(meshes, mi, ti, h, nodes[k].mesh, parent)]
                    + primitive_entities(meshes, mi, ti, nodes[k].mesh, base as usize);
                own + children_spec(
                    nodes, meshes, mi, ti, nodes[k].children@, nodes[k].children@.len(),
                    PlanParent::Spawned(base as usize), base + own.len(), (fuel - 1) as nat,
                )
            },
        }
    }
}

/// The entities that spawning `cs[..n]` in order under `parent` plans, the
/// first at position `base`.
pub open spec fn children_spec(
    nodes: Seq<GltfNodeInfo>,
    meshes: Seq<GltfMeshInfo>,
    mi: Map<u64, usize>,
    ti: Map<u64, usize>,
    cs: Seq<u64>,
    n: nat,
    parent: PlanParent,
    base: nat,
    fuel: nat,
) -> Seq<PlannedEntity>
    decreases fuel, n,
{
    if n == 0 || n > cs.len() {
        Seq::empty()
    } else {
        let done = children_spec(nodes, meshes, mi, ti, cs, (n - 1) as nat, parent, base, fuel);
        done + spawn_spec(nodes, meshes, mi, ti, cs[n - 1], parent, base + done.len(), fuel)
    }
}

fn material_slot_of(material_map: &HashMap<u64, usize>, m: Option<u64>) -> (r: PlannedMaterial)
    ensures
        r == material_slot(index_map_contents(*material_map), m),
{
    match m {
        Some(h) => match index_map_get(material_map, h) {
            Some(idx) => PlannedMaterial::Asset(idx),
            None => PlannedMaterial::Default,
        },
        None => PlannedMaterial::Default,
    }
}

/// Appends the entities of node `h` and its mesh to `plan`.
fn spawn_own(
    meshes: &Vec<GltfMeshInfo>,
    mesh_map: &HashMap<u64, usize>,
    material_map: &HashMap<u64, usize>,
    h: u64,
    mesh: Option<u64>,
    parent: PlanParent,
    plan: &mut Vec<PlannedEntity>,
)
    requires
        mesh_indexable(meshes@, index_map_contents(*mesh_map), mesh),
    ensures
        final(plan)@ == old(plan)@ + seq![node_entity(meshes@, index_map_contents(*mesh_map), index_map_contents(*material_map), h, mesh, parent)]
            + primitive_entities(meshes@, index_map_contents(*mesh_map), index_map_contents(*material_map), mesh, old(plan).len()),
{
    let ghost mi = index_map_contents(*mesh_map);
    let ghost ti = index_map_contents(*material_map);
    let id = plan.len();
    let head = PlannedEntity { kind: PlannedKind::Node(h), parent, mesh: None, material: PlannedMaterial::Unset };
    match mesh {
        Some(mh) => match find_mesh(meshes, mh) {
            Some(q) => {
                let pm = &meshes[q].primitive_materials;
                if pm.len() == 1 {
                    let mesh_idx = index_map_get(mesh_map, mh).unwrap();
                    let material = material_slot_of(material_map, pm[0]);
                    plan.push(PlannedEntity { kind: PlannedKind::Node(h), parent, mesh: Some(MeshRef { mesh: mesh_idx, primitive: 0 }), material });
                    proof {
                        assert(primitive_entities(meshes@, mi, ti, mesh, id) =~= Seq::<PlannedEntity>::empty());
                    }
                } else {
                    plan.push(head);
                    let ghost start = plan@;
                    let mut p: usize = 0;
                    while p < pm.len()
                        invariant
                            p <= pm.len(),
                            pm@.len() != 1,
                            pm == &meshes@[q as int].primitive_materials,
                            mesh_index(meshes@, mh) == Some(q as int),
                            mi == index_map_contents(*mesh_map),
                            ti == index_map_contents(*material_map),
                            pm@.len() >= 1 ==> mi.contains_key(mh),
                            plan@ == start + Seq::new(p as nat, |i: int| primitive_entity(mi, ti, mh, pm@, id, i)),
                        decreases pm.len() - p,
                    {
                        let mesh_idx = index_map_get(mesh_map, mh).unwrap();
                        let material = material_slot_of(material_map, pm[p]);
                        plan.push(PlannedEntity {
                            kind: PlannedKind::Primitive,
                            parent: PlanParent::Spawned(id),
                            mesh: Some(MeshRef { mesh: mesh_idx, primitive: p }),
                            material,
                        });
                        proof {
                            assert(Seq::new((p + 1) as nat, |i: int| primitive_entity(mi, ti, mh, pm@, id, i))
                                =~= Seq::new(p as nat, |i: int| primitive_entity(mi, ti, mh, pm@, id, i))
                                    .push(primitive_entity(mi, ti, mh, pm@, id, p as int)));
                        }
                        p += 1;
                    }
                    proof {
                        assert(primitive_entities(meshes@, mi, ti, mesh, id)
                            =~= Seq::new(pm@.len(), |i: int| primitive_entity(mi, ti, mh, pm@, id, i)));
                    }
                }
            },
            None => {
                plan.push(head);
                proof {
                    assert(primitive_entities(meshes@, mi, ti, mesh, id) =~= Seq::<PlannedEntity>::empty());
                }
            },
        },
        None => {
            plan.push(head);
            proof {
                assert(primitive_entities(meshes@, mi, ti, mesh, id) =~= Seq::<PlannedEntity>::empty());
            }
        },
    }
}

/// Appends the entities of node `h`, spawned under `parent`, and of its
/// whole subtree to `plan`.
fn spawn_node(
    nodes: &Vec<GltfNodeInfo>,
    meshes: &Vec<GltfMeshInfo>,
    mesh_map: &HashMap<u64, usize>,
    material_map: &HashMap<u64, usize>,
    h: u64,
    parent: PlanParent,
    plan: &mut Vec<PlannedEntity>,
    Ghost(fuel): Ghost<nat>,
)
    requires
        spawnable(nodes@, meshes@, index_map_contents(*mesh_map), h, fuel),
    ensures
        final(plan)@ == old(plan)@ + spawn_spec(nodes@, meshes@, index_map_contents(*mesh_map),
            index_map_contents(*material_map), h, parent, old(plan).len() as nat, fuel),
    decreases fuel,
{
    let ghost mi = index_map_contents(*mesh_map);
    let ghost ti = index_map_contents(*material_map);
    match find_node(nodes, h) {
        None => {
            plan.push(PlannedEntity { kind: PlannedKind::Missing, parent, mesh: None, material: PlannedMaterial::Unset });
        },
        Some(k) => {
            let id = plan.len();
            let node = &nodes[k];
            spawn_own(meshes, mesh_map, material_map, h, node.mesh, parent, plan);
            let ghost own = seq![node_entity(meshes@, mi, ti, h, node.mesh, parent)]
                + primitive_entities(meshes@, mi, ti, node.mesh, id);
            let ghost start = old(plan)@ + own;
            let children = &node.children;
            let mut j: usize = 0;
            while j < children.len()
                invariant
                    fuel > 0,
                    k < nodes.len(),
                    node_index(nodes@, h) == Some(k as int),
                    children == &nodes@[k as int].children,
                    spawnable(nodes@, meshes@, mi, h, fuel),
                    mi == index_map_contents(*mesh_map),
                    ti == index_map_contents(*material_map),
                    j <= children.len(),
                    plan@ == start + children_spec(nodes@, meshes@, mi, ti, children@, j as nat,
                        PlanParent::Spawned(id), (id + own.len()) as nat, (fuel - 1) as nat),
                    start.len() == id + own.len(),
                decreases children.len() - j,
            {
                spawn_node(nodes, meshes, mesh_map, material_map, children[j], PlanParent::Spawned(id), plan,
                    Ghost((fuel - 1) as nat));
                j += 1;
            }
        },
    }
}

/// The roots of a file, spawned in order, are attached to this parent.
pub open spec fn root_parent(parent: Option<u64>) -> PlanParent {
    match parent {
        Some(e) => PlanParent::External(e),
        None => PlanParent::Detached,
    }
}

/// The recursion depth that unpacking allows: one level more than there are
/// node assets, which an acyclic node graph never needs.
pub open spec fn spawn_fuel(node_assets: Seq<GltfNodeInfo>) -> nat {
    node_assets.len() + 1
}

/// Unpacking the file ends, and every mesh it puts on an entity is listed
/// in the file; a node graph with a cycle reachable from a root fails this.
pub open spec fn gltf_spawnable(gltf: GltfInfo, node_assets: Seq<GltfNodeInfo>, mesh_assets: Seq<GltfMeshInfo>) -> bool {
    let roots = gltf_roots(gltf.nodes@, node_assets);
    forall|i: int| 0 <= i < roots.len() ==>
        #[trigger] spawnable(node_assets, mesh_assets, index_map_of(gltf.meshes@), roots[i], spawn_fuel(node_assets))
}

/// The entities that unpacking a loaded file plans: the subtree of every
/// root in order, each root attached to `parent` where there is one.
pub open spec fn gltf_spawn_plan(
    gltf: GltfInfo,
    node_assets: Seq<GltfNodeInfo>,
    mesh_assets: Seq<GltfMeshInfo>,
    parent: Option<u64>,
) -> Seq<PlannedEntity> {
    let roots = gltf_roots(gltf.nodes@, node_assets);
    children_spec(
        node_assets, mesh_assets, index_map_of(gltf.meshes@), index_map_of(gltf.materials@),
        roots, roots.len(), root_parent(parent), 0, spawn_fuel(node_assets),
    )
}

/// Plans the entities that unpacking a loaded glTF file spawns: every root
/// node of the file with its whole subtree, in depth-first order, roots
/// attached to `parent`.
pub fn plan_gltf_spawn(
    gltf: &GltfInfo,
    node_assets: &Vec<GltfNodeInfo>,
    mesh_assets: &Vec<GltfMeshInfo>,
    parent: Option<u64>,
) -> (plan: Vec<PlannedEntity>)
    requires
        gltf_spawnable(*gltf, node_assets@, mesh_assets@),
    ensures
        plan@ == gltf_spawn_plan(*gltf, node_assets@, mesh_assets@, parent),
{
    let mesh_map = build_index_map(&gltf.meshes);
    let material_map = build_index_map(&gltf.materials);
    let roots = gltf_root_nodes(gltf, node_assets);
    let ghost mi = index_map_contents(mesh_map);
    let ghost ti = index_map_contents(material_map);
    let ghost fuel = spawn_fuel(node_assets@);
    let top = match parent {
        Some(e) => PlanParent::External(e),
        None => PlanParent::Detached,
    };
    let mut plan: Vec<PlannedEntity> = Vec::new();
    let mut r: usize = 0;
    while r < roots.len()
        invariant
            r <= roots.len(),
            roots@ == gltf_roots(gltf.nodes@, node_assets@),
            gltf_spawnable(*gltf, node_assets@, mesh_assets@),
            mi == index_map_of(gltf.meshes@),
            mi == index_map_contents(mesh_map),
            ti == index_map_of(gltf.materials@),
            ti == index_map_contents(material_map),
            fuel == spawn_fuel(node_assets@),
            top == root_parent(parent),
            plan@ == children_spec(node_assets@, mesh_assets@, mi, ti, roots@, r as nat, top, 0, fuel),
        decreases roots.len() - r,
    {
        assert(spawnable(node_assets@, mesh_assets@, mi, roots@[r as int], fuel));
        spawn_node(node_assets, mesh_assets, &mesh_map, &material_map, roots[r], top, &mut plan, Ghost(fuel));
        r += 1;
    }
    plan
}

/// Whether `spawnable(h, depth + 1)` holds.
fn subtree_spawnable(
    nodes: &Vec<GltfNodeInfo>,
    meshes: &Vec<GltfMeshInfo>,
    mesh_map: &HashMap<u64, usize>,
    h: u64,
    depth: usize,
) -> (r: bool)
    ensures
        r == spawnable(nodes@, meshes@, index_map_contents(*mesh_map), h, (depth + 1) as nat),
    decreases depth,
{
    let ghost mi = index_map_contents(*mesh_map);
    match find_node(nodes, h) {
        None => true,
        Some(k) => {
            let node = &nodes[k];
            let mesh_ok = match node.mesh {
                Some(mh) => match find_mesh(meshes, mh) {
                    Some(q) => meshes[q].primitive_materials.len() == 0 || index_map_get(mesh_map, mh).is_some(),
                    None => true,
                },
                None => true,
            };
            if !mesh_ok {
                return false;
            }
            let children = &node.children;
            let mut j: usize = 0;
            while j < children.len()
                invariant
                    k < nodes.len(),
                    node_index(nodes@, h) == Some(k as int),
                    children == &nodes@[k as int].children,
                    mi == index_map_contents(*mesh_map),
                    j <= children.len(),
                    forall|jj: int| 0 <= jj < j ==> spawnable(nodes@, meshes@, mi, #[trigger] children@[jj], depth as nat),
                decreases children.len() - j,
            {
                if depth == 0 {
                    assert(!spawnable(nodes@, meshes@, mi, children@[j as int], depth as nat));
                    return false;
                }
                if !subtree_spawnable(nodes, meshes, mesh_map, children[j], depth - 1) {
                    return false;
                }
                j += 1;
            }
            true
        },
    }
}

/// Whether unpacking the file ends, with every mesh it puts on an entity
/// listed in the file.
pub fn gltf_is_spawnable(gltf: &GltfInfo, node_assets: &Vec<GltfNodeInfo>, mesh_assets: &Vec<GltfMeshInfo>) -> (r: bool)
    ensures
        r == gltf_spawnable(*gltf, node_assets@, mesh_assets@),
{
    let mesh_map = build_index_map(&gltf.meshes);
    let roots = gltf_root_nodes(gltf, node_assets);
    let ghost mi = index_map_contents(mesh_map);
    let mut r: usize = 0;
    while r < roots.len()
        invariant
            r <= roots.len(),
            roots@ == gltf_roots(gltf.nodes@, node_assets@),
            mi == index_map_of(gltf.meshes@),
            mi == index_map_contents(mesh_map),
            forall|i: int| 0 <= i < r ==>
                #[trigger] spawnable(node_assets@, mesh_assets@, mi, roots@[i], spawn_fuel(node_assets@)),
        decreases roots.len() - r,
    {
        if !subtree_spawnable(node_assets, mesh_assets, &mesh_map, roots[r], node_assets.len()) {
            assert(!spawnable(node_assets@, mesh_assets@, mi, roots@[r as int], spawn_fuel(node_assets@)));
            return false;
        }
        r += 1;
    }
    true
}

/// What unpacking one loaded glTF file comes to.
pub enum UnpackOutcome {
    /// The handle has no asset path: nothing is done.
    Skipped,
    /// The glTF asset was not found: an error toast is shown.
    MissingAsset,
    /// These entities are spawned.
    Spawn(Vec<PlannedEntity>),
}

/// The text of the toast shown when a loaded glTF asset is not found.
pub fn missing_gltf_message() -> (s: &'static str)
    ensures
        s@ == "Gltf asset not found or empty"@,
{
    "Gltf asset not found or empty"
}

/// Unpacks one loaded glTF file: a handle without a path is skipped, a
/// missing asset is reported, else the file's entities are planned.
pub fn unpack_loaded(
    has_path: bool,
    gltf: Option<&GltfInfo>,
    node_assets: &Vec<GltfNodeInfo>,
    mesh_assets: &Vec<GltfMeshInfo>,
    parent: Option<u64>,
) -> (r: UnpackOutcome)
    requires
        has_path && gltf is Some ==> gltf_spawnable(*gltf->0, node_assets@, mesh_assets@),
    ensures
        !has_path ==> r is Skipped,
        has_path && gltf is None ==> r is MissingAsset,
        has_path && gltf is Some ==> (r matches UnpackOutcome::Spawn(plan)
            && plan@ == gltf_spawn_plan(*gltf->0, node_assets@, mesh_assets@, parent)),
{
    if !has_path {
        return UnpackOutcome::Skipped;
    }
    match gltf {
        None => UnpackOutcome::MissingAsset,
        Some(g) => UnpackOutcome::Spawn(plan_gltf_spawn(g, node_assets, mesh_assets, parent)),
    }
}

/// The kind of the entity that spawning node `h` plans first.
pub open spec fn root_kind(nodes: Seq<GltfNodeInfo>, h: u64) -> PlannedKind {
    if node_index(nodes, h) is Some {
        PlannedKind::Node(h)
    } else {
        PlannedKind::Missing
    }
}

/// The entities of `s` attached to `outer`, in order.
pub open spec fn attached_to(s: Seq<PlannedEntity>, outer: PlanParent) -> Seq<PlannedEntity>
    decreases s.len(),
{
    if s.len() == 0 {
        Seq::empty()
    } else {
        let rest = attached_to(s.drop_last(), outer);
        if s.last().parent == outer {
            rest.push(s.last())
        } else {
            rest
        }
    }
}

proof fn lemma_attached_to_concat(a: Seq<PlannedEntity>, b: Seq<PlannedEntity>, outer: PlanParent)
    ensures
        attached_to(a + b, outer) == attached_to(a, outer) + attached_to(b, outer),
    decreases b.len(),
{
    if b.len() == 0 {
        assert(a + b =~= a);
        assert(attached_to(a, outer) + attached_to(b, outer) =~= attached_to(a, outer));
    } else {
        lemma_attached_to_concat(a, b.drop_last(), outer);
        assert((a + b).drop_last() =~= a + b.drop_last());
        assert((a + b).last() == b.last());
        if b.last().parent == outer {
            assert(attached_to(a, outer) + attached_to(b.drop_last(), outer).push(b.last())
                =~= (attached_to(a, outer) + attached_to(b.drop_last(), outer)).push(b.last()));
        }
    }
}

/// Every entity of `s`, planned from position `base` on, is attached either
/// to `outer` or to an entity planned before it, from `base` on.
pub open spec fn parents_precede(s: Seq<PlannedEntity>, base: nat, outer: PlanParent) -> bool {
    forall|i: int| 0 <= i < s.len() ==> {
        ||| (#[trigger] s[i]).parent == outer
        ||| (s[i].parent matches PlanParent::Spawned(p) && base <= p < base + i)
    }
}

proof fn lemma_spawn_parents_precede(
    nodes: Seq<GltfNodeInfo>,
    meshes: Seq<GltfMeshInfo>,
    mi: Map<u64, usize>,
    ti: Map<u64, usize>,
    h: u64,
    parent: PlanParent,
    base: nat,
    fuel: nat,
)
    requires
        base + spawn_spec(nodes, meshes, mi, ti, h, parent, base, fuel).len() <= usize::MAX,
    ensures
        parents_precede(spawn_spec(nodes, meshes, mi, ti, h, parent, base, fuel), base, parent),
        forall|i: int| 0 < i < spawn_spec(nodes, meshes, mi, ti, h, parent, base, fuel).len() ==>
            ((#[trigger] spawn_spec(nodes, meshes, mi, ti, h, parent, base, fuel)[i]).parent matches PlanParent::Spawned(p)
                && base <= p < base + i),
        fuel > 0 ==> spawn_spec(nodes, meshes, mi, ti, h, parent, base, fuel).len() > 0
            && spawn_spec(nodes, meshes, mi, ti, h, parent, base, fuel)[0].parent == parent
            && spawn_spec(nodes, meshes, mi, ti, h, parent, base, fuel)[0].kind == root_kind(nodes, h),
    decreases fuel, 0nat,
{
    if fuel > 0 {
        if let Some(k) = node_index(nodes, h) {
            let own = seq![node_entity(meshes, mi, ti, h, nodes[k].mesh, parent)]
                + primitive_entities(meshes, mi, ti, nodes[k].mesh, base as usize);
            let cs = nodes[k].children@;
            let rest = children_spec(nodes, meshes, mi, ti, cs, cs.len(), PlanParent::Spawned(base as usize), base + own.len(), (fuel - 1) as nat);
            let whole = own + rest;
            assert(whole == spawn_spec(nodes, meshes, mi, ti, h, parent, base, fuel));
            lemma_children_parents_precede(nodes, meshes, mi, ti, cs, cs.len(), PlanParent::Spawned(base as usize), base + own.len(), (fuel - 1) as nat);
            assert forall|i: int| 0 < i < whole.len() implies
                ((#[trigger] whole[i]).parent matches PlanParent::Spawned(p) && base <= p < base + i) by {
                if i >= own.len() {
                    assert(whole[i] == rest[i - own.len()]);
                }
            }
            assert(whole[0] == own[0]);
        }
    }
}

proof fn lemma_children_parents_precede(
    nodes: Seq<GltfNodeInfo>,
    meshes: Seq<GltfMeshInfo>,
    mi: Map<u64, usize>,
    ti: Map<u64, usize>,
    cs: Seq<u64>,
    n: nat,
    parent: PlanParent,
    base: nat,
    fuel: nat,
)
    requires
        base + children_spec(nodes, meshes, mi, ti, cs, n, parent, base, fuel).len() <= usize::MAX,
    ensures
        parents_precede(children_spec(nodes, meshes, mi, ti, cs, n, parent, base, fuel), base, parent),
    decreases fuel, n,
{
    if n > 0 && n <= cs.len() {
        let done = children_spec(nodes, meshes, mi, ti, cs, (n - 1) as nat, parent, base, fuel);
        let last = spawn_spec(nodes, meshes, mi, ti, cs[n - 1], parent, base + done.len(), fuel);
        let whole = done + last;
        lemma_children_parents_precede(nodes, meshes, mi, ti, cs, (n - 1) as nat, parent, base, fuel);
        lemma_spawn_parents_precede(nodes, meshes, mi, ti, cs[n - 1], parent, base + done.len(), fuel);
        assert forall|i: int| 0 <= i < whole.len() implies {
            ||| (#[trigger] whole[i]).parent == parent
            ||| (whole[i].parent matches PlanParent::Spawned(p) && base <= p < base + i)
        } by {
            if i >= done.len() {
                assert(whole[i] == last[i - done.len()]);
            } else {
                assert(whole[i] == done[i]);
            }
        }
    }
}

/// Every entity of a planned file is attached to an entity planned before
/// it, except the roots, which are attached to the given parent; so the plan
/// can be carried out in order.
pub proof fn lemma_plan_parents_come_first(
    gltf: GltfInfo,
    node_assets: Seq<GltfNodeInfo>,
    mesh_assets: Seq<GltfMeshInfo>,
    parent: Option<u64>,
    i: int,
)
    requires
        gltf_spawn_plan(gltf, node_assets, mesh_assets, parent).len() <= usize::MAX,
        0 <= i < gltf_spawn_plan(gltf, node_assets, mesh_assets, parent).len(),
    ensures
        ({
            let e = gltf_spawn_plan(gltf, node_assets, mesh_assets, parent)[i];
            ||| e.parent == root_parent(parent)
            ||| (e.parent matches PlanParent::Spawned(p) && p < i)
        }),
{
    let roots = gltf_roots(gltf.nodes@, node_assets);
    lemma_children_parents_precede(
        node_assets, mesh_assets, index_map_of(gltf.meshes@), index_map_of(gltf.materials@),
        roots, roots.len(), root_parent(parent), 0, spawn_fuel(node_assets),
    );
}

proof fn lemma_attached_only_first(s: Seq<PlannedEntity>, outer: PlanParent)
    requires
        s.len() > 0,
        s[0].parent == outer,
        forall|i: int| 0 < i < s.len() ==> (#[trigger] s[i]).parent != outer,
    ensures
        attached_to(s, outer) == seq![s[0]],
    decreases s.len(),
{
    if s.len() == 1 {
        assert(s.drop_last() =~= Seq::<PlannedEntity>::empty());
        assert(attached_to(s.drop_last(), outer) =~= Seq::<PlannedEntity>::empty());
        assert(s.last() == s[0]);
        assert(Seq::<PlannedEntity>::empty().push(s[0]) =~= seq![s[0]]);
    } else {
        let t = s.drop_last();
        assert forall|i: int| 0 < i < t.len() implies (#[trigger] t[i]).parent != outer by {
            assert(t[i] == s[i]);
        }
        lemma_attached_only_first(t, outer);
        assert(s.last() == s[s.len() - 1]);
        assert(s.last().parent != outer);
        assert(t[0] == s[0]);
    }
}

proof fn lemma_children_attached(
    nodes: Seq<GltfNodeInfo>,
    meshes: Seq<GltfMeshInfo>,
    mi: Map<u64, usize>,
    ti: Map<u64, usize>,
    cs: Seq<u64>,
    n: nat,
    outer: PlanParent,
    base: nat,
    fuel: nat,
)
    requires
        !(outer is Spawned),
        fuel > 0,
        n <= cs.len(),
        base + children_spec(nodes, meshes, mi, ti, cs, n, outer, base, fuel).len() <= usize::MAX,
    ensures
        attached_to(children_spec(nodes, meshes, mi, ti, cs, n, outer, base, fuel), outer).len() == n,
        forall|i: int| 0 <= i < n ==>
            (#[trigger] attached_to(children_spec(nodes, meshes, mi, ti, cs, n, outer, base, fuel), outer)[i]).kind
                == root_kind(nodes, cs[i]),
    decreases n,
{
    if n > 0 {
        let done = children_spec(nodes, meshes, mi, ti, cs, (n - 1) as nat, outer, base, fuel);
        let last = spawn_spec(nodes, meshes, mi, ti, cs[n - 1], outer, base + done.len(), fuel);
        assert(children_spec(nodes, meshes, mi, ti, cs, n, outer, base, fuel) == done + last);
        lemma_children_attached(nodes, meshes, mi, ti, cs, (n - 1) as nat, outer, base, fuel);
        lemma_spawn_parents_precede(nodes, meshes, mi, ti, cs[n - 1], outer, base + done.len(), fuel);
        assert forall|i: int| 0 < i < last.len() implies (#[trigger] last[i]).parent != outer by {
            assert(last[i].parent is Spawned);
        }
        lemma_attached_only_first(last, outer);
        lemma_attached_to_concat(done, last, outer);
        let a = attached_to(done, outer);
        assert forall|i: int| 0 <= i < n implies
            (#[trigger] (a + seq![last[0]])[i]).kind == root_kind(nodes, cs[i]) by {
            if i < n - 1 {
                assert((a + seq![last[0]])[i] == a[i]);
            }
        }
    }
}

/// Each root of the file, in order, is planned as one entity attached to the
/// given parent: the node itself, or an empty entity where its asset is
/// missing; no other entity is attached there.
pub proof fn lemma_plan_roots(
    gltf: GltfInfo,
    node_assets: Seq<GltfNodeInfo>,
    mesh_assets: Seq<GltfMeshInfo>,
    parent: Option<u64>,
)
    requires
        gltf_spawn_plan(gltf, node_assets, mesh_assets, parent).len() <= usize::MAX,
    ensures
        ({
            let top = attached_to(gltf_spawn_plan(gltf, node_assets, mesh_assets, parent), root_parent(parent));
            let roots = gltf_roots(gltf.nodes@, node_assets);
            &&& top.len() == roots.len()
            &&& forall|i: int| 0 <= i < roots.len() ==> (#[trigger] top[i]).kind == root_kind(node_assets, roots[i])
        }),
{
    let roots = gltf_roots(gltf.nodes@, node_assets);
    lemma_roots_prefix_len(gltf.nodes@, node_assets, gltf.nodes@.len());
    lemma_children_attached(
        node_assets, mesh_assets, index_map_of(gltf.meshes@), index_map_of(gltf.materials@),
        roots, roots.len(), root_parent(parent), 0, spawn_fuel(node_assets),
    );
}

proof fn lemma_roots_prefix_len(nodes: Seq<u64>, table: Seq<GltfNodeInfo>, n: nat)
    ensures
        roots_prefix(nodes, table, n).len() <= n,
    decreases n,
{
    if n > 0 {
        lemma_roots_prefix_len(nodes, table, (n - 1) as nat);
    }
}

// ---------------------------------------------------------------------------
// What every planned entity refers to
// ---------------------------------------------------------------------------

/// `x` is the last position of `h` in `s`.
pub open spec fn is_last_position(s: Seq<u64>, h: u64, x: int) -> bool {
    &&& 0 <= x < s.len()
    &&& s[x] == h
    &&& forall|j: int| x < j < s.len() ==> s[j] != h
}

/// `mat` is the material component of a primitive whose material handle is
/// `m`: the file's material at the last position of that handle where the
/// file lists it, else the default material; never no material.
pub open spec fn material_agrees(materials: Seq<u64>, m: Option<u64>, mat: PlannedMaterial) -> bool {
    match mat {
        PlannedMaterial::Asset(x) => match m {
            Some(t) => is_last_position(materials, t, x as int),
            None => false,
        },
        PlannedMaterial::Default => match m {
            Some(t) => !materials.contains(t),
            None => true,
        },
        PlannedMaterial::Unset => false,
    }
}

/// The handle and primitive materials of the mesh of node asset `k`, where
/// the node has a mesh and the mesh asset is found.
pub open spec fn node_mesh_primitives(nodes: Seq<GltfNodeInfo>, meshes: Seq<GltfMeshInfo>, k: int) -> Option<(u64, Seq<Option<u64>>)> {
    match nodes[k].mesh {
        Some(mh) => match mesh_index(meshes, mh) {
            Some(q) => Some((mh, meshes[q].primitive_materials@)),
            None => None,
        },
        None => None,
    }
}

/// What an entity says of itself: an empty entity has no mesh and no
/// material; a node entity stands for a found node asset and carries the
/// node's mesh exactly when that mesh has one primitive, the mesh named by
/// its position in the file, with that primitive's material.
pub open spec fn entity_self_sound(e: PlannedEntity, gltf: GltfInfo, nodes: Seq<GltfNodeInfo>, meshes: Seq<GltfMeshInfo>) -> bool {
    match e.kind {
        PlannedKind::Missing => e.mesh is None && e.material == PlannedMaterial::Unset,
        PlannedKind::Node(h) => node_index(nodes, h) is Some && {
            let mp = node_mesh_primitives(nodes, meshes, node_index(nodes, h)->0);
            if mp is Some && (mp->0).1.len() == 1 {
                &&& e.mesh is Some
                &&& e.mesh->0.primitive == 0
                &&& is_last_position(gltf.meshes@, (mp->0).0, e.mesh->0.mesh as int)
                &&& material_agrees(gltf.materials@, (mp->0).1[0], e.material)
            } else {
                e.mesh is None && e.material == PlannedMaterial::Unset
            }
        },
        PlannedKind::Primitive => true,
    }
}

/// What an entity says of the node entity `Node(h)` it is attached to: a
/// primitive entity is one primitive of h's mesh, which has other than one
/// primitive, named by the mesh's position in the file, with that
/// primitive's material; a node entity is one of h's children; an empty
/// entity stands for a child of h whose asset is missing.
pub open spec fn entity_child_sound(e: PlannedEntity, h: u64, gltf: GltfInfo, nodes: Seq<GltfNodeInfo>, meshes: Seq<GltfMeshInfo>) -> bool {
    node_index(nodes, h) is Some && {
        let k = node_index(nodes, h)->0;
        match e.kind {
            PlannedKind::Primitive => {
                let mp = node_mesh_primitives(nodes, meshes, k);
                &&& mp is Some
                &&& (mp->0).1.len() != 1
                &&& e.mesh is Some
                &&& e.mesh->0.primitive < (mp->0).1.len()
                &&& is_last_position(gltf.meshes@, (mp->0).0, e.mesh->0.mesh as int)
                &&& material_agrees(gltf.materials@, (mp->0).1[e.mesh->0.primitive as int], e.material)
            },
            PlannedKind::Node(c) => nodes[k].children@.contains(c),
            PlannedKind::Missing => exists|j: int| 0 <= j < nodes[k].children@.len()
                && node_index(nodes, #[trigger] nodes[k].children@[j]) is None,
        }
    }
}

/// Entity `i` of `s`, whose first entity has position `off`, is sound: it
/// is sound of itself, and it is either a node or empty entity attached to
/// `outer`, or attached to a node entity planned before it in `s` of which
/// it is sound.
pub open spec fn entity_sound(
    s: Seq<PlannedEntity>,
    off: int,
    i: int,
    outer: PlanParent,
    gltf: GltfInfo,
    nodes: Seq<GltfNodeInfo>,
    meshes: Seq<GltfMeshInfo>,
) -> bool {
    &&& entity_self_sound(s[i], gltf, nodes, meshes)
    &&& {
        ||| s[i].parent == outer && !(s[i].kind is Primitive)
        ||| {
            &&& s[i].parent is Spawned
            &&& off <= s[i].parent->Spawned_0 < off + i
            &&& s[s[i].parent->Spawned_0 - off].kind is Node
            &&& entity_child_sound(s[i], s[s[i].parent->Spawned_0 - off].kind->0, gltf, nodes, meshes)
        }
    }
}

proof fn lemma_material_agrees(materials: Seq<u64>, m: Option<u64>)
    requires
        materials.len() <= usize::MAX,
    ensures
        material_agrees(materials, m, material_slot(index_map_of(materials), m)),
{
    if let Some(t) = m {
        lemma_index_map_last_occurrence(materials, t);
    }
}

/// Soundness carries over to a sequence that holds `t` from position `d`.
proof fn lemma_sound_shift(
    s: Seq<PlannedEntity>,
    off: int,
    t: Seq<PlannedEntity>,
    d: int,
    i: int,
    outer: PlanParent,
    gltf: GltfInfo,
    nodes: Seq<GltfNodeInfo>,
    meshes: Seq<GltfMeshInfo>,
)
    requires
        0 <= d,
        0 <= i < t.len(),
        d + t.len() <= s.len(),
        forall|k: int| 0 <= k < t.len() ==> s[d + k] == #[trigger] t[k],
        entity_sound(t, off + d, i, outer, gltf, nodes, meshes),
    ensures
        entity_sound(s, off, d + i, outer, gltf, nodes, meshes),
{
    assert(s[d + i] == t[i]);
    if !(t[i].parent == outer && !(t[i].kind is Primitive)) {
        let p = t[i].parent->Spawned_0 as int;
        assert(s[p - off] == t[p - off - d]);
    }
}

proof fn lemma_spawn_sound(
    gltf: GltfInfo,
    nodes: Seq<GltfNodeInfo>,
    meshes: Seq<GltfMeshInfo>,
    h: u64,
    outer: PlanParent,
    base: nat,
    fuel: nat,
)
    requires
        gltf.meshes@.len() <= usize::MAX,
        gltf.materials@.len() <= usize::MAX,
        spawnable(nodes, meshes, index_map_of(gltf.meshes@), h, fuel),
        base + spawn_spec(nodes, meshes, index_map_of(gltf.meshes@), index_map_of(gltf.materials@), h, outer, base, fuel).len() <= usize::MAX,
        !(outer is Spawned && outer->Spawned_0 >= base),
    ensures
        forall|i: int| 0 <= i < spawn_spec(nodes, meshes, index_map_of(gltf.meshes@), index_map_of(gltf.materials@), h, outer, base, fuel).len()
            ==> #[trigger] entity_sound(spawn_spec(nodes, meshes, index_map_of(gltf.meshes@), index_map_of(gltf.materials@), h, outer, base, fuel),
                base as int, i, outer, gltf, nodes, meshes),
    decreases fuel, 0nat,
{
    let mi = index_map_of(gltf.meshes@);
    let ti = index_map_of(gltf.materials@);
    let s = spawn_spec(nodes, meshes, mi, ti, h, outer, base, fuel);
    if fuel > 0 {
        match node_index(nodes, h) {
            None => {
                assert(entity_sound(s, base as int, 0, outer, gltf, nodes, meshes));
            },
            Some(k) => {
                let own = seq![node_entity(meshes, mi, ti, h, nodes[k].mesh, outer)]
                    + primitive_entities(meshes, mi, ti, nodes[k].mesh, base as usize);
                let cs = nodes[k].children@;
                let inner = PlanParent::Spawned(base as usize);
                let rest = children_spec(nodes, meshes, mi, ti, cs, cs.len(), inner, base + own.len(), (fuel - 1) as nat);
                assert(s == own + rest);
                let mp = node_mesh_primitives(nodes, meshes, k);
                if mp is Some {
                    let mh = (mp->0).0;
                    let pm = (mp->0).1;
                    if pm.len() >= 1 {
                        assert(mi.contains_key(mh));
                        lemma_index_map_last_occurrence(gltf.meshes@, mh);
                    }
                }
                // the node entity
                assert(s[0] == own[0]);
                if mp is Some && (mp->0).1.len() == 1 {
                    lemma_material_agrees(gltf.materials@, (mp->0).1[0]);
                }
                assert(entity_sound(s, base as int, 0, outer, gltf, nodes, meshes));
                // its primitives
                assert forall|i: int| 0 < i < own.len() implies #[trigger] entity_sound(s, base as int, i, outer, gltf, nodes, meshes) by {
                    let pm = (mp->0).1;
                    assert(s[i] == own[i]);
                    assert(own[i] == primitive_entity(mi, ti, (mp->0).0, pm, base as usize, i - 1));
                    lemma_material_agrees(gltf.materials@, pm[i - 1]);
                    assert(s[0].kind == PlannedKind::Node(h));
                }
                // the subtrees of its children
                assert forall|j: int| 0 <= j < cs.len() implies #[trigger] spawnable(nodes, meshes, mi, cs[j], (fuel - 1) as nat) by {
                }
                lemma_children_sound(gltf, nodes, meshes, cs, cs.len(), inner, base + own.len(), (fuel - 1) as nat);
                assert forall|i: int| own.len() <= i < s.len() implies #[trigger] entity_sound(s, base as int, i, outer, gltf, nodes, meshes) by {
                    let r = i - own.len();
                    assert(s[i] == rest[r]);
                    assert(entity_sound(rest, (base + own.len()) as int, r, inner, gltf, nodes, meshes));
                    if rest[r].parent == inner && !(rest[r].kind is Primitive) {
                        let j = choose|j: int| 0 <= j < cs.len() && rest[r].kind == root_kind(nodes, #[trigger] cs[j]);
                        assert(s[0].kind == PlannedKind::Node(h));
                        if rest[r].kind is Node {
                            assert(cs[j] == rest[r].kind->0);
                        }
                        assert(entity_child_sound(s[i], h, gltf, nodes, meshes));
                    } else {
                        assert forall|m: int| 0 <= m < rest.len() implies s[own.len() + m] == #[trigger] rest[m] by {}
                        lemma_sound_shift(s, base as int, rest, own.len() as int, r, outer, gltf, nodes, meshes);
                    }
                }
            },
        }
    }
}

proof fn lemma_children_sound(
    gltf: GltfInfo,
    nodes: Seq<GltfNodeInfo>,
    meshes: Seq<GltfMeshInfo>,
    cs: Seq<u64>,
    n: nat,
    outer: PlanParent,
    base: nat,
    fuel: nat,
)
    requires
        gltf.meshes@.len() <= usize::MAX,
        gltf.materials@.len() <= usize::MAX,
        n <= cs.len(),
        forall|j: int| 0 <= j < n ==> #[trigger] spawnable(nodes, meshes, index_map_of(gltf.meshes@), cs[j], fuel),
        base + children_spec(nodes, meshes, index_map_of(gltf.meshes@), index_map_of(gltf.materials@), cs, n, outer, base, fuel).len() <= usize::MAX,
        !(outer is Spawned && outer->Spawned_0 >= base),
    ensures
        forall|i: int| 0 <= i < children_spec(nodes, meshes, index_map_of(gltf.meshes@), index_map_of(gltf.materials@), cs, n, outer, base, fuel).len()
            ==> #[trigger] entity_sound(children_spec(nodes, meshes, index_map_of(gltf.meshes@), index_map_of(gltf.materials@), cs, n, outer, base, fuel),
                base as int, i, outer, gltf, nodes, meshes),
        forall|i: int| 0 <= i < children_spec(nodes, meshes, index_map_of(gltf.meshes@), index_map_of(gltf.materials@), cs, n, outer, base, fuel).len()
            && (#[trigger] children_spec(nodes, meshes, index_map_of(gltf.meshes@), index_map_of(gltf.materials@), cs, n, outer, base, fuel)[i]).parent == outer
            ==> exists|j: int| 0 <= j < n
                && children_spec(nodes, meshes, index_map_of(gltf.meshes@), index_map_of(gltf.materials@), cs, n, outer, base, fuel)[i].kind
                    == root_kind(nodes, #[trigger] cs[j]),
    decreases fuel, n,
{
    let mi = index_map_of(gltf.meshes@);
    let ti = index_map_of(gltf.materials@);
    let c = children_spec(nodes, meshes, mi, ti, cs, n, outer, base, fuel);
    if n > 0 {
        let done = children_spec(nodes, meshes, mi, ti, cs, (n - 1) as nat, outer, base, fuel);
        let lb = base + done.len();
        let last = spawn_spec(nodes, meshes, mi, ti, cs[n - 1], outer, lb, fuel);
        assert(c == done + last);
        assert(spawnable(nodes, meshes, mi, cs[n - 1], fuel));
        lemma_children_sound(gltf, nodes, meshes, cs, (n - 1) as nat, outer, base, fuel);
        lemma_spawn_sound(gltf, nodes, meshes, cs[n - 1], outer, lb, fuel);
        lemma_spawn_parents_precede(nodes, meshes, mi, ti, cs[n - 1], outer, lb, fuel);
        assert forall|m: int| 0 <= m < done.len() implies c[0 + m] == #[trigger] done[m] by {}
        assert forall|m: int| 0 <= m < last.len() implies c[done.len() + m] == #[trigger] last[m] by {}
        assert forall|i: int| 0 <= i < c.len() implies #[trigger] entity_sound(c, base as int, i, outer, gltf, nodes, meshes) by {
            if i < done.len() {
                assert(entity_sound(done, base as int, i, outer, gltf, nodes, meshes));
                lemma_sound_shift(c, base as int, done, 0, i, outer, gltf, nodes, meshes);
            } else {
                let k = i - done.len();
                assert(entity_sound(last, lb as int, k, outer, gltf, nodes, meshes));
                lemma_sound_shift(c, base as int, last, done.len() as int, k, outer, gltf, nodes, meshes);
            }
        }
        assert forall|i: int| 0 <= i < c.len() && (#[trigger] c[i]).parent == outer implies
            exists|j: int| 0 <= j < n && c[i].kind == root_kind(nodes, #[trigger] cs[j]) by {
            if i < done.len() {
                assert(c[i] == done[i]);
                let j = choose|j: int| 0 <= j < n - 1 && done[i].kind == root_kind(nodes, #[trigger] cs[j]);
                assert(0 <= j < n && c[i].kind == root_kind(nodes, cs[j]));
            } else {
                let k = i - done.len();
                assert(c[i] == last[k]);
                if k > 0 {
                    assert(last[k].parent is Spawned);
                }
                assert(c[i].kind == root_kind(nodes, cs[n - 1]));
            }
        }
    }
}

/// Every entity of a planned file refers to what the file says: a node
/// entity to a found node asset, carrying the node's mesh exactly when that
/// mesh has one primitive, and every mesh by its position in the file's mesh
/// list with its primitive's material (the default one where the primitive
/// has no listed material); a primitive entity hangs under the entity of
/// the node whose mesh it belongs to; a child node, or an empty entity for
/// a missing child, hangs under the entity of its parent node; and only
/// roots hang from the given parent.
pub proof fn lemma_plan_entities_sound(
    gltf: GltfInfo,
    node_assets: Seq<GltfNodeInfo>,
    mesh_assets: Seq<GltfMeshInfo>,
    parent: Option<u64>,
)
    requires
        gltf_spawnable(gltf, node_assets, mesh_assets),
        gltf.meshes@.len() <= usize::MAX,
        gltf.materials@.len() <= usize::MAX,
        gltf_spawn_plan(gltf, node_assets, mesh_assets, parent).len() <= usize::MAX,
    ensures
        forall|i: int| 0 <= i < gltf_spawn_plan(gltf, node_assets, mesh_assets, parent).len() ==>
            #[trigger] entity_sound(gltf_spawn_plan(gltf, node_assets, mesh_assets, parent), 0, i,
                root_parent(parent), gltf, node_assets, mesh_assets),
{
    let roots = gltf_roots(gltf.nodes@, node_assets);
    lemma_roots_prefix_len(gltf.nodes@, node_assets, gltf.nodes@.len());
    assert forall|j: int| 0 <= j < roots.len() implies
        #[trigger] spawnable(node_assets, mesh_assets, index_map_of(gltf.meshes@), roots[j], spawn_fuel(node_assets)) by {
    }
    lemma_children_sound(gltf, node_assets, mesh_assets, roots, roots.len(), root_parent(parent), 0, spawn_fuel(node_assets));
}

/// The mesh of a node asset, where it is found and has primitives, is
/// listed in `listed`.
pub open spec fn mesh_listed(meshes: Seq<GltfMeshInfo>, mesh: Option<u64>, listed: Seq<u64>) -> bool {
    match mesh {
        Some(mh) => match mesh_index(meshes, mh) {
            Some(q) => meshes[q].primitive_materials.len() >= 1 ==> listed.contains(mh),
            None => true,
        },
        None => true,
    }
}

proof fn lemma_spawnable_by_rank(
    gltf: GltfInfo,
    nodes: Seq<GltfNodeInfo>,
    meshes: Seq<GltfMeshInfo>,
    rank: spec_fn(u64) -> nat,
    h: u64,
    fuel: nat,
)
    requires
        gltf.meshes@.len() <= usize::MAX,
        forall|k: int, j: int| 0 <= k < nodes.len() && 0 <= j < nodes[k].children@.len() ==>
            rank(#[trigger] nodes[k].children@[j]) < rank(nodes[k].handle),
        forall|k: int| 0 <= k < nodes.len() ==> mesh_listed(meshes, #[trigger] nodes[k].mesh, gltf.meshes@),
        rank(h) < fuel,
    ensures
        spawnable(nodes, meshes, index_map_of(gltf.meshes@), h, fuel),
    decreases fuel,
{
    let mi = index_map_of(gltf.meshes@);
    if let Some(k) = node_index(nodes, h) {
        assert(mesh_listed(meshes, nodes[k].mesh, gltf.meshes@));
        if let Some(mh) = nodes[k].mesh {
            lemma_index_map_last_occurrence(gltf.meshes@, mh);
        }
        assert forall|j: int| 0 <= j < nodes[k].children@.len() implies
            spawnable(nodes, meshes, mi, #[trigger] nodes[k].children@[j], (fuel - 1) as nat) by {
            assert(rank(nodes[k].children@[j]) < rank(nodes[k].handle));
            lemma_spawnable_by_rank(gltf, nodes, meshes, rank, nodes[k].children@[j], (fuel - 1) as nat);
        }
    }
}

/// A file whose node graph has no cycle is unpackable, as long as every mesh
/// that would be put on an entity is listed in the file. The graph has no
/// cycle exactly when every handle can be given a height no greater than
/// the number of node assets, each child lower than its parent (the height
/// of a handle bounds the length of every chain of children from it).
pub proof fn lemma_acyclic_files_are_spawnable(
    gltf: GltfInfo,
    node_assets: Seq<GltfNodeInfo>,
    mesh_assets: Seq<GltfMeshInfo>,
    rank: spec_fn(u64) -> nat,
)
    requires
        gltf.meshes@.len() <= usize::MAX,
        forall|k: int, j: int| 0 <= k < node_assets.len() && 0 <= j < node_assets[k].children@.len() ==>
            rank(#[trigger] node_assets[k].children@[j]) < rank(node_assets[k].handle),
        forall|h: u64| #[trigger] rank(h) <= node_assets.len(),
        forall|k: int| 0 <= k < node_assets.len() ==> mesh_listed(mesh_assets, #[trigger] node_assets[k].mesh, gltf.meshes@),
    ensures
        gltf_spawnable(gltf, node_assets, mesh_assets),
{
    let roots = gltf_roots(gltf.nodes@, node_assets);
    assert forall|i: int| 0 <= i < roots.len() implies
        #[trigger] spawnable(node_assets, mesh_assets, index_map_of(gltf.meshes@), roots[i], spawn_fuel(node_assets)) by {
        assert(rank(roots[i]) <= node_assets.len());
        lemma_spawnable_by_rank(gltf, node_assets, mesh_assets, rank, roots[i], spawn_fuel(node_assets));
    }
}

// ---------------------------------------------------------------------------
// Nothing of a node is left out
// ---------------------------------------------------------------------------

/// The number of primitive entities a node asset gets: one per primitive of
/// its found mesh, unless that mesh has exactly one primitive.
pub open spec fn primitive_count(nodes: Seq<GltfNodeInfo>, meshes: Seq<GltfMeshInfo>, k: int) -> nat {
    let mp = node_mesh_primitives(nodes, meshes, k);
    if mp is Some && (mp->0).1.len() != 1 {
        (mp->0).1.len()
    } else {
        0
    }
}

/// Some entity of `s` is attached to `owner` and has kind `kind`.
pub open spec fn has_attached(s: Seq<PlannedEntity>, owner: PlanParent, kind: PlannedKind) -> bool {
    exists|m: int| 0 <= m < s.len() && (#[trigger] s[m]).parent == owner && s[m].kind == kind
}

/// Some primitive entity of `s` attached to `owner` is primitive `p`.
pub open spec fn has_primitive(s: Seq<PlannedEntity>, owner: PlanParent, p: int) -> bool {
    exists|m: int| 0 <= m < s.len() && (#[trigger] s[m]).parent == owner && s[m].kind is Primitive
        && s[m].mesh is Some && s[m].mesh->0.primitive == p
}

/// Entity `i` of `s`, whose first entity has position `off`, if it is the
/// entity of a found node, has every primitive of its mesh and every one of
/// its children attached to it.
pub open spec fn node_complete(s: Seq<PlannedEntity>, off: int, i: int, nodes: Seq<GltfNodeInfo>, meshes: Seq<GltfMeshInfo>) -> bool {
    (s[i].kind is Node && node_index(nodes, s[i].kind->0) is Some) ==> {
        let k = node_index(nodes, s[i].kind->0)->0;
        let owner = PlanParent::Spawned((off + i) as usize);
        &&& forall|p: int| 0 <= p < primitive_count(nodes, meshes, k) ==> #[trigger] has_primitive(s, owner, p)
        &&& forall|j: int| 0 <= j < nodes[k].children@.len() ==>
            has_attached(s, owner, root_kind(nodes, #[trigger] nodes[k].children@[j]))
    }
}

proof fn lemma_complete_shift(
    s: Seq<PlannedEntity>,
    off: int,
    t: Seq<PlannedEntity>,
    d: int,
    i: int,
    nodes: Seq<GltfNodeInfo>,
    meshes: Seq<GltfMeshInfo>,
)
    requires
        0 <= d,
        0 <= i < t.len(),
        d + t.len() <= s.len(),
        forall|k: int| 0 <= k < t.len() ==> s[d + k] == #[trigger] t[k],
        node_complete(t, off + d, i, nodes, meshes),
    ensures
        node_complete(s, off, d + i, nodes, meshes),
{
    assert(s[d + i] == t[i]);
    if t[i].kind is Node && node_index(nodes, t[i].kind->0) is Some {
        let k = node_index(nodes, t[i].kind->0)->0;
        let owner = PlanParent::Spawned((off + d + i) as usize);
        assert forall|p: int| 0 <= p < primitive_count(nodes, meshes, k) implies #[trigger] has_primitive(s, owner, p) by {
            assert(has_primitive(t, owner, p));
            let m = choose|m: int| 0 <= m < t.len() && (#[trigger] t[m]).parent == owner && t[m].kind is Primitive
                && t[m].mesh is Some && t[m].mesh->0.primitive == p;
            assert(s[d + m] == t[m]);
        }
        assert forall|j: int| 0 <= j < nodes[k].children@.len() implies
            has_attached(s, owner, root_kind(nodes, #[trigger] nodes[k].children@[j])) by {
            let kind = root_kind(nodes, nodes[k].children@[j]);
            assert(has_attached(t, owner, kind));
            let m = choose|m: int| 0 <= m < t.len() && (#[trigger] t[m]).parent == owner && t[m].kind == kind;
            assert(s[d + m] == t[m]);
        }
    }
}

proof fn lemma_spawn_complete(
    nodes: Seq<GltfNodeInfo>,
    meshes: Seq<GltfMeshInfo>,
    mi: Map<u64, usize>,
    ti: Map<u64, usize>,
    h: u64,
    outer: PlanParent,
    base: nat,
    fuel: nat,
)
    requires
        spawnable(nodes, meshes, mi, h, fuel),
        base + spawn_spec(nodes, meshes, mi, ti, h, outer, base, fuel).len() <= usize::MAX,
    ensures
        forall|i: int| 0 <= i < spawn_spec(nodes, meshes, mi, ti, h, outer, base, fuel).len() ==>
            #[trigger] node_complete(spawn_spec(nodes, meshes, mi, ti, h, outer, base, fuel), base as int, i, nodes, meshes),
    decreases fuel, 0nat,
{
    let s = spawn_spec(nodes, meshes, mi, ti, h, outer, base, fuel);
    if fuel > 0 {
        if let Some(k) = node_index(nodes, h) {
            let own = seq![node_entity(meshes, mi, ti, h, nodes[k].mesh, outer)]
                + primitive_entities(meshes, mi, ti, nodes[k].mesh, base as usize);
            let cs = nodes[k].children@;
            let inner = PlanParent::Spawned(base as usize);
            let rest = children_spec(nodes, meshes, mi, ti, cs, cs.len(), inner, base + own.len(), (fuel - 1) as nat);
            assert(s == own + rest);
            assert forall|j: int| 0 <= j < cs.len() implies #[trigger] spawnable(nodes, meshes, mi, cs[j], (fuel - 1) as nat) by {}
            lemma_children_complete(nodes, meshes, mi, ti, cs, cs.len(), inner, base + own.len(), (fuel - 1) as nat);
            assert forall|m: int| 0 <= m < rest.len() implies s[own.len() + m] == #[trigger] rest[m] by {}
            // the node entity
            assert(s[0] == own[0]);
            assert forall|p: int| 0 <= p < primitive_count(nodes, meshes, k) implies #[trigger] has_primitive(s, inner, p) by {
                assert(s[1 + p] == own[1 + p]);
            }
            assert forall|j: int| 0 <= j < cs.len() implies has_attached(s, inner, root_kind(nodes, #[trigger] cs[j])) by {
                let kind = root_kind(nodes, cs[j]);
                let m = choose|m: int| 0 <= m < rest.len() && (#[trigger] rest[m]).parent == inner && rest[m].kind == kind;
                assert(s[own.len() + m] == rest[m]);
            }
            assert(node_complete(s, base as int, 0, nodes, meshes));
            assert forall|i: int| 0 <= i < s.len() implies #[trigger] node_complete(s, base as int, i, nodes, meshes) by {
                if 0 < i < own.len() {
                    assert(s[i] == own[i]);
                } else if i >= own.len() {
                    let r = i - own.len();
                    assert(node_complete(rest, (base + own.len()) as int, r, nodes, meshes));
                    lemma_complete_shift(s, base as int, rest, own.len() as int, r, nodes, meshes);
                }
            }
        }
    }
}

proof fn lemma_children_complete(
    nodes: Seq<GltfNodeInfo>,
    meshes: Seq<GltfMeshInfo>,
    mi: Map<u64, usize>,
    ti: Map<u64, usize>,
    cs: Seq<u64>,
    n: nat,
    outer: PlanParent,
    base: nat,
    fuel: nat,
)
    requires
        n <= cs.len(),
        forall|j: int| 0 <= j < n ==> #[trigger] spawnable(nodes, meshes, mi, cs[j], fuel),
        base + children_spec(nodes, meshes, mi, ti, cs, n, outer, base, fuel).len() <= usize::MAX,
    ensures
        forall|i: int| 0 <= i < children_spec(nodes, meshes, mi, ti, cs, n, outer, base, fuel).len() ==>
            #[trigger] node_complete(children_spec(nodes, meshes, mi, ti, cs, n, outer, base, fuel), base as int, i, nodes, meshes),
        forall|j: int| 0 <= j < n ==>
            has_attached(children_spec(nodes, meshes, mi, ti, cs, n, outer, base, fuel), outer, root_kind(nodes, #[trigger] cs[j])),
    decreases fuel, n,
{
    let c = children_spec(nodes, meshes, mi, ti, cs, n, outer, base, fuel);
    if n > 0 {
        let done = children_spec(nodes, meshes, mi, ti, cs, (n - 1) as nat, outer, base, fuel);
        let lb = base + done.len();
        let last = spawn_spec(nodes, meshes, mi, ti, cs[n - 1], outer, lb, fuel);
        assert(c == done + last);
        assert(spawnable(nodes, meshes, mi, cs[n - 1], fuel));
        lemma_children_complete(nodes, meshes, mi, ti, cs, (n - 1) as nat, outer, base, fuel);
        lemma_spawn_complete(nodes, meshes, mi, ti, cs[n - 1], outer, lb, fuel);
        lemma_spawn_parents_precede(nodes, meshes, mi, ti, cs[n - 1], outer, lb, fuel);
        assert forall|m: int| 0 <= m < done.len() implies c[0 + m] == #[trigger] done[m] by {}
        assert forall|m: int| 0 <= m < last.len() implies c[done.len() + m] == #[trigger] last[m] by {}
        assert forall|i: int| 0 <= i < c.len() implies #[trigger] node_complete(c, base as int, i, nodes, meshes) by {
            if i < done.len() {
                assert(node_complete(done, base as int, i, nodes, meshes));
                lemma_complete_shift(c, base as int, done, 0, i, nodes, meshes);
            } else {
                let k = i - done.len();
                assert(node_complete(last, lb as int, k, nodes, meshes));
                lemma_complete_shift(c, base as int, last, done.len() as int, k, nodes, meshes);
            }
        }
        assert forall|j: int| 0 <= j < n implies has_attached(c, outer, root_kind(nodes, #[trigger] cs[j])) by {
            let kind = root_kind(nodes, cs[j]);
            if j < n - 1 {
                assert(has_attached(done, outer, kind));
                let m = choose|m: int| 0 <= m < done.len() && (#[trigger] done[m]).parent == outer && done[m].kind == kind;
                assert(c[m] == done[m]);
            } else {
                assert(c[done.len() as int] == last[0]);
            }
        }
    }
}

/// Nothing of a node is left out of a planned file: the entity of every
/// found node has, attached to it, a primitive entity for every primitive
/// of its mesh (unless the mesh has exactly one, which the node carries
/// itself) and an entity for every one of its children.
pub proof fn lemma_plan_complete(
    gltf: GltfInfo,
    node_assets: Seq<GltfNodeInfo>,
    mesh_assets: Seq<GltfMeshInfo>,
    parent: Option<u64>,
)
    requires
        gltf_spawnable(gltf, node_assets, mesh_assets),
        gltf_spawn_plan(gltf, node_assets, mesh_assets, parent).len() <= usize::MAX,
    ensures
        forall|i: int| 0 <= i < gltf_spawn_plan(gltf, node_assets, mesh_assets, parent).len() ==>
            #[trigger] node_complete(gltf_spawn_plan(gltf, node_assets, mesh_assets, parent), 0, i, node_assets, mesh_assets),
{
    let roots = gltf_roots(gltf.nodes@, node_assets);
    lemma_roots_prefix_len(gltf.nodes@, node_assets, gltf.nodes@.len());
    assert forall|j: int| 0 <= j < roots.len() implies
        #[trigger] spawnable(node_assets, mesh_assets, index_map_of(gltf.meshes@), roots[j], spawn_fuel(node_assets)) by {
    }
    lemma_children_complete(
        node_assets, mesh_assets, index_map_of(gltf.meshes@), index_map_of(gltf.materials@),
        roots, roots.len(), root_parent(parent), 0, spawn_fuel(node_assets),
    );
}

} // verus!
