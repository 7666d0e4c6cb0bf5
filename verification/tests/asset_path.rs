use space_prefab_logic::asset_path::{append_decimal, material_asset_path, mesh_asset_path};

#[test]
fn mesh_path_names_mesh_and_primitive() {
    assert_eq!(mesh_asset_path("models/colone.glb", 3, 0), "models/colone.glb#Mesh3/Primitive0");
    assert_eq!(mesh_asset_path("a.gltf", 10, 257), "a.gltf#Mesh10/Primitive257");
}

#[test]
fn material_path_names_material() {
    assert_eq!(material_asset_path("models/colone.glb", 0), "models/colone.glb#Material0");
    assert_eq!(material_asset_path("", 42), "#Material42");
}

#[test]
fn decimal_digits() {
    for n in [0usize, 7, 9, 10, 99, 100, 1234567890, usize::MAX] {
        let mut s = String::from("x");
        append_decimal(&mut s, n);
        assert_eq!(s, format!("x{}", n));
    }
}

#[test]
fn different_primitives_get_different_paths() {
    assert_ne!(mesh_asset_path("f", 1, 12), mesh_asset_path("f", 11, 2));
    assert_ne!(material_asset_path("f", 1), material_asset_path("f", 10));
    assert_eq!(mesh_asset_path("f", 1, 12), "f#Mesh1/Primitive12");
    assert_eq!(mesh_asset_path("f", 11, 2), "f#Mesh11/Primitive2");
}
