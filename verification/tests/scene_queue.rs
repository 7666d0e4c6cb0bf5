use space_prefab_logic::scene_queue::{EditorUnpackGltf, GltfSceneQueue};

#[test]
fn queue_starts_empty() {
    let mut q = GltfSceneQueue::new();
    assert_eq!(q.len(), 0);
    assert_eq!(q.front(), None);
    assert_eq!(q.advance(true), None);
}

#[test]
fn queue_waits_for_the_front_asset() {
    let mut q = GltfSceneQueue::new();
    q.push(100, Some(1));
    q.push(200, None);
    assert_eq!(q.advance(false), None);
    assert_eq!(q.len(), 2);
    assert_eq!(q.front(), Some((100, Some(1))));
    assert_eq!(q.advance(true), Some((100, Some(1))));
    assert_eq!(q.len(), 1);
    assert_eq!(q.front(), Some((200, None)));
}

#[test]
fn queue_is_first_in_first_out() {
    let mut q = GltfSceneQueue::new();
    q.push_requests(&vec![(1, None), (2, Some(9)), (3, None)]);
    q.push(4, Some(8));
    assert_eq!(q.len(), 4);
    assert_eq!(q.advance(true), Some((1, None)));
    assert_eq!(q.advance(true), Some((2, Some(9))));
    assert_eq!(q.advance(true), Some((3, None)));
    assert_eq!(q.advance(true), Some((4, Some(8))));
    assert_eq!(q.advance(true), None);
    assert_eq!(q.len(), 0);
}

#[test]
fn unpack_request_holds_path_and_parent() {
    let r = EditorUnpackGltf { path: "models/colone.glb".to_string(), parent: Some(3) };
    assert_eq!(r.path, "models/colone.glb");
    assert_eq!(r.parent, Some(3));
}
