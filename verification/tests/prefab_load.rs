use space_prefab_logic::prefab_load::{
    attachable_children, conflict_resolve, plan_prefab_load, select_flagged, should_mark_instance,
    PrefabBundle, PrefabFlags, PrefabLoader,
};

#[test]
fn new_prefab_bundler() {
    let bundler = PrefabBundle::new("path");

    assert_eq!(bundler.loader.path, "path");
}

#[test]
fn conflict_resolver_only_one_prefab_component_allowed() {
    // One entity with both the auto-child marker and the prefab marker, one
    // with the auto-child marker only.
    let mut world = vec![
        PrefabFlags { entity: 1, auto_child: true, prefab_marker: true },
        PrefabFlags { entity: 2, auto_child: true, prefab_marker: false },
    ];

    conflict_resolve(&mut world);

    assert_eq!(world.iter().filter(|f| f.auto_child && f.prefab_marker).count(), 0);
    assert_eq!(world.iter().filter(|f| f.auto_child).count(), 2);
}

#[test]
fn conflict_resolve_reports_and_keeps_plain_prefabs() {
    let mut world = vec![
        PrefabFlags { entity: 7, auto_child: false, prefab_marker: true },
        PrefabFlags { entity: 8, auto_child: true, prefab_marker: true },
        PrefabFlags { entity: 9, auto_child: false, prefab_marker: false },
        PrefabFlags { entity: 10, auto_child: true, prefab_marker: true },
    ];
    let removed = conflict_resolve(&mut world);
    assert_eq!(removed, vec![8, 10]);
    assert_eq!(
        world,
        vec![
            PrefabFlags { entity: 7, auto_child: false, prefab_marker: true },
            PrefabFlags { entity: 8, auto_child: true, prefab_marker: false },
            PrefabFlags { entity: 9, auto_child: false, prefab_marker: false },
            PrefabFlags { entity: 10, auto_child: true, prefab_marker: false },
        ]
    );
    // Resolving again changes nothing.
    let again = conflict_resolve(&mut world);
    assert!(again.is_empty());
    assert_eq!(world[0].prefab_marker, true);
}

#[test]
fn default_loader_has_empty_path() {
    let bundle = PrefabBundle::default();
    assert_eq!(bundle.loader.path, "");
    assert_eq!(PrefabLoader::default().path, "");
}

#[test]
fn prefab_load_plan_on_bare_entity() {
    let loader = PrefabLoader { path: "scenes/tree.scn.ron".to_string() };
    let plan = plan_prefab_load(&loader, false, false, None);
    assert!(plan.insert_transform);
    assert!(plan.insert_visibility);
    assert!(!plan.clear_children);
    assert!(plan.despawn.is_empty());
    assert_eq!(plan.scene_path, "scenes/tree.scn.ron");
}

#[test]
fn prefab_load_plan_replaces_previous_scene() {
    let loader = PrefabLoader { path: "a.scn.ron".to_string() };
    let children = vec![(11, true), (12, false), (13, true)];
    let plan = plan_prefab_load(&loader, true, true, Some(&children));
    assert!(!plan.insert_transform);
    assert!(!plan.insert_visibility);
    assert!(plan.clear_children);
    assert_eq!(plan.despawn, vec![11, 13]);
    assert_eq!(plan.scene_path, "a.scn.ron");
}

#[test]
fn prefab_load_plan_with_empty_children() {
    let loader = PrefabLoader { path: String::new() };
    let children: Vec<(u64, bool)> = vec![];
    let plan = plan_prefab_load(&loader, true, false, Some(&children));
    assert!(plan.clear_children);
    assert!(plan.insert_visibility);
    assert!(plan.despawn.is_empty());
}

#[test]
fn instance_marking_needs_real_target_and_ready_instance() {
    assert!(should_mark_instance(false, true));
    assert!(!should_mark_instance(true, true));
    assert!(!should_mark_instance(false, false));
    assert!(!should_mark_instance(true, false));
}

#[test]
fn only_existing_children_are_attached() {
    let children = vec![(5, true), (6, false), (7, true), (5, true)];
    assert_eq!(attachable_children(&children), vec![5, 7, 5]);
    assert!(attachable_children(&vec![]).is_empty());
    assert_eq!(select_flagged(&vec![(1, false), (2, false)]), Vec::<u64>::new());
}
