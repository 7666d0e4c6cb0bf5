# space_prefab_logic

The decisions of a Bevy prefab editor's prefab plugins, written in Verus and
proved against their contracts:

- `asset_path`: the labels `{file}#Mesh{m}/Primitive{p}` and `{file}#Material{m}`.
- `index_map`: the `bevy_platform` hash maps that unpacking fills, behind
  trusted wrappers.
- `gltf_unpack`: the roots of a glTF node graph and the plan of entities that
  unpacking a file spawns (nodes, mesh primitives, materials, hierarchy).
- `scene_queue`: the first-in, first-out queue of files waiting to load.
- `prefab_load`: loading a prefab into an entity, resolving prefab markers,
  re-attaching saved children.

`app/` holds the Bevy plugins and systems that read the world, call the
library and carry out its plans.
