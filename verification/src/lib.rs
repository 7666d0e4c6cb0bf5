//! Verified core of a prefab editor: asset-path naming, glTF node-graph
//! unpacking plans, the glTF load queue and the prefab loading rules.

pub mod asset_path;
pub mod index_map;
pub mod gltf_unpack;
pub mod scene_queue;
pub mod prefab_load;
