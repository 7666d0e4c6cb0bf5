[package]
name = "space_prefab_logic"
version = "0.1.0"
edition = "2021"
publish = false

[dependencies]
bevy_platform = "=0.17.3"
bevy = { version = "=0.17.3", default-features = false, features = ["bevy_gltf", "bevy_scene"] }
