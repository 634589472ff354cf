[package]
name = "elysian_mesh"
version = "0.1.0"
edition = "2021"
publish = false

[dependencies]
base64 = "0.21"
gltf-json = "1"
