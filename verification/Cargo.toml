[package]
name = "scene_tools"
version = "0.1.0"
edition = "2021"
publish = false

[dependencies]
gltf = { version = "=1.4.1", features = ["extras", "names", "KHR_materials_transmission", "KHR_materials_ior", "KHR_materials_emissive_strength"] }
image = { version = "=0.25.10", default-features = false, features = ["png", "jpeg", "tga", "bmp", "hdr"] }
serde_json = "=1.0.154"
png = "=0.18.1"
rand = "0.10"
tobj = "=4.0.5"
exr = "=1.74.2"
noise = "=0.9.0"
ron = "=0.12.3"
serde = { version = "=1.0.229", features = ["derive"] }
thiserror = "=2.0.21"
clap = { version = "=4.6.7", features = ["derive"] }
