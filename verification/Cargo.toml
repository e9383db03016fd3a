[package]
name = "boimp"
version = "0.1.0"
edition = "2021"
publish = false

[dependencies]
anyhow = "1"
async-channel = "2"
bevy = { version = "0.17", default-features = false, features = ["bevy_pbr", "bevy_log"] }
bytemuck = "1"
crossbeam-channel = "0.5"
image = { version = "0.25", default-features = false, features = ["png"] }
serde = { version = "1", features = ["derive"] }
wgpu = { version = "26", default-features = false }
zip = { version = "2", default-features = false, features = ["deflate"] }
